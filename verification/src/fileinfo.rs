use vstd::prelude::*;

verus! {

/// A completed (or loaded) fingerprint record for one file.
///
/// The record is keyed by the file's path. Each hash field holds the
/// text-encoded fingerprint, or `None` where that fingerprint was never
/// computed (a cache snapshot may hold partially hashed records).
#[derive(Debug, Clone, PartialEq, Eq)]
pub struct FileInfo {
    pub filename: String,
    pub a_hash: Option<String>,
    pub d_hash: Option<String>,
    pub p_hash: Option<String>,
    pub sha2_hash: Option<String>,
}

impl FileInfo {
    /// All four fingerprints are present.
    pub open spec fn spec_complete(self) -> bool {
        &&& self.a_hash is Some
        &&& self.d_hash is Some
        &&& self.p_hash is Some
        &&& self.sha2_hash is Some
    }

    /// Creates a record for `name` with every hash field unset.
    pub fn with_name(name: &str) -> (r: FileInfo)
        ensures
            r.filename@ == name@,
            r.a_hash is None,
            r.d_hash is None,
            r.p_hash is None,
            r.sha2_hash is None,
    {
        FileInfo {
            filename: name.to_owned(),
            a_hash: None,
            d_hash: None,
            p_hash: None,
            sha2_hash: None,
        }
    }

    /// Reports whether all four fingerprints are present.
    pub fn is_complete(&self) -> (r: bool)
        ensures
            r == self.spec_complete(),
    {
        self.a_hash.is_some() && self.d_hash.is_some() && self.p_hash.is_some()
            && self.sha2_hash.is_some()
    }
}

impl Default for FileInfo {
    /// An unnamed record with every field unset.
    fn default() -> (r: FileInfo)
        ensures
            r.filename@ == Seq::<char>::empty(),
            r.a_hash is None,
            r.d_hash is None,
            r.p_hash is None,
            r.sha2_hash is None,
    {
        FileInfo {
            filename: String::new(),
            a_hash: None,
            d_hash: None,
            p_hash: None,
            sha2_hash: None,
        }
    }
}

/// A fingerprint record still travelling through the hashing pipeline.
///
/// Fields are write-once: each is written by exactly one pipeline stage and
/// never overwritten. The record becomes complete when all four are set.
#[derive(Debug, Clone, PartialEq, Eq)]
pub struct FileInfoIncomplete {
    pub filename: String,
    pub a_hash: Option<String>,
    pub d_hash: Option<String>,
    pub p_hash: Option<String>,
    pub sha2_hash: Option<String>,
}

impl FileInfoIncomplete {
    /// All four fingerprints are present.
    pub open spec fn spec_complete(self) -> bool {
        &&& self.a_hash is Some
        &&& self.d_hash is Some
        &&& self.p_hash is Some
        &&& self.sha2_hash is Some
    }

    /// How many of the four fingerprints are present.
    pub open spec fn fields_set(self) -> int {
        (if self.a_hash is Some { 1int } else { 0 })
            + (if self.d_hash is Some { 1int } else { 0 })
            + (if self.p_hash is Some { 1int } else { 0 })
            + (if self.sha2_hash is Some { 1int } else { 0 })
    }

    /// Creates an in-flight record for `name` with every hash field unset.
    pub fn with_name(name: &str) -> (r: FileInfoIncomplete)
        ensures
            r.filename@ == name@,
            r.a_hash is None,
            r.d_hash is None,
            r.p_hash is None,
            r.sha2_hash is None,
    {
        FileInfoIncomplete {
            filename: name.to_owned(),
            a_hash: None,
            d_hash: None,
            p_hash: None,
            sha2_hash: None,
        }
    }

    /// Reports whether all four fingerprints are present.
    pub fn is_complete(&self) -> (r: bool)
        ensures
            r == self.spec_complete(),
    {
        self.a_hash.is_some() && self.d_hash.is_some() && self.p_hash.is_some()
            && self.sha2_hash.is_some()
    }

    /// Freezes a completed in-flight record into a cacheable one.
    pub fn into_file_info(self) -> (r: FileInfo)
        requires
            self.spec_complete(),
        ensures
            r.filename@ == self.filename@,
            r.a_hash == self.a_hash,
            r.d_hash == self.d_hash,
            r.p_hash == self.p_hash,
            r.sha2_hash == self.sha2_hash,
            r.spec_complete(),
    {
        FileInfo {
            filename: self.filename,
            a_hash: self.a_hash,
            d_hash: self.d_hash,
            p_hash: self.p_hash,
            sha2_hash: self.sha2_hash,
        }
    }
}

impl Default for FileInfoIncomplete {
    /// An unnamed in-flight record with every field unset.
    fn default() -> (r: FileInfoIncomplete)
        ensures
            r.filename@ == Seq::<char>::empty(),
            r.a_hash is None,
            r.d_hash is None,
            r.p_hash is None,
            r.sha2_hash is None,
    {
        FileInfoIncomplete {
            filename: String::new(),
            a_hash: None,
            d_hash: None,
            p_hash: None,
            sha2_hash: None,
        }
    }
}

} // verus!
