use vstd::prelude::*;

verus! {

use crate::codec::{
    save_cache_bytes,
    parse_cache_bytes,
    save_spec,
    load_spec,
    file_info_view,
    lemma_cache_round_trip,
};
use crate::fileinfo::FileInfo;
use crate::result::ItoolsResult;
use crate::strmap::{StrMap, seq_get, seq_has_key, keys_unique};

/// How many seconds must pass between two periodic snapshots.
pub const SNAPSHOT_INTERVAL_SECS: u64 = 5;

/// The in-memory fingerprint cache: completed records keyed by file path.
///
/// The cache is created empty or loaded from snapshot bytes, accumulates
/// records through `ingest`, and is serialized back to snapshot bytes with
/// `to_bytes`. The caller owns reading and writing the snapshot file and the
/// snapshot cadence; `should_snapshot` is the cadence decision.
#[derive(Debug)]
pub struct PersistedCache {
    cache: StrMap<FileInfo>,
}

impl View for PersistedCache {
    type V = Seq<(Seq<char>, FileInfo)>;

    closed spec fn view(&self) -> Seq<(Seq<char>, FileInfo)> {
        self.cache@
    }
}

/// The entry sequence `m` with record `fi` ingested: an entry keyed by the
/// record's path is overwritten in place, otherwise the record is appended.
pub open spec fn spec_insert(
    m: Seq<(Seq<char>, FileInfo)>,
    fi: FileInfo,
) -> Seq<(Seq<char>, FileInfo)> {
    if seq_has_key(m, fi.filename@) {
        m.update(
            choose|i: int| 0 <= i < m.len() && m[i].0 == fi.filename@,
            (fi.filename@, fi),
        )
    } else {
        m.push((fi.filename@, fi))
    }
}

/// The entry sequence `m` after ingesting every record of `rs` in order.
pub open spec fn ingest_all(
    m: Seq<(Seq<char>, FileInfo)>,
    rs: Seq<FileInfo>,
) -> Seq<(Seq<char>, FileInfo)>
    decreases rs.len(),
{
    if rs.len() == 0 {
        m
    } else {
        ingest_all(spec_insert(m, rs[0]), rs.drop_first())
    }
}

impl PersistedCache {
    /// Entries are keyed by their record's path, with no key repeated.
    pub open spec fn wf(self) -> bool {
        &&& keys_unique(self@)
        &&& forall|i: int| 0 <= i < self@.len() ==> #[trigger] self@[i].0 == self@[i].1.filename@
    }

    /// Creates an empty cache.
    pub fn new() -> (r: PersistedCache)
        ensures
            r@ == Seq::<(Seq<char>, FileInfo)>::empty(),
            r.wf(),
    {
        PersistedCache { cache: StrMap::new() }
    }

    /// Loads a cache from snapshot bytes, ingesting the records in file
    /// order. Fails exactly when the snapshot is malformed.
    pub fn from_bytes(bytes: &Vec<u8>) -> (r: ItoolsResult<PersistedCache>)
        ensures
            r is Ok <==> load_spec(bytes@) is Some,
            r matches Ok(c) ==> ({
                &&& c.wf()
                &&& load_spec(bytes@) matches Some(views) && exists|rs: Seq<FileInfo>|
                    {
                        &&& rs.map_values(|fi: FileInfo| file_info_view(fi)) == views
                        &&& c@ == #[trigger] ingest_all(Seq::<(Seq<char>, FileInfo)>::empty(), rs)
                    }
            }),
    {
        let mut records = match parse_cache_bytes(bytes) {
            Ok(v) => v,
            Err(e) => {
                return Err(e);
            },
        };
        let ghost rs = records@;
        let mut cache = PersistedCache::new();
        let ghost i: int = 0;
        proof {
            assert(rs.skip(0) =~= rs);
            assert(cache@ =~= Seq::<(Seq<char>, FileInfo)>::empty());
        }
        while records.len() > 0
            invariant
                0 <= i <= rs.len(),
                records@ == rs.skip(i),
                cache.wf(),
                ingest_all(cache@, rs.skip(i)) == ingest_all(
                    Seq::<(Seq<char>, FileInfo)>::empty(),
                    rs,
                ),
            decreases records@.len(),
        {
            let fi = records.remove(0);
            proof {
                assert(fi == rs.skip(i)[0]);
                assert(rs.skip(i)[0] == rs[i]);
                assert(records@ =~= rs.skip(i).drop_first());
                assert(rs.skip(i).drop_first() =~= rs.skip(i + 1));
            }
            cache.ingest(fi);
            proof {
                i = i + 1;
            }
        }
        proof {
            assert(rs.skip(i) =~= Seq::<FileInfo>::empty());
        }
        Ok(cache)
    }

    /// Number of cached records.
    pub fn len(&self) -> (r: usize)
        ensures
            r == self@.len(),
    {
        self.cache.len()
    }

    /// Membership test: has `f` already been fingerprinted?
    pub fn contains_file(&self, f: &String) -> (r: bool)
        ensures
            r == seq_has_key(self@, f@),
    {
        self.cache.contains_key(f)
    }

    /// Looks up the cached record for `f`.
    pub fn get(&self, f: &String) -> (r: Option<&FileInfo>)
        ensures
            match r {
                Some(fi) => seq_get(self@, f@) == Some(*fi),
                None => seq_get(self@, f@) is None,
            },
    {
        self.cache.get(f)
    }

    /// Ingests a completed record: overwrites the entry for its path, or
    /// appends a new one.
    pub fn ingest(&mut self, fi: FileInfo)
        requires
            old(self).wf(),
        ensures
            final(self).wf(),
            final(self)@ == spec_insert(old(self)@, fi),
            seq_get(final(self)@, fi.filename@) == Some(fi),
            forall|k2: Seq<char>|
                k2 != fi.filename@ ==> seq_get(final(self)@, k2) == seq_get(old(self)@, k2),
            final(self)@.len() == old(self)@.len() + (if seq_has_key(old(self)@, fi.filename@) {
                0int
            } else {
                1int
            }),
    {
        let ghost pre = self@;
        let key = fi.filename.clone();
        let ghost fname = fi.filename@;
        self.cache.insert(key, fi);
        proof {
            if seq_has_key(pre, fname) {
                let i = choose|i: int| 0 <= i < pre.len() && pre[i].0 == fname;
                let j = choose|j: int|
                    0 <= j < pre.len() && pre[j].0 == fname && self@ == pre.update(
                        j,
                        (fname, self@[j].1),
                    );
                assert(i == j);
            }
            assert forall|i: int| 0 <= i < self@.len() implies #[trigger] self@[i].0
                == self@[i].1.filename@ by {}
        }
    }

    /// Serializes the cache into snapshot bytes.
    pub fn to_bytes(&self) -> (r: Vec<u8>)
        ensures
            r@ == save_spec(self@.map_values(|p: (Seq<char>, FileInfo)| file_info_view(p.1))),
    {
        save_cache_bytes(&self.cache)
    }

    /// Stops the cache and hands its map to the caller, for the search that
    /// follows.
    pub fn join(self) -> (r: StrMap<FileInfo>)
        ensures
            r@ == self@,
    {
        self.cache
    }
}

/// The snapshot-cadence decision: write a periodic snapshot exactly when at
/// least `SNAPSHOT_INTERVAL_SECS` seconds have passed since the last one.
pub fn should_snapshot(elapsed_secs: u64) -> (r: bool)
    ensures
        r == (elapsed_secs >= SNAPSHOT_INTERVAL_SECS),
{
    elapsed_secs >= SNAPSHOT_INTERVAL_SECS
}

/// The files of `files` that are not yet cached, in order.
pub fn filter_files_in_cache(files: &Vec<String>, cache: &PersistedCache) -> (r: Vec<String>)
    ensures
        r.deep_view() == files.deep_view().filter(|f: Seq<char>| !seq_has_key(cache@, f)),
{
    let mut out: Vec<String> = Vec::new();
    let n = files.len();
    for i in 0..n
        invariant
            n == files@.len(),
            out.deep_view() == files.deep_view().take(i as int).filter(
                |f: Seq<char>| !seq_has_key(cache@, f),
            ),
    {
        let ghost taken = files.deep_view().take(i as int);
        let ghost pred = |f: Seq<char>| !seq_has_key(cache@, f);
        let ghost out0 = out.deep_view();
        if !cache.contains_file(&files[i]) {
            out.push(files[i].clone());
            proof {
                assert(out.deep_view() =~= out0.push(files.deep_view()[i as int]));
            }
        }
        proof {
            reveal_with_fuel(Seq::filter, 2);
            let next = files.deep_view().take(i + 1);
            assert(next.drop_last() =~= taken);
            assert(next.last() == files.deep_view()[i as int]);
            assert(next.filter(pred) == if pred(next.last()) {
                taken.filter(pred).push(next.last())
            } else {
                taken.filter(pred)
            });
        }
    }
    proof {
        assert(files.deep_view().take(n as int) =~= files.deep_view());
    }
    out
}

/// Re-ingesting the records of a well-formed cache into an empty cache, in
/// entry order, rebuilds exactly the same entries: this is the heart of the
/// reload laws.
pub proof fn lemma_reingest_exact(m: Seq<(Seq<char>, FileInfo)>, i: int)
    requires
        keys_unique(m),
        forall|j: int| 0 <= j < m.len() ==> #[trigger] m[j].0 == m[j].1.filename@,
        0 <= i <= m.len(),
    ensures
        ingest_all(m.take(i), m.map_values(|p: (Seq<char>, FileInfo)| p.1).skip(i)) == m,
    decreases m.len() - i,
{
    let vals = m.map_values(|p: (Seq<char>, FileInfo)| p.1);
    if i == m.len() {
        assert(vals.skip(i) =~= Seq::<FileInfo>::empty());
        assert(m.take(i) =~= m);
    } else {
        lemma_reingest_exact(m, i + 1);
        let fi = m[i].1;
        assert(vals.skip(i)[0] == fi);
        assert(!seq_has_key(m.take(i), fi.filename@)) by {
            assert(m[i].0 == fi.filename@);
            assert forall|j: int| 0 <= j < i implies m.take(i)[j].0 != fi.filename@ by {
                assert(m[j].0 != m[i].0);
            }
        }
        assert((fi.filename@, fi) == m[i]);
        assert(m.take(i + 1) =~= m.take(i).push(m[i]));
        assert(spec_insert(m.take(i), fi) == m.take(i + 1));
        assert(vals.skip(i).drop_first() =~= vals.skip(i + 1));
    }
}

/// Cache round-trip law: saving a well-formed cache and loading the snapshot
/// back reproduces the cache exactly — the snapshot parses, it holds exactly
/// the cache's records in entry order (whatever combination of hash fields
/// each has), and re-ingesting those records into an empty cache rebuilds
/// the same entries.
pub proof fn lemma_cache_save_load_exact(m: Seq<(Seq<char>, FileInfo)>)
    requires
        keys_unique(m),
        forall|j: int| 0 <= j < m.len() ==> #[trigger] m[j].0 == m[j].1.filename@,
    ensures
        load_spec(save_spec(m.map_values(|p: (Seq<char>, FileInfo)| file_info_view(p.1))))
            == Some(m.map_values(|p: (Seq<char>, FileInfo)| file_info_view(p.1))),
        ingest_all(
            Seq::<(Seq<char>, FileInfo)>::empty(),
            m.map_values(|p: (Seq<char>, FileInfo)| p.1),
        ) == m,
{
    lemma_cache_round_trip(m.map_values(|p: (Seq<char>, FileInfo)| file_info_view(p.1)));
    lemma_reingest_exact(m, 0);
    assert(m.take(0) =~= Seq::<(Seq<char>, FileInfo)>::empty());
    assert(m.map_values(|p: (Seq<char>, FileInfo)| p.1).skip(0) =~= m.map_values(
        |p: (Seq<char>, FileInfo)| p.1,
    ));
}

/// Idempotent-reload law: ingesting a record whose path is already cached
/// overwrites that entry in place — the entry count does not grow, keys stay
/// unique, the path maps to the new record, and every other path's lookup is
/// untouched.
pub proof fn lemma_ingest_overwrites(m: Seq<(Seq<char>, FileInfo)>, fi: FileInfo)
    requires
        keys_unique(m),
        seq_has_key(m, fi.filename@),
    ensures
        spec_insert(m, fi).len() == m.len(),
        keys_unique(spec_insert(m, fi)),
        seq_get(spec_insert(m, fi), fi.filename@) == Some(fi),
        forall|k2: Seq<char>| k2 != fi.filename@ ==> seq_get(spec_insert(m, fi), k2) == seq_get(
            m,
            k2,
        ),
{
    let i = choose|i: int| 0 <= i < m.len() && m[i].0 == fi.filename@;
    assert forall|j: int| 0 <= j < i implies m[j].0 != fi.filename@ by {
        assert(m[j].0 != m[i].0);
    }
    crate::strmap::lemma_seq_get_update(m, i, fi);
}

} // verus!
