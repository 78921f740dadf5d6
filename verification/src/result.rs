use vstd::prelude::*;

verus! {

/// The library's error type.
#[derive(Debug, Clone, PartialEq, Eq)]
pub enum ItoolsError {
    /// An internal invariant was found broken.
    InvalidState(&'static str),
    /// The caller asked for an unsupported combination of options.
    UsageError(&'static str),
    /// A persisted cache snapshot is malformed; the payload counts the
    /// well-formed records before the malformed one.
    CacheFormat(usize),
    /// A file's bytes could not be decoded as an image.
    Image(String),
    /// An I/O failure reported by the caller's environment.
    IO(String),
}

/// Result alias used throughout the library.
pub type ItoolsResult<T> = Result<T, ItoolsError>;

} // verus!
