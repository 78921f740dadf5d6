//! Finds exact and near-duplicate image files.
//!
//! Every file is fingerprinted four ways: a SHA-256 content digest and three
//! 64-bit perceptual hashes (mean, gradient, and DCT). Completed fingerprint
//! records accumulate in a persisted cache so repeated runs skip files that
//! were already hashed, and a similarity search over the fingerprints reports
//! groups of identical or visually similar files.
//!
//! The pieces: `fileinfo` holds the record type; `hashes` computes the four
//! fingerprints of a file; `aggregator` detects completion and reclaims each
//! record exactly once; `pipeline` is the transition-system model of the
//! staged pipeline and its backpressure bound; `pcache` and `codec` are the
//! persisted cache and its snapshot format; `search` builds the reverse
//! index and finds duplicate groups, with `base64` supplying the Hamming
//! distance between text-encoded fingerprints; `output` renders results;
//! `strmap` is the insertion-ordered string-keyed map under the cache and
//! the index.

pub mod aggregator;
pub mod base64;
pub mod codec;
pub mod fileinfo;
pub mod hashes;
pub mod output;
pub mod pcache;
pub mod pipeline;
pub mod result;
pub mod search;
pub mod strmap;
pub mod utils;

pub use aggregator::Aggregator;
pub use aggregator::HashField;
pub use fileinfo::FileInfo;
pub use fileinfo::FileInfoIncomplete;
pub use hashes::ProcessOutcome;
pub use hashes::hash_files;
pub use hashes::process_file;
pub use output::DynamicOutput;
pub use output::NoOutput;
pub use output::OpenOutput;
pub use output::Output;
pub use output::TextOutput;
pub use output::YamlOutput;
pub use output::new_no_output;
pub use output::new_open_output;
pub use output::new_text_output;
pub use output::new_yaml_output;
pub use pcache::PersistedCache;
pub use pcache::filter_files_in_cache;
pub use result::ItoolsError;
pub use result::ItoolsResult;
pub use search::Matches;
pub use search::SearchType;
pub use strmap::StrMap;
pub use utils::SafeSend;
pub use utils::bool_to_option;
