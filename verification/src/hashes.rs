use sha2::Digest;
use vstd::prelude::*;

verus! {

use crate::base64::{b64_encode, encode_base64};
use crate::fileinfo::FileInfo;
use vstd::utf8::encode_utf8;

// The four fingerprints of one file: a SHA-256 digest of the raw bytes, and
// three perceptual hashes of the decoded raster. The outside calls stand
// behind the trusted items below; everything around them is verified.

/// The SHA-256 digest of a byte string. The digest takes pages to state,
/// but it is a function of the bytes alone; this name stands for it.
pub uninterp spec fn sha256_of(bytes: Seq<u8>) -> Seq<u8>;

/// Whether a byte string decodes as an image. Decoding is deterministic, a
/// function of the bytes alone; this name stands for its success.
pub uninterp spec fn decodable(bytes: Seq<u8>) -> bool;

/// The base64 text of the 8x8 mean perceptual hash of the raster a byte
/// string decodes to. The hash takes pages to state, but it is a function
/// of the bytes alone; this name stands for it.
pub uninterp spec fn mean_hash_of(bytes: Seq<u8>) -> Seq<char>;

/// The base64 text of the 8x8 gradient perceptual hash of the raster a
/// byte string decodes to, a function of the bytes alone.
pub uninterp spec fn gradient_hash_of(bytes: Seq<u8>) -> Seq<char>;

/// The base64 text of the 8x8 frequency-domain (DCT) perceptual hash of
/// the raster a byte string decodes to, a function of the bytes alone.
pub uninterp spec fn dct_hash_of(bytes: Seq<u8>) -> Seq<char>;

/// Relies on `sha2::Sha256::digest`: the digest depends on the input bytes
/// alone and is 32 bytes long.
#[verifier::external_body]
fn sha256_digest(bytes: &Vec<u8>) -> (r: Vec<u8>)
    ensures
        r@ == sha256_of(bytes@),
        r@.len() == 32,
{
    sha2::Sha256::digest(bytes.as_slice()).to_vec()
}

/// Relies on `image::load_from_memory` and `img_hash`'s mean hasher: both
/// the decode and the 8x8 mean hash depend on the bytes alone, so the
/// result is the named `mean_hash_of` exactly when the bytes decode.
#[verifier::external_body]
fn mean_hash_from_bytes(bytes: &Vec<u8>) -> (r: Option<String>)
    ensures
        r is Some <==> decodable(bytes@),
        r matches Some(s) ==> s@ == mean_hash_of(bytes@),
{
    match image::load_from_memory(bytes.as_slice()) {
        Ok(img) => Some(
            img_hash::HasherConfig::new().hash_alg(img_hash::HashAlg::Mean).to_hasher()
                .hash_image(&img).to_base64(),
        ),
        Err(_) => None,
    }
}

/// Relies on `image::load_from_memory` and `img_hash`'s gradient hasher:
/// both the decode and the 8x8 gradient hash depend on the bytes alone, so
/// the result is the named `gradient_hash_of` exactly when the bytes
/// decode.
#[verifier::external_body]
fn gradient_hash_from_bytes(bytes: &Vec<u8>) -> (r: Option<String>)
    ensures
        r is Some <==> decodable(bytes@),
        r matches Some(s) ==> s@ == gradient_hash_of(bytes@),
{
    match image::load_from_memory(bytes.as_slice()) {
        Ok(img) => Some(
            img_hash::HasherConfig::new().hash_alg(img_hash::HashAlg::Gradient).to_hasher()
                .hash_image(&img).to_base64(),
        ),
        Err(_) => None,
    }
}

/// Relies on `image::load_from_memory` and `img_hash`'s DCT preprocessing
/// with its mean threshold over the low-frequency coefficients: both the
/// decode and the hash depend on the bytes alone, so the result is the
/// named `dct_hash_of` exactly when the bytes decode.
#[verifier::external_body]
fn dct_hash_from_bytes(bytes: &Vec<u8>) -> (r: Option<String>)
    ensures
        r is Some <==> decodable(bytes@),
        r matches Some(s) ==> s@ == dct_hash_of(bytes@),
{
    match image::load_from_memory(bytes.as_slice()) {
        Ok(img) => Some(
            img_hash::HasherConfig::new().hash_alg(img_hash::HashAlg::Mean).preproc_dct()
                .to_hasher().hash_image(&img).to_base64(),
        ),
        Err(_) => None,
    }
}

/// Relies on `image::load_from_memory` and `image::error::ImageError`'s
/// `Display` impl: the decoder's failure message, exactly when the bytes
/// do not decode.
#[verifier::external_body]
fn decode_error(bytes: &Vec<u8>) -> (r: Option<String>)
    ensures
        r is Some <==> !decodable(bytes@),
{
    match image::load_from_memory(bytes.as_slice()) {
        Ok(_) => None,
        Err(e) => Some(format!("{}", e)),
    }
}

/// What became of one file in the hashing pipeline.
pub enum ProcessOutcome {
    /// All four fingerprints were computed.
    Complete(FileInfo),
    /// The file's bytes did not decode as an image: the record is skipped,
    /// reported here with the decoder's message.
    Undecodable(String, String),
}

/// What `process_file` promises for one file: a complete record exactly
/// when the bytes decode, an explicit skip report when they do not, and in
/// both cases for the path given. A complete record carries all four
/// fingerprints of the bytes: the base64 text of their SHA-256 digest, and
/// the three named perceptual hashes of the raster they decode to.
pub open spec fn outcome_for(path: Seq<char>, bytes: Seq<u8>, o: ProcessOutcome) -> bool {
    if decodable(bytes) {
        o matches ProcessOutcome::Complete(fi) && ({
            &&& fi.filename@ == path
            &&& fi.spec_complete()
            &&& fi.sha2_hash matches Some(s) && encode_utf8(s@) == b64_encode(sha256_of(bytes))
            &&& fi.a_hash matches Some(a) && a@ == mean_hash_of(bytes)
            &&& fi.d_hash matches Some(d) && d@ == gradient_hash_of(bytes)
            &&& fi.p_hash matches Some(p) && p@ == dct_hash_of(bytes)
        })
    } else {
        o matches ProcessOutcome::Undecodable(p, _) && p@ == path
    }
}

/// Computes all four fingerprints of one file from its raw bytes: the
/// content digest from the bytes, and the three perceptual hashes from the
/// decoded raster. An undecodable file yields an explicit skip report, not
/// a silently vanishing record.
pub fn process_file(path: &String, bytes: &Vec<u8>) -> (r: ProcessOutcome)
    ensures
        outcome_for(path@, bytes@, r),
{
    let digest = sha256_digest(bytes);
    let sha_text = encode_base64(&digest);
    match mean_hash_from_bytes(bytes) {
        Some(a) => {
            let d = gradient_hash_from_bytes(bytes);
            let p = dct_hash_from_bytes(bytes);
            ProcessOutcome::Complete(
                FileInfo {
                    filename: path.clone(),
                    a_hash: Some(a),
                    d_hash: Some(d.unwrap()),
                    p_hash: Some(p.unwrap()),
                    sha2_hash: Some(sha_text),
                },
            )
        },
        None => ProcessOutcome::Undecodable(path.clone(), decode_error(bytes).unwrap()),
    }
}

/// Fingerprints a batch of files, one outcome per file, in order. Each
/// file's outcome depends on that file alone: one corrupt file among many
/// cannot keep any other from completing.
pub fn hash_files(inputs: &Vec<(String, Vec<u8>)>) -> (r: Vec<ProcessOutcome>)
    ensures
        r@.len() == inputs@.len(),
        forall|i: int|
            0 <= i < inputs@.len() ==> outcome_for(
                inputs@[i].0@,
                inputs@[i].1@,
                #[trigger] r@[i],
            ),
{
    let mut out: Vec<ProcessOutcome> = Vec::new();
    let n = inputs.len();
    for i in 0..n
        invariant
            n == inputs@.len(),
            out@.len() == i,
            forall|j: int|
                0 <= j < i ==> outcome_for(inputs@[j].0@, inputs@[j].1@, #[trigger] out@[j]),
    {
        let entry = &inputs[i];
        let o = process_file(&entry.0, &entry.1);
        out.push(o);
    }
    out
}

} // verus!
