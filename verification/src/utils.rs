use vstd::prelude::*;

verus! {

/// `Some(f())` when `b` holds, otherwise `None` — and then `f` is never
/// called.
pub fn bool_to_option<T, F: FnOnce() -> T>(b: bool, f: F) -> (r: Option<T>)
    requires
        b ==> f.requires(()),
    ensures
        b ==> match r {
            Some(v) => f.ensures((), v),
            None => false,
        },
        !b ==> r is None,
{
    if b {
        Some(f())
    } else {
        None
    }
}

/// A channel endpoint that logs a failed send instead of failing the
/// sender. The caller's plumbing implements this for its channel types; the
/// library itself only names the interface.
pub trait SafeSend<T> {
    fn safe_send(&self, payload: T);
}

/// Whether a file extension names an image format this library fingerprints.
/// The caller's directory walk keeps exactly these files.
pub fn is_image_extension(ext: &str) -> (r: bool)
    ensures
        r == (ext@ == "gif"@ || ext@ == "jpg"@ || ext@ == "jpeg"@ || ext@ == "png"@),
{
    let e = ext.to_owned();
    e == String::from_str("gif") || e == String::from_str("jpg") || e == String::from_str("jpeg")
        || e == String::from_str("png")
}

/// An element-exact copy of a vector of strings.
pub fn clone_string_vec(v: &Vec<String>) -> (r: Vec<String>)
    ensures
        r@ == v@,
{
    let mut out: Vec<String> = Vec::new();
    let n = v.len();
    for i in 0..n
        invariant
            n == v@.len(),
            out@ == v@.take(i as int),
    {
        out.push(v[i].clone());
        proof {
            assert(v@.take(i + 1) =~= v@.take(i as int).push(v@[i as int]));
        }
    }
    proof {
        assert(v@.take(n as int) =~= v@);
    }
    out
}

} // verus!
