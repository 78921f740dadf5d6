use vstd::prelude::*;

verus! {

use crate::fileinfo::FileInfo;
use crate::result::{ItoolsError, ItoolsResult};
use crate::strmap::StrMap;
use vstd::utf8::{
    valid_utf8,
    decode_utf8,
    encode_utf8,
    encode_utf8_valid_utf8,
    encode_utf8_decode_utf8,
};

// The persisted cache snapshot is a line-oriented byte format. Each record is
// one line of five tab-separated fields: the file path, then the content,
// mean, gradient and frequency hashes. An absent hash is the single byte
// `-`; a present value is `+` followed by the value's bytes with `\`, tab
// and newline escaped (`\\`, `\t`, `\n`), so that the separators never occur
// raw inside a field.

pub const BYTE_BACKSLASH: u8 = 92;
pub const BYTE_TAB: u8 = 9;
pub const BYTE_NEWLINE: u8 = 10;
pub const BYTE_PLUS: u8 = 43;
pub const BYTE_MINUS: u8 = 45;
pub const BYTE_LOWER_T: u8 = 116;
pub const BYTE_LOWER_N: u8 = 110;

/// A parsed cache record, at the level of raw field bytes.
pub ghost struct RecordBytes {
    pub filename: Seq<u8>,
    pub sha2_hash: Option<Seq<u8>>,
    pub a_hash: Option<Seq<u8>>,
    pub d_hash: Option<Seq<u8>>,
    pub p_hash: Option<Seq<u8>>,
}

/// The escaped form of one byte.
pub open spec fn esc_byte(b: u8) -> Seq<u8> {
    if b == BYTE_BACKSLASH {
        seq![BYTE_BACKSLASH, BYTE_BACKSLASH]
    } else if b == BYTE_TAB {
        seq![BYTE_BACKSLASH, BYTE_LOWER_T]
    } else if b == BYTE_NEWLINE {
        seq![BYTE_BACKSLASH, BYTE_LOWER_N]
    } else {
        seq![b]
    }
}

/// The escaped form of a byte string.
pub open spec fn escape(s: Seq<u8>) -> Seq<u8>
    decreases s.len(),
{
    if s.len() == 0 {
        Seq::empty()
    } else {
        esc_byte(s[0]) + escape(s.drop_first())
    }
}

/// Undoes `escape`; `None` where the input ends inside an escape or holds an
/// unknown escape pair.
pub open spec fn unescape(s: Seq<u8>) -> Option<Seq<u8>>
    decreases s.len(),
{
    if s.len() == 0 {
        Some(Seq::empty())
    } else if s[0] == BYTE_BACKSLASH {
        if s.len() >= 2 && (s[1] == BYTE_BACKSLASH || s[1] == BYTE_LOWER_T || s[1]
            == BYTE_LOWER_N) {
            let b = if s[1] == BYTE_BACKSLASH {
                BYTE_BACKSLASH
            } else if s[1] == BYTE_LOWER_T {
                BYTE_TAB
            } else {
                BYTE_NEWLINE
            };
            match unescape(s.skip(2)) {
                Some(r) => Some(seq![b] + r),
                None => None,
            }
        } else {
            None
        }
    } else {
        match unescape(s.drop_first()) {
            Some(r) => Some(seq![s[0]] + r),
            None => None,
        }
    }
}

/// `escape` emits neither raw tabs nor raw newlines.
pub proof fn lemma_escape_no_separator(s: Seq<u8>)
    ensures
        forall|i: int| 0 <= i < escape(s).len() ==> escape(s)[i] != BYTE_TAB && escape(s)[i]
            != BYTE_NEWLINE,
    decreases s.len(),
{
    if s.len() > 0 {
        lemma_escape_no_separator(s.drop_first());
        assert forall|i: int| 0 <= i < escape(s).len() implies escape(s)[i] != BYTE_TAB && escape(
            s,
        )[i] != BYTE_NEWLINE by {
            if i >= esc_byte(s[0]).len() {
                assert(escape(s)[i] == escape(s.drop_first())[i - esc_byte(s[0]).len()]);
            }
        }
    }
}

/// `escape` distributes over concatenation.
pub proof fn lemma_escape_concat(a: Seq<u8>, b: Seq<u8>)
    ensures
        escape(a + b) == escape(a) + escape(b),
    decreases a.len(),
{
    if a.len() == 0 {
        assert(a + b =~= b);
        assert(escape(a) + escape(b) =~= escape(b));
    } else {
        lemma_escape_concat(a.drop_first(), b);
        assert((a + b).drop_first() =~= a.drop_first() + b);
        assert(escape(a + b) == esc_byte(a[0]) + (escape(a.drop_first()) + escape(b)));
        assert(esc_byte(a[0]) + (escape(a.drop_first()) + escape(b)) =~= (esc_byte(a[0]) + escape(
            a.drop_first(),
        )) + escape(b));
    }
}

/// Unescaping an escaped string gives the string back.
pub proof fn lemma_unescape_escape(s: Seq<u8>)
    ensures
        unescape(escape(s)) == Some(s),
    decreases s.len(),
{
    if s.len() == 0 {
        assert(unescape(escape(s)) == Some(Seq::<u8>::empty()));
        assert(s =~= Seq::<u8>::empty());
    } else {
        lemma_unescape_escape(s.drop_first());
        let e = escape(s);
        let head = esc_byte(s[0]);
        if s[0] == BYTE_BACKSLASH || s[0] == BYTE_TAB || s[0] == BYTE_NEWLINE {
            assert(head.len() == 2 && head[0] == BYTE_BACKSLASH);
            assert(e[0] == head[0] && e[1] == head[1]);
            assert(e.skip(2) =~= escape(s.drop_first()));
            assert(unescape(e) == Some(seq![s[0]] + s.drop_first()));
        } else {
            assert(e[0] == s[0]);
            assert(e.drop_first() =~= escape(s.drop_first()));
            assert(unescape(e) == Some(seq![s[0]] + s.drop_first()));
        }
        assert(seq![s[0]] + s.drop_first() =~= s);
    }
}

/// Splits `s` at the first occurrence of `sep`: the part before it and the
/// part after it. `None` where `sep` does not occur.
pub open spec fn take_until(s: Seq<u8>, sep: u8) -> Option<(Seq<u8>, Seq<u8>)>
    decreases s.len(),
{
    if s.len() == 0 {
        None
    } else if s[0] == sep {
        Some((Seq::empty(), s.drop_first()))
    } else {
        match take_until(s.drop_first(), sep) {
            Some(p) => Some((seq![s[0]] + p.0, p.1)),
            None => None,
        }
    }
}

/// Splitting `x + [sep] + y` at `sep` gives `(x, y)` when `x` is free of
/// `sep`.
pub proof fn lemma_take_until_prefix(x: Seq<u8>, sep: u8, y: Seq<u8>)
    requires
        forall|i: int| 0 <= i < x.len() ==> x[i] != sep,
    ensures
        take_until(x + seq![sep] + y, sep) == Some((x, y)),
    decreases x.len(),
{
    let s = x + seq![sep] + y;
    if x.len() == 0 {
        assert(s[0] == sep);
        assert(s.drop_first() =~= y);
        assert(x =~= Seq::<u8>::empty());
    } else {
        lemma_take_until_prefix(x.drop_first(), sep, y);
        assert(s[0] == x[0] && x[0] != sep);
        assert(s.drop_first() =~= x.drop_first() + seq![sep] + y);
        assert(seq![s[0]] + x.drop_first() =~= x);
    }
}

/// Splitting shortens: the remainder is strictly shorter than the input, and
/// the input is the two parts re-joined around `sep`.
pub proof fn lemma_take_until_parts(s: Seq<u8>, sep: u8)
    ensures
        take_until(s, sep) matches Some(p) ==> p.1.len() < s.len() && s == p.0 + seq![sep] + p.1
            && forall|i: int| 0 <= i < p.0.len() ==> p.0[i] != sep,
    decreases s.len(),
{
    if s.len() > 0 && s[0] != sep {
        lemma_take_until_parts(s.drop_first(), sep);
        if take_until(s.drop_first(), sep) is Some {
            let q = take_until(s.drop_first(), sep)->0;
            assert(s =~= seq![s[0]] + s.drop_first());
            assert((seq![s[0]] + q.0) + seq![sep] + q.1 =~= seq![s[0]] + (q.0 + seq![sep] + q.1));
        }
    } else if s.len() > 0 {
        assert(s =~= Seq::<u8>::empty() + seq![sep] + s.drop_first());
    }
}

/// The encoded form of one optional field.
pub open spec fn field_enc(f: Option<Seq<u8>>) -> Seq<u8> {
    match f {
        None => seq![BYTE_MINUS],
        Some(v) => seq![BYTE_PLUS] + escape(v),
    }
}

/// Undoes `field_enc`.
pub open spec fn field_dec(f: Seq<u8>) -> Option<Option<Seq<u8>>> {
    if f.len() == 1 && f[0] == BYTE_MINUS {
        Some(None)
    } else if f.len() >= 1 && f[0] == BYTE_PLUS {
        match unescape(f.drop_first()) {
            Some(v) => Some(Some(v)),
            None => None,
        }
    } else {
        None
    }
}

/// `field_enc` emits neither raw tabs nor raw newlines.
pub proof fn lemma_field_enc_no_separator(f: Option<Seq<u8>>)
    ensures
        forall|i: int| 0 <= i < field_enc(f).len() ==> field_enc(f)[i] != BYTE_TAB && field_enc(
            f,
        )[i] != BYTE_NEWLINE,
{
    if f is Some {
        let v = f->0;
        lemma_escape_no_separator(v);
        assert forall|i: int| 0 <= i < field_enc(f).len() implies field_enc(f)[i] != BYTE_TAB
            && field_enc(f)[i] != BYTE_NEWLINE by {
            if i >= 1 {
                assert(field_enc(f)[i] == escape(v)[i - 1]);
            }
        }
    }
}

/// Decoding an encoded field gives the field back.
pub proof fn lemma_field_dec_enc(f: Option<Seq<u8>>)
    ensures
        field_dec(field_enc(f)) == Some(f),
{
    if f is Some {
        let v = f->0;
        lemma_unescape_escape(v);
        assert(field_enc(f)[0] == BYTE_PLUS);
        assert(field_enc(f).drop_first() =~= escape(v));
        if field_enc(f).len() == 1 {
            assert(escape(v) =~= Seq::<u8>::empty());
        }
    }
}

/// The encoded line for one record, without its terminating newline.
pub open spec fn line_enc(r: RecordBytes) -> Seq<u8> {
    escape(r.filename) + seq![BYTE_TAB] + field_enc(r.sha2_hash) + seq![BYTE_TAB] + field_enc(
        r.a_hash,
    ) + seq![BYTE_TAB] + field_enc(r.d_hash) + seq![BYTE_TAB] + field_enc(r.p_hash)
}

/// Parses one line (without its newline) into a record.
pub open spec fn parse_line(line: Seq<u8>) -> Option<RecordBytes> {
    match take_until(line, BYTE_TAB) {
        Some((f0, r1)) => match take_until(r1, BYTE_TAB) {
            Some((f1, r2)) => match take_until(r2, BYTE_TAB) {
                Some((f2, r3)) => match take_until(r3, BYTE_TAB) {
                    Some((f3, f4)) => match (
                        unescape(f0),
                        field_dec(f1),
                        field_dec(f2),
                        field_dec(f3),
                        field_dec(f4),
                    ) {
                        (Some(name), Some(sha), Some(a), Some(d), Some(p)) => Some(
                            RecordBytes {
                                filename: name,
                                sha2_hash: sha,
                                a_hash: a,
                                d_hash: d,
                                p_hash: p,
                            },
                        ),
                        _ => None,
                    },
                    None => None,
                },
                None => None,
            },
            None => None,
        },
        None => None,
    }
}

/// Parsing an encoded line gives the record back.
pub proof fn lemma_parse_line_enc(r: RecordBytes)
    ensures
        parse_line(line_enc(r)) == Some(r),
{
    let a = escape(r.filename);
    let b = field_enc(r.sha2_hash);
    let c = field_enc(r.a_hash);
    let d = field_enc(r.d_hash);
    let e = field_enc(r.p_hash);
    lemma_escape_no_separator(r.filename);
    lemma_field_enc_no_separator(r.sha2_hash);
    lemma_field_enc_no_separator(r.a_hash);
    lemma_field_enc_no_separator(r.d_hash);
    lemma_field_enc_no_separator(r.p_hash);
    let t1 = b + seq![BYTE_TAB] + c + seq![BYTE_TAB] + d + seq![BYTE_TAB] + e;
    assert(line_enc(r) =~= a + seq![BYTE_TAB] + t1);
    lemma_take_until_prefix(a, BYTE_TAB, t1);
    let t2 = c + seq![BYTE_TAB] + d + seq![BYTE_TAB] + e;
    assert(t1 =~= b + seq![BYTE_TAB] + t2);
    lemma_take_until_prefix(b, BYTE_TAB, t2);
    let t3 = d + seq![BYTE_TAB] + e;
    assert(t2 =~= c + seq![BYTE_TAB] + t3);
    lemma_take_until_prefix(c, BYTE_TAB, t3);
    lemma_take_until_prefix(d, BYTE_TAB, e);
    lemma_unescape_escape(r.filename);
    lemma_field_dec_enc(r.sha2_hash);
    lemma_field_dec_enc(r.a_hash);
    lemma_field_dec_enc(r.d_hash);
    lemma_field_dec_enc(r.p_hash);
}

/// The encoded form of a whole snapshot: one line per record, each ended by
/// a newline.
pub open spec fn cache_enc(rs: Seq<RecordBytes>) -> Seq<u8>
    decreases rs.len(),
{
    if rs.len() == 0 {
        Seq::empty()
    } else {
        line_enc(rs[0]) + seq![BYTE_NEWLINE] + cache_enc(rs.drop_first())
    }
}

/// Parses a whole snapshot. `None` where some line is malformed or the last
/// line is unterminated.
pub open spec fn parse_cache(s: Seq<u8>) -> Option<Seq<RecordBytes>>
    decreases s.len(),
    via parse_cache_decreases
{
    if s.len() == 0 {
        Some(Seq::empty())
    } else {
        match take_until(s, BYTE_NEWLINE) {
            Some((line, rest)) => match (parse_line(line), parse_cache(rest)) {
                (Some(r), Some(rs)) => Some(seq![r] + rs),
                _ => None,
            },
            None => None,
        }
    }
}

#[via_fn]
proof fn parse_cache_decreases(s: Seq<u8>) {
    lemma_take_until_parts(s, BYTE_NEWLINE);
}

/// Parsing an encoded snapshot gives the records back.
pub proof fn lemma_parse_cache_enc(rs: Seq<RecordBytes>)
    ensures
        parse_cache(cache_enc(rs)) == Some(rs),
    decreases rs.len(),
{
    if rs.len() == 0 {
        assert(cache_enc(rs).len() == 0);
        assert(rs =~= Seq::<RecordBytes>::empty());
    } else {
        lemma_parse_cache_enc(rs.drop_first());
        let line = line_enc(rs[0]);
        let tail = cache_enc(rs.drop_first());
        assert forall|i: int| 0 <= i < line.len() implies line[i] != BYTE_NEWLINE by {
            lemma_escape_no_separator(rs[0].filename);
            lemma_field_enc_no_separator(rs[0].sha2_hash);
            lemma_field_enc_no_separator(rs[0].a_hash);
            lemma_field_enc_no_separator(rs[0].d_hash);
            lemma_field_enc_no_separator(rs[0].p_hash);
        }
        lemma_take_until_prefix(line, BYTE_NEWLINE, tail);
        assert(cache_enc(rs) =~= line + seq![BYTE_NEWLINE] + tail);
        lemma_parse_line_enc(rs[0]);
        assert(cache_enc(rs).len() > 0) by {
            assert(cache_enc(rs)[line.len() as int] == BYTE_NEWLINE);
        }
        assert(seq![rs[0]] + rs.drop_first() =~= rs);
    }
}

/// A cache record at the level of character strings.
pub ghost struct RecView {
    pub filename: Seq<char>,
    pub sha2_hash: Option<Seq<char>>,
    pub a_hash: Option<Seq<char>>,
    pub d_hash: Option<Seq<char>>,
    pub p_hash: Option<Seq<char>>,
}

/// The character-level view of a record.
pub open spec fn file_info_view(fi: FileInfo) -> RecView {
    RecView {
        filename: fi.filename@,
        sha2_hash: opt_view(fi.sha2_hash),
        a_hash: opt_view(fi.a_hash),
        d_hash: opt_view(fi.d_hash),
        p_hash: opt_view(fi.p_hash),
    }
}

/// The view of an optional string.
pub open spec fn opt_view(o: Option<String>) -> Option<Seq<char>> {
    match o {
        None => None,
        Some(s) => Some(s@),
    }
}

/// UTF-8 encoding of an optional string.
pub open spec fn opt_bytes(o: Option<Seq<char>>) -> Option<Seq<u8>> {
    match o {
        None => None,
        Some(s) => Some(encode_utf8(s)),
    }
}

/// The raw field bytes of a record: each field UTF-8 encoded.
pub open spec fn rec_bytes(r: RecView) -> RecordBytes {
    RecordBytes {
        filename: encode_utf8(r.filename),
        sha2_hash: opt_bytes(r.sha2_hash),
        a_hash: opt_bytes(r.a_hash),
        d_hash: opt_bytes(r.d_hash),
        p_hash: opt_bytes(r.p_hash),
    }
}

/// An optional field holds valid UTF-8.
pub open spec fn opt_valid(o: Option<Seq<u8>>) -> bool {
    match o {
        None => true,
        Some(b) => valid_utf8(b),
    }
}

/// Every field of the raw record holds valid UTF-8.
pub open spec fn rec_valid(r: RecordBytes) -> bool {
    &&& valid_utf8(r.filename)
    &&& opt_valid(r.sha2_hash)
    &&& opt_valid(r.a_hash)
    &&& opt_valid(r.d_hash)
    &&& opt_valid(r.p_hash)
}

/// UTF-8 decoding of an optional field.
pub open spec fn opt_chars(o: Option<Seq<u8>>) -> Option<Seq<char>> {
    match o {
        None => None,
        Some(b) => Some(decode_utf8(b)),
    }
}

/// The character-level record a raw record decodes to.
pub open spec fn rec_view_of(r: RecordBytes) -> RecView {
    RecView {
        filename: decode_utf8(r.filename),
        sha2_hash: opt_chars(r.sha2_hash),
        a_hash: opt_chars(r.a_hash),
        d_hash: opt_chars(r.d_hash),
        p_hash: opt_chars(r.p_hash),
    }
}

/// What `save` writes for a sequence of records.
pub open spec fn save_spec(rs: Seq<RecView>) -> Seq<u8> {
    cache_enc(rs.map_values(|r: RecView| rec_bytes(r)))
}

/// What `load` reads from a snapshot: `None` where the snapshot is
/// malformed or some field is not valid UTF-8.
pub open spec fn load_spec(s: Seq<u8>) -> Option<Seq<RecView>> {
    match parse_cache(s) {
        Some(rbs) => if forall|i: int| 0 <= i < rbs.len() ==> rec_valid(#[trigger] rbs[i]) {
            Some(rbs.map_values(|rb: RecordBytes| rec_view_of(rb)))
        } else {
            None
        },
        None => None,
    }
}

/// Loading a saved snapshot reproduces the records exactly, for any records
/// at all: every combination of present and absent hash fields round-trips.
pub proof fn lemma_cache_round_trip(rs: Seq<RecView>)
    ensures
        load_spec(save_spec(rs)) == Some(rs),
{
    broadcast use encode_utf8_valid_utf8, encode_utf8_decode_utf8;

    let rbs = rs.map_values(|r: RecView| rec_bytes(r));
    lemma_parse_cache_enc(rbs);
    assert forall|i: int| 0 <= i < rbs.len() implies rec_valid(#[trigger] rbs[i]) by {
        assert(rbs[i] == rec_bytes(rs[i]));
    }
    assert(rbs.map_values(|rb: RecordBytes| rec_view_of(rb)) =~= rs) by {
        assert forall|i: int| 0 <= i < rbs.len() implies rec_view_of(rbs[i]) == rs[i] by {
            assert(rbs[i] == rec_bytes(rs[i]));
        }
    }
}

/// Relies on `String::from_utf8`: it succeeds exactly on valid UTF-8 and
/// returns the string those bytes encode.
#[verifier::external_body]
pub(crate) fn string_from_utf8(v: Vec<u8>) -> (r: Option<String>)
    ensures
        r is Some <==> valid_utf8(v@),
        r matches Some(s) ==> encode_utf8(s@) == v@,
{
    String::from_utf8(v).ok()
}

/// `escape` of one more byte.
proof fn lemma_escape_snoc(s: Seq<u8>, i: int)
    requires
        0 <= i < s.len(),
    ensures
        escape(s.take(i + 1)) == escape(s.take(i)) + esc_byte(s[i]),
{
    assert(s.take(i + 1) =~= s.take(i) + seq![s[i]]);
    lemma_escape_concat(s.take(i), seq![s[i]]);
    assert(escape(seq![s[i]]) =~= esc_byte(s[i])) by {
        assert(seq![s[i]].drop_first() =~= Seq::<u8>::empty());
        assert(escape(Seq::<u8>::empty()) == Seq::<u8>::empty());
        assert(escape(seq![s[i]]) == esc_byte(s[i]) + escape(Seq::<u8>::empty()));
    }
}

/// Appends the escaped form of `s` to `out`.
fn push_escaped(out: &mut Vec<u8>, s: &Vec<u8>)
    ensures
        final(out)@ == old(out)@ + escape(s@),
{
    let ghost base = out@;
    let n = s.len();
    for i in 0..n
        invariant
            n == s@.len(),
            out@ == base + escape(s@.take(i as int)),
    {
        proof {
            lemma_escape_snoc(s@, i as int);
        }
        let b = s[i];
        if b == BYTE_BACKSLASH {
            out.push(BYTE_BACKSLASH);
            out.push(BYTE_BACKSLASH);
        } else if b == BYTE_TAB {
            out.push(BYTE_BACKSLASH);
            out.push(BYTE_LOWER_T);
        } else if b == BYTE_NEWLINE {
            out.push(BYTE_BACKSLASH);
            out.push(BYTE_LOWER_N);
        } else {
            out.push(b);
        }
    }
    proof {
        assert(s@.take(n as int) =~= s@);
    }
}

/// Appends the encoded form of one optional field to `out`.
fn push_field(out: &mut Vec<u8>, f: &Option<String>)
    ensures
        final(out)@ == old(out)@ + field_enc(opt_bytes(opt_view(*f))),
{
    match f {
        None => {
            out.push(BYTE_MINUS);
            proof {
                assert(old(out)@ + field_enc(opt_bytes(opt_view(*f))) =~= old(out)@.push(
                    BYTE_MINUS,
                ));
            }
        },
        Some(s) => {
            out.push(BYTE_PLUS);
            let bytes = s.as_str().as_bytes_vec();
            push_escaped(out, &bytes);
            proof {
                assert(old(out)@ + field_enc(opt_bytes(opt_view(*f))) =~= old(out)@.push(BYTE_PLUS)
                    + escape(bytes@));
            }
        },
    }
}

/// `cache_enc` distributes over concatenation.
proof fn lemma_cache_enc_concat(a: Seq<RecordBytes>, b: Seq<RecordBytes>)
    ensures
        cache_enc(a + b) == cache_enc(a) + cache_enc(b),
    decreases a.len(),
{
    if a.len() == 0 {
        assert(a + b =~= b);
        assert(cache_enc(a) + cache_enc(b) =~= cache_enc(b));
    } else {
        lemma_cache_enc_concat(a.drop_first(), b);
        assert((a + b).drop_first() =~= a.drop_first() + b);
        assert((a + b)[0] == a[0]);
        assert(line_enc(a[0]) + seq![BYTE_NEWLINE] + (cache_enc(a.drop_first()) + cache_enc(b))
            =~= (line_enc(a[0]) + seq![BYTE_NEWLINE] + cache_enc(a.drop_first())) + cache_enc(b));
    }
}

/// Serializes a path-keyed map of records into snapshot bytes.
#[verifier::rlimit(60)]
pub fn save_cache_bytes(m: &StrMap<FileInfo>) -> (r: Vec<u8>)
    ensures
        r@ == save_spec(m@.map_values(|p: (Seq<char>, FileInfo)| file_info_view(p.1))),
{
    let ghost views = m@.map_values(|p: (Seq<char>, FileInfo)| file_info_view(p.1));
    let ghost rbs = views.map_values(|r: RecView| rec_bytes(r));
    let mut out: Vec<u8> = Vec::new();
    let n = m.len();
    for i in 0..n
        invariant
            n == m@.len(),
            views == m@.map_values(|p: (Seq<char>, FileInfo)| file_info_view(p.1)),
            rbs == views.map_values(|r: RecView| rec_bytes(r)),
            out@ == cache_enc(rbs.take(i as int)),
    {
        let entry = m.entry_at(i);
        let fi = &entry.1;
        let ghost before = out@;
        let name_bytes = fi.filename.as_str().as_bytes_vec();
        push_escaped(&mut out, &name_bytes);
        out.push(BYTE_TAB);
        push_field(&mut out, &fi.sha2_hash);
        out.push(BYTE_TAB);
        push_field(&mut out, &fi.a_hash);
        out.push(BYTE_TAB);
        push_field(&mut out, &fi.d_hash);
        out.push(BYTE_TAB);
        push_field(&mut out, &fi.p_hash);
        out.push(BYTE_NEWLINE);
        proof {
            assert(rbs[i as int] == rec_bytes(file_info_view(m@[i as int].1)));
            assert(out@ =~= before + line_enc(rbs[i as int]) + seq![BYTE_NEWLINE]);
            assert(rbs.take(i + 1) =~= rbs.take(i as int) + seq![rbs[i as int]]);
            lemma_cache_enc_concat(rbs.take(i as int), seq![rbs[i as int]]);
            assert(cache_enc(seq![rbs[i as int]]) =~= line_enc(rbs[i as int]) + seq![
                BYTE_NEWLINE,
            ]) by {
                assert(seq![rbs[i as int]].drop_first() =~= Seq::<RecordBytes>::empty());
                assert(cache_enc(Seq::<RecordBytes>::empty()) == Seq::<u8>::empty());
                assert(cache_enc(seq![rbs[i as int]]) == line_enc(rbs[i as int]) + seq![
                    BYTE_NEWLINE,
                ] + cache_enc(Seq::<RecordBytes>::empty()));
            }
            assert(out@ =~= cache_enc(rbs.take(i + 1)));
        }
    }
    proof {
        assert(rbs.take(n as int) =~= rbs);
    }
    out
}

/// `take_until` finds nothing when `sep` does not occur.
proof fn lemma_take_until_none(s: Seq<u8>, sep: u8)
    requires
        forall|i: int| 0 <= i < s.len() ==> s[i] != sep,
    ensures
        take_until(s, sep) is None,
    decreases s.len(),
{
    if s.len() > 0 {
        lemma_take_until_none(s.drop_first(), sep);
    }
}

/// `take_until` splits at the first index holding `sep`.
proof fn lemma_take_until_first(s: Seq<u8>, sep: u8, j: int)
    requires
        0 <= j < s.len(),
        s[j] == sep,
        forall|i: int| 0 <= i < j ==> s[i] != sep,
    ensures
        take_until(s, sep) == Some((s.take(j), s.skip(j + 1))),
{
    assert(s =~= s.take(j) + seq![sep] + s.skip(j + 1));
    lemma_take_until_prefix(s.take(j), sep, s.skip(j + 1));
}

/// First index in `[start, end)` holding `sep`, if any.
fn find_byte(v: &Vec<u8>, start: usize, end: usize, sep: u8) -> (r: Option<usize>)
    requires
        start <= end <= v@.len(),
    ensures
        match r {
            Some(j) => start <= j < end && v@[j as int] == sep && forall|i: int|
                start <= i < j ==> v@[i] != sep,
            None => forall|i: int| start <= i < end ==> v@[i] != sep,
        },
{
    let mut j = start;
    while j < end
        invariant
            start <= j <= end <= v@.len(),
            forall|i: int| start <= i < j ==> v@[i] != sep,
        decreases end - j,
    {
        if v[j] == sep {
            return Some(j);
        }
        j = j + 1;
    }
    None
}

/// Unescapes the bytes in `[start, end)`.
fn unescape_range(v: &Vec<u8>, start: usize, end: usize) -> (r: Option<Vec<u8>>)
    requires
        start <= end <= v@.len(),
    ensures
        ({
            let s = v@.subrange(start as int, end as int);
            match r {
                Some(u) => unescape(s) == Some(u@),
                None => unescape(s) is None,
            }
        }),
{
    let ghost s = v@.subrange(start as int, end as int);
    let mut acc: Vec<u8> = Vec::new();
    let mut j = start;
    proof {
        assert(s.skip(0) =~= s);
        assert forall|r2: Seq<u8>| unescape(s) == Some(r2) implies unescape(s) == Some(acc@ + r2)
            by {
            assert(acc@ + r2 =~= r2);
        }
    }
    while j < end
        invariant
            start <= j <= end <= v@.len(),
            s == v@.subrange(start as int, end as int),
            forall|r2: Seq<u8>|
                unescape(s.skip(j - start)) == Some(r2) ==> unescape(s) == Some(acc@ + r2),
            unescape(s.skip(j - start)) is None ==> unescape(s) is None,
        decreases end - j,
    {
        let ghost k = j - start;
        let ghost acc0 = acc@;
        let b = v[j];
        assert(s.skip(k)[0] == b);
        if b == BYTE_BACKSLASH {
            if j + 1 >= end {
                proof {
                    assert(s.skip(k).len() == 1);
                }
                return None;
            }
            let c = v[j + 1];
            assert(s.skip(k)[1] == c);
            if c == BYTE_BACKSLASH {
                acc.push(BYTE_BACKSLASH);
            } else if c == BYTE_LOWER_T {
                acc.push(BYTE_TAB);
            } else if c == BYTE_LOWER_N {
                acc.push(BYTE_NEWLINE);
            } else {
                return None;
            }
            j = j + 2;
            proof {
                assert(s.skip(k).skip(2) =~= s.skip(k + 2));
                let d = acc@[acc@.len() - 1];
                assert forall|r2: Seq<u8>| unescape(s.skip(k + 2)) == Some(r2) implies unescape(s)
                    == Some(acc@ + r2) by {
                    assert(unescape(s.skip(k)) == Some(seq![d] + r2));
                    assert(acc0 + (seq![d] + r2) =~= acc@ + r2);
                }
            }
        } else {
            acc.push(b);
            j = j + 1;
            proof {
                assert(s.skip(k).drop_first() =~= s.skip(k + 1));
                assert forall|r2: Seq<u8>| unescape(s.skip(k + 1)) == Some(r2) implies unescape(s)
                    == Some(acc@ + r2) by {
                    assert(unescape(s.skip(k)) == Some(seq![b] + r2));
                    assert(acc0 + (seq![b] + r2) =~= acc@ + r2);
                }
            }
        }
    }
    proof {
        assert(s.skip(j - start) =~= Seq::<u8>::empty());
        assert(unescape(Seq::<u8>::empty()) == Some(Seq::<u8>::empty()));
        assert(acc@ + Seq::<u8>::empty() =~= acc@);
    }
    Some(acc)
}

/// Decodes one optional field from `[start, end)`: `None` where the field is
/// malformed or not valid UTF-8.
fn parse_field_range(v: &Vec<u8>, start: usize, end: usize) -> (r: Option<Option<String>>)
    requires
        start <= end <= v@.len(),
    ensures
        ({
            let f = v@.subrange(start as int, end as int);
            match r {
                Some(o) => field_dec(f) matches Some(fd) && opt_valid(fd) && opt_view(o)
                    == opt_chars(fd),
                None => field_dec(f) is None || !opt_valid(field_dec(f)->0),
            }
        }),
{
    broadcast use encode_utf8_decode_utf8;

    let ghost f = v@.subrange(start as int, end as int);
    if end - start == 1 && v[start] == BYTE_MINUS {
        return Some(None);
    }
    if end > start && v[start] == BYTE_PLUS {
        proof {
            assert(f.drop_first() =~= v@.subrange(start + 1, end as int));
        }
        match unescape_range(v, start + 1, end) {
            Some(u) => match string_from_utf8(u) {
                Some(s) => Some(Some(s)),
                None => None,
            },
            None => None,
        }
    } else {
        None
    }
}

/// Decodes one record line from `[start, end)`: `None` where the line is
/// malformed or some field is not valid UTF-8.
#[verifier::rlimit(60)]
fn parse_line_range(v: &Vec<u8>, start: usize, end: usize) -> (r: Option<FileInfo>)
    requires
        start <= end <= v@.len(),
    ensures
        ({
            let line = v@.subrange(start as int, end as int);
            match r {
                Some(fi) => parse_line(line) matches Some(rb) && rec_valid(rb) && file_info_view(
                    fi,
                ) == rec_view_of(rb),
                None => parse_line(line) is None || !rec_valid(parse_line(line)->0),
            }
        }),
{
    broadcast use encode_utf8_decode_utf8;

    let ghost line = v@.subrange(start as int, end as int);
    let t1 = match find_byte(v, start, end, BYTE_TAB) {
        Some(j) => j,
        None => {
            proof {
                lemma_take_until_none(line, BYTE_TAB);
            }
            return None;
        },
    };
    proof {
        lemma_take_until_first(line, BYTE_TAB, t1 - start);
        assert(line.take(t1 - start) =~= v@.subrange(start as int, t1 as int));
        assert(line.skip(t1 - start + 1) =~= v@.subrange(t1 + 1, end as int));
    }
    let ghost r1 = v@.subrange(t1 + 1, end as int);
    let t2 = match find_byte(v, t1 + 1, end, BYTE_TAB) {
        Some(j) => j,
        None => {
            proof {
                lemma_take_until_none(r1, BYTE_TAB);
            }
            return None;
        },
    };
    proof {
        lemma_take_until_first(r1, BYTE_TAB, t2 - (t1 + 1));
        assert(r1.take(t2 - (t1 + 1)) =~= v@.subrange(t1 + 1, t2 as int));
        assert(r1.skip(t2 - (t1 + 1) + 1) =~= v@.subrange(t2 + 1, end as int));
    }
    let ghost r2 = v@.subrange(t2 + 1, end as int);
    let t3 = match find_byte(v, t2 + 1, end, BYTE_TAB) {
        Some(j) => j,
        None => {
            proof {
                lemma_take_until_none(r2, BYTE_TAB);
            }
            return None;
        },
    };
    proof {
        lemma_take_until_first(r2, BYTE_TAB, t3 - (t2 + 1));
        assert(r2.take(t3 - (t2 + 1)) =~= v@.subrange(t2 + 1, t3 as int));
        assert(r2.skip(t3 - (t2 + 1) + 1) =~= v@.subrange(t3 + 1, end as int));
    }
    let ghost r3 = v@.subrange(t3 + 1, end as int);
    let t4 = match find_byte(v, t3 + 1, end, BYTE_TAB) {
        Some(j) => j,
        None => {
            proof {
                lemma_take_until_none(r3, BYTE_TAB);
            }
            return None;
        },
    };
    proof {
        lemma_take_until_first(r3, BYTE_TAB, t4 - (t3 + 1));
        assert(r3.take(t4 - (t3 + 1)) =~= v@.subrange(t3 + 1, t4 as int));
        assert(r3.skip(t4 - (t3 + 1) + 1) =~= v@.subrange(t4 + 1, end as int));
    }
    let name = match unescape_range(v, start, t1) {
        Some(u) => match string_from_utf8(u) {
            Some(s) => s,
            None => {
                return None;
            },
        },
        None => {
            return None;
        },
    };
    let sha = match parse_field_range(v, t1 + 1, t2) {
        Some(o) => o,
        None => {
            return None;
        },
    };
    let a = match parse_field_range(v, t2 + 1, t3) {
        Some(o) => o,
        None => {
            return None;
        },
    };
    let d = match parse_field_range(v, t3 + 1, t4) {
        Some(o) => o,
        None => {
            return None;
        },
    };
    let p = match parse_field_range(v, t4 + 1, end) {
        Some(o) => o,
        None => {
            return None;
        },
    };
    Some(FileInfo { filename: name, a_hash: a, d_hash: d, p_hash: p, sha2_hash: sha })
}

/// `load_spec` of a snapshot whose first line parses: the record is prepended
/// when everything else holds, and any failure below poisons the whole.
proof fn lemma_load_spec_step(s: Seq<u8>, line: Seq<u8>, rest: Seq<u8>, rb: RecordBytes)
    requires
        s.len() > 0,
        take_until(s, BYTE_NEWLINE) == Some((line, rest)),
        parse_line(line) == Some(rb),
    ensures
        load_spec(s) == match load_spec(rest) {
            Some(t) => if rec_valid(rb) {
                Some(seq![rec_view_of(rb)] + t)
            } else {
                Option::<Seq<RecView>>::None
            },
            None => None,
        },
{
    match parse_cache(rest) {
        Some(rs) => {
            assert(parse_cache(s) == Some(seq![rb] + rs));
            let all = seq![rb] + rs;
            assert(all[0] == rb);
            assert(forall|i: int| 0 <= i < rs.len() ==> all[i + 1] == rs[i]);
            if rec_valid(rb) && (forall|i: int| 0 <= i < rs.len() ==> rec_valid(#[trigger] rs[i])) {
                assert(forall|i: int| 0 <= i < all.len() ==> rec_valid(#[trigger] all[i]));
                assert(all.map_values(|x: RecordBytes| rec_view_of(x)) =~= seq![rec_view_of(rb)]
                    + rs.map_values(|x: RecordBytes| rec_view_of(x)));
            } else {
                if !rec_valid(rb) {
                    assert(!rec_valid(all[0]));
                } else {
                    let i = choose|i: int| 0 <= i < rs.len() && !rec_valid(#[trigger] rs[i]);
                    assert(!rec_valid(all[i + 1]));
                }
            }
        },
        None => {
            assert(parse_cache(s) is None);
        },
    }
}

/// A snapshot whose first line is malformed loads as nothing.
proof fn lemma_load_spec_bad_line(s: Seq<u8>, line: Seq<u8>, rest: Seq<u8>)
    requires
        s.len() > 0,
        take_until(s, BYTE_NEWLINE) == Some((line, rest)),
        parse_line(line) is None || !rec_valid(parse_line(line)->0),
    ensures
        load_spec(s) is None,
{
    if parse_line(line) is Some {
        let rb = parse_line(line)->0;
        match parse_cache(rest) {
            Some(rs) => {
                assert(parse_cache(s) == Some(seq![rb] + rs));
                assert(!rec_valid((seq![rb] + rs)[0]));
            },
            None => {},
        }
    }
}

/// Parses snapshot bytes into the records they hold, in file order.
///
/// Returns `Err(ItoolsError::CacheFormat(n))`, with `n` the number of
/// well-formed records before the malformed one, exactly when the snapshot
/// does not parse.
pub fn parse_cache_bytes(bytes: &Vec<u8>) -> (r: ItoolsResult<Vec<FileInfo>>)
    ensures
        r is Ok <==> load_spec(bytes@) is Some,
        r matches Ok(v) ==> load_spec(bytes@) == Some(
            v@.map_values(|fi: FileInfo| file_info_view(fi)),
        ),
        r matches Err(e) ==> e matches ItoolsError::CacheFormat(_),
{
    let ghost s = bytes@;
    let mut out: Vec<FileInfo> = Vec::new();
    let mut pos: usize = 0;
    let len = bytes.len();
    proof {
        assert(s.skip(0) =~= s);
        if load_spec(s) is Some {
            let t = load_spec(s)->0;
            assert(out@.map_values(|fi: FileInfo| file_info_view(fi)) + t =~= t);
        }
    }
    while pos < len
        invariant
            pos <= len == s.len(),
            s == bytes@,
            load_spec(s.skip(pos as int)) matches Some(t) ==> load_spec(s) == Some(
                out@.map_values(|fi: FileInfo| file_info_view(fi)) + t,
            ),
            load_spec(s.skip(pos as int)) is None ==> load_spec(s) is None,
        decreases len - pos,
    {
        let ghost suffix = s.skip(pos as int);
        let ghost out0 = out@;
        let nl = match find_byte(bytes, pos, len, BYTE_NEWLINE) {
            Some(j) => j,
            None => {
                proof {
                    assert forall|i: int| 0 <= i < suffix.len() implies suffix[i] != BYTE_NEWLINE
                        by {
                        assert(suffix[i] == s[pos + i]);
                    }
                    lemma_take_until_none(suffix, BYTE_NEWLINE);
                }
                return Err(ItoolsError::CacheFormat(out.len()));
            },
        };
        proof {
            assert forall|i: int| 0 <= i < nl - pos implies suffix[i] != BYTE_NEWLINE by {
                assert(suffix[i] == s[pos + i]);
            }
            assert(suffix[nl - pos] == BYTE_NEWLINE);
            lemma_take_until_first(suffix, BYTE_NEWLINE, nl - pos);
            assert(suffix.take(nl - pos) =~= s.subrange(pos as int, nl as int));
            assert(suffix.skip(nl - pos + 1) =~= s.skip(nl + 1));
        }
        match parse_line_range(bytes, pos, nl) {
            Some(fi) => {
                proof {
                    lemma_load_spec_step(
                        suffix,
                        s.subrange(pos as int, nl as int),
                        s.skip(nl + 1),
                        parse_line(s.subrange(pos as int, nl as int))->0,
                    );
                }
                out.push(fi);
                proof {
                    let rb = parse_line(s.subrange(pos as int, nl as int))->0;
                    if load_spec(s.skip(nl + 1)) is Some {
                        let t = load_spec(s.skip(nl + 1))->0;
                        assert(load_spec(suffix) == Some(seq![rec_view_of(rb)] + t));
                        assert(out0.map_values(|x: FileInfo| file_info_view(x)) + (seq![
                            rec_view_of(rb),
                        ] + t) =~= out@.map_values(|x: FileInfo| file_info_view(x)) + t);
                    }
                }
                pos = nl + 1;
            },
            None => {
                proof {
                    lemma_load_spec_bad_line(
                        suffix,
                        s.subrange(pos as int, nl as int),
                        s.skip(nl + 1),
                    );
                }
                return Err(ItoolsError::CacheFormat(out.len()));
            },
        }
    }
    proof {
        assert(s.skip(pos as int) =~= Seq::<u8>::empty());
        assert(parse_cache(Seq::<u8>::empty()) == Some(Seq::<RecordBytes>::empty()));
        assert(load_spec(Seq::<u8>::empty()) == Some(
            Seq::<RecordBytes>::empty().map_values(|rb: RecordBytes| rec_view_of(rb)),
        ));
        assert(out@.map_values(|fi: FileInfo| file_info_view(fi)) + Seq::<RecordBytes>::empty()
            .map_values(|rb: RecordBytes| rec_view_of(rb)) =~= out@.map_values(
            |fi: FileInfo| file_info_view(fi),
        ));
    }
    Ok(out)
}

} // verus!
