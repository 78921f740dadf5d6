use vstd::prelude::*;

verus! {

use crate::codec::string_from_utf8;
use vstd::utf8::{
    valid_utf8,
    encode_utf8,
    is_leading_byte_width_1,
    partial_valid_utf8,
    partial_valid_utf8_extend_ascii_block,
};

// Perceptual fingerprints travel as base64 text (standard alphabet, padded),
// the encoding their hashing library writes. Near-duplicate search needs the
// bits back: this module gives the library its own verified base64 codec and
// the Hamming distance over the decoded bytes.

pub const BYTE_EQUALS: u8 = 61;

/// Fingerprints are fixed-width values; longer inputs are not hash values
/// and have no distance.
pub const MAX_HASH_BYTES: usize = 64;

/// The 6-bit value of one base64 digit byte.
pub open spec fn b64_val(b: u8) -> Option<u8> {
    if 65 <= b && b <= 90 {
        Some((b - 65) as u8)
    } else if 97 <= b && b <= 122 {
        Some((b - 97 + 26) as u8)
    } else if 48 <= b && b <= 57 {
        Some((b - 48 + 52) as u8)
    } else if b == 43 {
        Some(62u8)
    } else if b == 47 {
        Some(63u8)
    } else {
        None
    }
}

/// The digit byte of a 6-bit value.
pub open spec fn b64_byte(v: u8) -> u8 {
    if v < 26 {
        (65 + v) as u8
    } else if v < 52 {
        (97 + (v - 26)) as u8
    } else if v < 62 {
        (48 + (v - 52)) as u8
    } else if v == 62 {
        43u8
    } else {
        47u8
    }
}

/// The four digits encoding three bytes.
pub open spec fn enc_group(b0: u8, b1: u8, b2: u8) -> Seq<u8> {
    seq![
        b64_byte(b0 >> 2),
        b64_byte(((b0 & 3) << 4) | (b1 >> 4)),
        b64_byte(((b1 & 15) << 2) | (b2 >> 6)),
        b64_byte(b2 & 63),
    ]
}

/// Standard base64 with padding, as ASCII bytes.
pub open spec fn b64_encode(s: Seq<u8>) -> Seq<u8>
    decreases s.len(),
{
    if s.len() == 0 {
        Seq::empty()
    } else if s.len() == 1 {
        seq![b64_byte(s[0] >> 2), b64_byte((s[0] & 3) << 4), BYTE_EQUALS, BYTE_EQUALS]
    } else if s.len() == 2 {
        seq![
            b64_byte(s[0] >> 2),
            b64_byte(((s[0] & 3) << 4) | (s[1] >> 4)),
            b64_byte((s[1] & 15) << 2),
            BYTE_EQUALS,
        ]
    } else {
        enc_group(s[0], s[1], s[2]) + b64_encode(s.skip(3))
    }
}

/// The three bytes of one unpadded digit group.
pub open spec fn dec_group(g: Seq<u8>) -> Option<Seq<u8>> {
    match (b64_val(g[0]), b64_val(g[1]), b64_val(g[2]), b64_val(g[3])) {
        (Some(v0), Some(v1), Some(v2), Some(v3)) => Some(
            seq![
                (v0 << 2) | (v1 >> 4),
                ((v1 & 15) << 4) | (v2 >> 2),
                ((v2 & 3) << 6) | v3,
            ],
        ),
        _ => None,
    }
}

/// The bytes of the final digit group, which may carry padding.
pub open spec fn dec_last_group(g: Seq<u8>) -> Option<Seq<u8>> {
    if g[2] == BYTE_EQUALS && g[3] == BYTE_EQUALS {
        match (b64_val(g[0]), b64_val(g[1])) {
            (Some(v0), Some(v1)) => Some(seq![(v0 << 2) | (v1 >> 4)]),
            _ => None,
        }
    } else if g[3] == BYTE_EQUALS {
        match (b64_val(g[0]), b64_val(g[1]), b64_val(g[2])) {
            (Some(v0), Some(v1), Some(v2)) => Some(
                seq![(v0 << 2) | (v1 >> 4), ((v1 & 15) << 4) | (v2 >> 2)],
            ),
            _ => None,
        }
    } else {
        dec_group(g)
    }
}

/// Undoes `b64_encode`; `None` where the input is not padded base64.
pub open spec fn b64_decode(s: Seq<u8>) -> Option<Seq<u8>>
    decreases s.len(),
{
    if s.len() == 0 {
        Some(Seq::empty())
    } else if s.len() < 4 {
        None
    } else if s.len() == 4 {
        dec_last_group(s)
    } else {
        match (dec_group(s.take(4)), b64_decode(s.skip(4))) {
            (Some(g), Some(r)) => Some(g + r),
            _ => None,
        }
    }
}

/// Reading a digit back gives the value it encodes.
proof fn lemma_b64_val_byte(v: u8)
    requires
        v < 64,
    ensures
        b64_val(b64_byte(v)) == Some(v),
{
}

/// Digits are never the padding byte.
proof fn lemma_b64_byte_not_padding(v: u8)
    ensures
        b64_byte(v) != BYTE_EQUALS,
{
}

/// Decoding an encoded group gives the three bytes back.
proof fn lemma_dec_group_enc(b0: u8, b1: u8, b2: u8)
    ensures
        dec_group(enc_group(b0, b1, b2)) == Some(seq![b0, b1, b2]),
{
    let v0 = b0 >> 2;
    let v1 = ((b0 & 3) << 4) | (b1 >> 4);
    let v2 = ((b1 & 15) << 2) | (b2 >> 6);
    let v3 = b2 & 63;
    assert(b0 >> 2 < 64 && (((b0 & 3) << 4) | (b1 >> 4)) < 64 && (((b1 & 15) << 2) | (b2 >> 6))
        < 64 && b2 & 63 < 64) by (bit_vector);
    lemma_b64_val_byte(v0);
    lemma_b64_val_byte(v1);
    lemma_b64_val_byte(v2);
    lemma_b64_val_byte(v3);
    assert(((b0 >> 2) << 2) | ((((b0 & 3) << 4) | (b1 >> 4)) >> 4) == b0) by (bit_vector);
    assert((((((b0 & 3) << 4) | (b1 >> 4)) & 15) << 4) | ((((b1 & 15) << 2) | (b2 >> 6)) >> 2)
        == b1) by (bit_vector);
    assert((((((b1 & 15) << 2) | (b2 >> 6)) & 3) << 6) | (b2 & 63) == b2) by (bit_vector);
    assert(dec_group(enc_group(b0, b1, b2)) == Some(seq![b0, b1, b2]));
}

/// Decoding an encoded byte string gives the bytes back: the base64 codec
/// round-trips, whatever the input length leaves as padding.
pub proof fn lemma_b64_decode_encode(s: Seq<u8>)
    ensures
        b64_decode(b64_encode(s)) == Some(s),
    decreases s.len(),
{
    let e = b64_encode(s);
    if s.len() == 0 {
        assert(s =~= Seq::<u8>::empty());
    } else if s.len() == 1 {
        let b0 = s[0];
        let v0 = b0 >> 2;
        let v1 = (b0 & 3) << 4;
        assert(b0 >> 2 < 64 && (b0 & 3) << 4 < 64) by (bit_vector);
        lemma_b64_val_byte(v0);
        lemma_b64_val_byte(v1);
        assert(((b0 >> 2) << 2) | (((b0 & 3) << 4) >> 4) == b0) by (bit_vector);
        assert(e.len() == 4 && e[2] == BYTE_EQUALS && e[3] == BYTE_EQUALS);
        assert(seq![(v0 << 2) | (v1 >> 4)] =~= s);
    } else if s.len() == 2 {
        let b0 = s[0];
        let b1 = s[1];
        let v0 = b0 >> 2;
        let v1 = ((b0 & 3) << 4) | (b1 >> 4);
        let v2 = (b1 & 15) << 2;
        assert(b0 >> 2 < 64 && (((b0 & 3) << 4) | (b1 >> 4)) < 64 && (b1 & 15) << 2 < 64)
            by (bit_vector);
        lemma_b64_val_byte(v0);
        lemma_b64_val_byte(v1);
        lemma_b64_val_byte(v2);
        lemma_b64_byte_not_padding(v2);
        assert(((b0 >> 2) << 2) | ((((b0 & 3) << 4) | (b1 >> 4)) >> 4) == b0) by (bit_vector);
        assert((((((b0 & 3) << 4) | (b1 >> 4)) & 15) << 4) | (((b1 & 15) << 2) >> 2) == b1)
            by (bit_vector);
        assert(e.len() == 4 && e[3] == BYTE_EQUALS && e[2] != BYTE_EQUALS);
        assert(seq![(v0 << 2) | (v1 >> 4), ((v1 & 15) << 4) | (v2 >> 2)] =~= s);
    } else {
        lemma_b64_decode_encode(s.skip(3));
        let g = enc_group(s[0], s[1], s[2]);
        let rest = b64_encode(s.skip(3));
        assert(e == g + rest);
        lemma_dec_group_enc(s[0], s[1], s[2]);
        if s.len() == 3 {
            assert(rest =~= Seq::<u8>::empty());
            assert(e =~= g);
            assert(e.len() == 4);
            lemma_b64_byte_not_padding(((s[1] & 15) << 2) | (s[2] >> 6));
            lemma_b64_byte_not_padding(s[2] & 63);
            assert(e[2] != BYTE_EQUALS && e[3] != BYTE_EQUALS);
            assert(b64_decode(e) == dec_group(e));
            assert(seq![s[0], s[1], s[2]] =~= s);
        } else {
            assert(rest.len() > 0);
            assert(rest.len() >= 4) by {
                if s.skip(3).len() == 1 || s.skip(3).len() == 2 {
                } else {
                    assert(b64_encode(s.skip(3)) == enc_group(s[3], s[4], s[5]) + b64_encode(
                        s.skip(3).skip(3),
                    ));
                }
            }
            assert(e.len() > 4);
            assert(e.take(4) =~= g);
            assert(e.skip(4) =~= rest);
            assert(seq![s[0], s[1], s[2]] + s.skip(3) =~= s);
        }
    }
}

/// Base64 digits are ASCII.
proof fn lemma_b64_byte_ascii(v: u8)
    ensures
        is_leading_byte_width_1(b64_byte(v)),
        is_leading_byte_width_1(BYTE_EQUALS),
{
    assert(b64_byte(v) < 128);
    assert forall|b: u8| b < 128 implies is_leading_byte_width_1(b) by {
        assert(b < 128 ==> b >> 7 == 0) by (bit_vector);
    }
}

/// The base64 digit of one value.
fn b64_byte_exec(v: u8) -> (r: u8)
    requires
        v < 64,
    ensures
        r == b64_byte(v),
{
    if v < 26 {
        65 + v
    } else if v < 52 {
        97 + (v - 26)
    } else if v < 62 {
        48 + (v - 52)
    } else if v == 62 {
        43
    } else {
        47
    }
}

/// The value of one base64 digit byte.
fn b64_val_exec(b: u8) -> (r: Option<u8>)
    ensures
        r == b64_val(b),
        r matches Some(v) ==> v < 64,
{
    if 65 <= b && b <= 90 {
        Some(b - 65)
    } else if 97 <= b && b <= 122 {
        Some(b - 97 + 26)
    } else if 48 <= b && b <= 57 {
        Some(b - 48 + 52)
    } else if b == 43 {
        Some(62)
    } else if b == 47 {
        Some(63)
    } else {
        None
    }
}

/// Encodes bytes as padded base64 text.
#[verifier::rlimit(60)]
pub fn encode_base64(bytes: &Vec<u8>) -> (r: String)
    ensures
        encode_utf8(r@) == b64_encode(bytes@),
{
    let ghost s = bytes@;
    let mut acc: Vec<u8> = Vec::new();
    let mut i: usize = 0;
    let len = bytes.len();
    proof {
        assert(s.skip(0) =~= s);
        assert(acc@ + b64_encode(s.skip(0)) =~= b64_encode(s));
    }
    while len - i >= 3
        invariant
            i <= len == s.len(),
            s == bytes@,
            b64_encode(s) == acc@ + b64_encode(s.skip(i as int)),
            forall|j: int| 0 <= j < acc@.len() ==> is_leading_byte_width_1(#[trigger] acc@[j]),
        decreases len - i,
    {
        let ghost acc0 = acc@;
        let b0 = bytes[i];
        let b1 = bytes[i + 1];
        let b2 = bytes[i + 2];
        proof {
            assert(b0 >> 2 < 64 && ((b0 & 3) << 4) | (b1 >> 4) < 64 && ((b1 & 15) << 2) | (b2
                >> 6) < 64 && b2 & 63 < 64) by (bit_vector);
        }
        acc.push(b64_byte_exec(b0 >> 2));
        acc.push(b64_byte_exec(((b0 & 3) << 4) | (b1 >> 4)));
        acc.push(b64_byte_exec(((b1 & 15) << 2) | (b2 >> 6)));
        acc.push(b64_byte_exec(b2 & 63));
        proof {
            let rest = s.skip(i as int);
            assert(rest[0] == b0 && rest[1] == b1 && rest[2] == b2);
            assert(rest.skip(3) =~= s.skip(i + 3));
            assert(acc@ =~= acc0 + enc_group(b0, b1, b2));
            assert(b64_encode(rest) == enc_group(b0, b1, b2) + b64_encode(s.skip(i + 3)));
            assert(acc0 + (enc_group(b0, b1, b2) + b64_encode(s.skip(i + 3))) =~= acc@
                + b64_encode(s.skip(i + 3)));
            assert forall|j: int| 0 <= j < acc@.len() implies is_leading_byte_width_1(
                #[trigger] acc@[j],
            ) by {
                if j >= acc0.len() {
                    assert(is_leading_byte_width_1(b64_byte(b0 >> 2))) by {
                        lemma_b64_byte_ascii(b0 >> 2);
                    }
                    assert(is_leading_byte_width_1(b64_byte(((b0 & 3) << 4) | (b1 >> 4)))) by {
                        lemma_b64_byte_ascii(((b0 & 3) << 4) | (b1 >> 4));
                    }
                    assert(is_leading_byte_width_1(b64_byte(((b1 & 15) << 2) | (b2 >> 6)))) by {
                        lemma_b64_byte_ascii(((b1 & 15) << 2) | (b2 >> 6));
                    }
                    assert(is_leading_byte_width_1(b64_byte(b2 & 63))) by {
                        lemma_b64_byte_ascii(b2 & 63);
                    }
                }
            }
        }
        i = i + 3;
    }
    let ghost acc1 = acc@;
    if len - i == 1 {
        let b0 = bytes[i];
        proof {
            assert(b0 >> 2 < 64 && (b0 & 3) << 4 < 64) by (bit_vector);
        }
        acc.push(b64_byte_exec(b0 >> 2));
        acc.push(b64_byte_exec((b0 & 3) << 4));
        acc.push(BYTE_EQUALS);
        acc.push(BYTE_EQUALS);
        proof {
            let rest = s.skip(i as int);
            assert(rest.len() == 1 && rest[0] == b0);
            assert(acc@ =~= acc1 + seq![
                b64_byte(b0 >> 2),
                b64_byte((b0 & 3) << 4),
                BYTE_EQUALS,
                BYTE_EQUALS,
            ]);
            assert(b64_encode(s) =~= acc@);
            lemma_b64_byte_ascii(b0 >> 2);
            lemma_b64_byte_ascii((b0 & 3) << 4);
        }
    } else if len - i == 2 {
        let b0 = bytes[i];
        let b1 = bytes[i + 1];
        proof {
            assert(b0 >> 2 < 64 && ((b0 & 3) << 4) | (b1 >> 4) < 64 && (b1 & 15) << 2 < 64)
                by (bit_vector);
        }
        acc.push(b64_byte_exec(b0 >> 2));
        acc.push(b64_byte_exec(((b0 & 3) << 4) | (b1 >> 4)));
        acc.push(b64_byte_exec((b1 & 15) << 2));
        acc.push(BYTE_EQUALS);
        proof {
            let rest = s.skip(i as int);
            assert(rest.len() == 2 && rest[0] == b0 && rest[1] == b1);
            assert(acc@ =~= acc1 + seq![
                b64_byte(b0 >> 2),
                b64_byte(((b0 & 3) << 4) | (b1 >> 4)),
                b64_byte((b1 & 15) << 2),
                BYTE_EQUALS,
            ]);
            assert(b64_encode(s) =~= acc@);
            lemma_b64_byte_ascii(b0 >> 2);
            lemma_b64_byte_ascii(((b0 & 3) << 4) | (b1 >> 4));
            lemma_b64_byte_ascii((b1 & 15) << 2);
        }
    } else {
        proof {
            assert(s.skip(i as int) =~= Seq::<u8>::empty());
            assert(b64_encode(Seq::<u8>::empty()) == Seq::<u8>::empty());
            assert(acc@ + Seq::<u8>::empty() =~= acc@);
        }
    }
    proof {
        assert forall|j: int| 0 <= j < acc@.len() implies is_leading_byte_width_1(
            #[trigger] acc@[j],
        ) by {
            lemma_b64_byte_ascii(0);
        }
        assert(acc@.subrange(0, 0) =~= Seq::<u8>::empty());
        assert(partial_valid_utf8(acc@, 0));
        partial_valid_utf8_extend_ascii_block(acc@, 0, acc@.len() as int);
        assert(acc@.subrange(0, acc@.len() as int) =~= acc@);
    }
    match string_from_utf8(acc) {
        Some(out) => out,
        None => vstd::pervasive::unreached(),
    }
}

/// Decodes padded base64 text bytes.
#[verifier::rlimit(60)]
pub fn decode_base64_bytes(v: &Vec<u8>) -> (r: Option<Vec<u8>>)
    ensures
        match r {
            Some(u) => b64_decode(v@) == Some(u@),
            None => b64_decode(v@) is None,
        },
{
    let ghost s = v@;
    let len = v.len();
    if len == 0 {
        proof {
            assert(Seq::<u8>::empty() =~= s);
        }
        return Some(Vec::new());
    }
    if len < 4 {
        return None;
    }
    let mut acc: Vec<u8> = Vec::new();
    let mut i: usize = 0;
    proof {
        assert(s.skip(0) =~= s);
        if b64_decode(s) is Some {
            assert(acc@ + b64_decode(s)->0 =~= b64_decode(s)->0);
        }
    }
    while len - i > 4
        invariant
            i < len == s.len(),
            s == v@,
            len >= 4,
            b64_decode(s.skip(i as int)) matches Some(r2) ==> b64_decode(s) == Some(acc@ + r2),
            b64_decode(s.skip(i as int)) is None ==> b64_decode(s) is None,
        decreases len - i,
    {
        let ghost acc0 = acc@;
        let ghost rest = s.skip(i as int);
        let (v0, v1, v2, v3) = match (
            b64_val_exec(v[i]),
            b64_val_exec(v[i + 1]),
            b64_val_exec(v[i + 2]),
            b64_val_exec(v[i + 3]),
        ) {
            (Some(v0), Some(v1), Some(v2), Some(v3)) => (v0, v1, v2, v3),
            _ => {
                proof {
                    assert(rest.take(4)[0] == s[i as int] && rest.take(4)[1] == s[i + 1]
                        && rest.take(4)[2] == s[i + 2] && rest.take(4)[3] == s[i + 3]);
                }
                return None;
            },
        };
        acc.push((v0 << 2) | (v1 >> 4));
        acc.push(((v1 & 15) << 4) | (v2 >> 2));
        acc.push(((v2 & 3) << 6) | v3);
        proof {
            assert(rest.take(4)[0] == s[i as int] && rest.take(4)[1] == s[i + 1] && rest.take(
                4,
            )[2] == s[i + 2] && rest.take(4)[3] == s[i + 3]);
            assert(rest.skip(4) =~= s.skip(i + 4));
            let g = dec_group(rest.take(4))->0;
            assert(acc@ =~= acc0 + g);
            if b64_decode(s.skip(i + 4)) is Some {
                let r2 = b64_decode(s.skip(i + 4))->0;
                assert(b64_decode(rest) == Some(g + r2));
                assert(acc0 + (g + r2) =~= acc@ + r2);
            }
        }
        i = i + 4;
    }
    if len - i < 4 {
        proof {
            assert(s.skip(i as int).len() == len - i);
            assert(b64_decode(s.skip(i as int)) is None);
        }
        return None;
    }
    // the final, possibly padded group
    let ghost rest = s.skip(i as int);
    proof {
        assert(rest.len() == 4);
        assert(rest[0] == s[i as int] && rest[1] == s[i + 1] && rest[2] == s[i + 2] && rest[3]
            == s[i + 3]);
    }
    let ghost acc0 = acc@;
    if v[i + 2] == BYTE_EQUALS && v[i + 3] == BYTE_EQUALS {
        match (b64_val_exec(v[i]), b64_val_exec(v[i + 1])) {
            (Some(v0), Some(v1)) => {
                acc.push((v0 << 2) | (v1 >> 4));
                proof {
                    assert(acc@ =~= acc0 + seq![(v0 << 2) | (v1 >> 4)]);
                }
                Some(acc)
            },
            _ => None,
        }
    } else if v[i + 3] == BYTE_EQUALS {
        match (b64_val_exec(v[i]), b64_val_exec(v[i + 1]), b64_val_exec(v[i + 2])) {
            (Some(v0), Some(v1), Some(v2)) => {
                acc.push((v0 << 2) | (v1 >> 4));
                acc.push(((v1 & 15) << 4) | (v2 >> 2));
                proof {
                    assert(acc@ =~= acc0 + seq![(v0 << 2) | (v1 >> 4), ((v1 & 15) << 4) | (v2
                        >> 2)]);
                }
                Some(acc)
            },
            _ => None,
        }
    } else {
        match (
            b64_val_exec(v[i]),
            b64_val_exec(v[i + 1]),
            b64_val_exec(v[i + 2]),
            b64_val_exec(v[i + 3]),
        ) {
            (Some(v0), Some(v1), Some(v2), Some(v3)) => {
                acc.push((v0 << 2) | (v1 >> 4));
                acc.push(((v1 & 15) << 4) | (v2 >> 2));
                acc.push(((v2 & 3) << 6) | v3);
                proof {
                    assert(acc@ =~= acc0 + seq![
                        (v0 << 2) | (v1 >> 4),
                        ((v1 & 15) << 4) | (v2 >> 2),
                        ((v2 & 3) << 6) | v3,
                    ]);
                }
                Some(acc)
            },
            _ => None,
        }
    }
}

/// How many bits of `b` are set.
pub open spec fn bitcount8(b: u8) -> int {
    (b & 1) + ((b >> 1) & 1) + ((b >> 2) & 1) + ((b >> 3) & 1) + ((b >> 4) & 1) + ((b >> 5) & 1)
        + ((b >> 6) & 1) + ((b >> 7) & 1)
}

/// Hamming distance: how many bits differ between two equal-length byte
/// strings.
pub open spec fn hamming(x: Seq<u8>, y: Seq<u8>) -> int
    recommends
        x.len() == y.len(),
    decreases x.len(),
{
    if x.len() == 0 || y.len() == 0 {
        0
    } else {
        hamming(x.drop_last(), y.drop_last()) + bitcount8(x.last() ^ y.last())
    }
}

/// The distance between two text-encoded fingerprints: the Hamming distance
/// of their decoded bits, where both decode as base64 to values of one same
/// fixed width.
pub open spec fn spec_hash_distance(a: Seq<char>, b: Seq<char>) -> Option<int> {
    match (b64_decode(encode_utf8(a)), b64_decode(encode_utf8(b))) {
        (Some(x), Some(y)) => if x.len() == y.len() && x.len() <= MAX_HASH_BYTES {
            Some(hamming(x, y))
        } else {
            None
        },
        _ => None,
    }
}

/// Two texts that encode fixed-width values have exactly those values'
/// Hamming distance.
pub proof fn lemma_hash_distance_encoded(a: Seq<char>, b: Seq<char>, x: Seq<u8>, y: Seq<u8>)
    requires
        encode_utf8(a) == b64_encode(x),
        encode_utf8(b) == b64_encode(y),
        x.len() == y.len(),
        x.len() <= MAX_HASH_BYTES,
    ensures
        spec_hash_distance(a, b) == Some(hamming(x, y)),
{
    lemma_b64_decode_encode(x);
    lemma_b64_decode_encode(y);
}

/// How many bits of `b` are set.
fn bitcount8_exec(b: u8) -> (r: u8)
    ensures
        r == bitcount8(b),
        r <= 8,
{
    proof {
        assert((b & 1) <= 1 && ((b >> 1) & 1) <= 1 && ((b >> 2) & 1) <= 1 && ((b >> 3) & 1) <= 1
            && ((b >> 4) & 1) <= 1 && ((b >> 5) & 1) <= 1 && ((b >> 6) & 1) <= 1 && ((b >> 7) & 1)
            <= 1) by (bit_vector);
    }
    (b & 1) + ((b >> 1) & 1) + ((b >> 2) & 1) + ((b >> 3) & 1) + ((b >> 4) & 1) + ((b >> 5) & 1)
        + ((b >> 6) & 1) + ((b >> 7) & 1)
}

/// Computes the distance between two text-encoded fingerprints; `None`
/// where either is not base64 or the widths differ.
pub fn hash_distance(a: &String, b: &String) -> (r: Option<u64>)
    ensures
        match r {
            Some(d) => spec_hash_distance(a@, b@) == Some(d as int),
            None => spec_hash_distance(a@, b@) is None,
        },
{
    let ab = a.as_str().as_bytes_vec();
    let bb = b.as_str().as_bytes_vec();
    let x = match decode_base64_bytes(&ab) {
        Some(x) => x,
        None => {
            return None;
        },
    };
    let y = match decode_base64_bytes(&bb) {
        Some(y) => y,
        None => {
            return None;
        },
    };
    if x.len() != y.len() || x.len() > MAX_HASH_BYTES {
        return None;
    }
    let n = x.len();
    let mut acc: u64 = 0;
    for i in 0..n
        invariant
            n == x@.len() == y@.len() <= MAX_HASH_BYTES,
            acc == hamming(x@.take(i as int), y@.take(i as int)),
            acc <= 8 * i,
    {
        let bc = bitcount8_exec(x[i] ^ y[i]);
        acc = acc + bc as u64;
        proof {
            assert(x@.take(i + 1).drop_last() =~= x@.take(i as int));
            assert(y@.take(i + 1).drop_last() =~= y@.take(i as int));
        }
    }
    proof {
        assert(x@.take(n as int) =~= x@);
        assert(y@.take(n as int) =~= y@);
    }
    Some(acc)
}

} // verus!
