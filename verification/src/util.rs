//! Small shared utilities: hexadecimal decoding and thread-capability markers.
use std::num::ParseIntError;
use vstd::prelude::*;
use vstd::string::StringSliceAdditionalSpecFns;

verus! {

/// Types that can move to another thread.
pub trait KySend: Send {

}

/// Types that can be shared between threads.
pub trait KySync: Sync {

}

impl<T: Send> KySend for T {

}

impl<T: Sync> KySync for T {

}

#[verifier::external_type_specification]
#[verifier::external_body]
pub struct ExParseIntError(ParseIntError);

/// Why a hexadecimal string could not be decoded.
#[derive(Debug, PartialEq, Eq)]
pub enum DecodeHexError {
    OddLength,
    ParseInt(ParseIntError),
}

/// The value of an ASCII hexadecimal digit, of either case.
pub open spec fn hex_digit(b: u8) -> Option<u8> {
    if 0x30 <= b <= 0x39 {
        Some((b - 0x30) as u8)
    } else if 0x61 <= b <= 0x66 {
        Some((b - 0x61 + 10) as u8)
    } else if 0x41 <= b <= 0x46 {
        Some((b - 0x41 + 10) as u8)
    } else {
        None
    }
}

/// What `u8::from_str_radix` gives in base 16 for the two bytes `b0 b1`: a
/// leading `+` followed by a digit, or two digits.
pub open spec fn pair_value(b0: u8, b1: u8) -> Option<u8> {
    if b0 == 0x2b {
        hex_digit(b1)
    } else {
        match (hex_digit(b0), hex_digit(b1)) {
            (Some(h), Some(l)) => Some((h * 16 + l) as u8),
            _ => None,
        }
    }
}

/// The bytes that the hexadecimal text `b` denotes, two characters per byte;
/// `None` where some pair is not a number.
pub open spec fn hex_decode(b: Seq<u8>) -> Option<Seq<u8>>
    decreases b.len(),
{
    if b.len() < 2 {
        Some(Seq::empty())
    } else {
        match pair_value(b[0], b[1]) {
            None => None,
            Some(v) => match hex_decode(b.subrange(2, b.len() as int)) {
                None => None,
                Some(rest) => Some(seq![v] + rest),
            },
        }
    }
}

/// The ASCII hexadecimal digit of `d` (below 16), upper or lower case.
pub open spec fn hex_char(d: u8, upper: bool) -> u8 {
    if d < 10 {
        (0x30 + d) as u8
    } else if upper {
        (0x41 + d - 10) as u8
    } else {
        (0x61 + d - 10) as u8
    }
}

/// The hexadecimal text of `v`: two digits per byte, the high one first, as
/// `format!("{:02x}")` (or `{:02X}`) writes each.
pub open spec fn hex_text(v: Seq<u8>, upper: bool) -> Seq<u8>
    decreases v.len(),
{
    if v.len() == 0 {
        Seq::empty()
    } else {
        seq![hex_char(v[0] / 16, upper), hex_char(v[0] % 16, upper)] + hex_text(
            v.drop_first(),
            upper,
        )
    }
}

/// Hexadecimal text is ASCII.
proof fn lemma_hex_text_ascii(v: Seq<u8>, upper: bool)
    ensures
        forall|i: int| 0 <= i < hex_text(v, upper).len() ==> hex_text(v, upper)[i] < 0x80,
    decreases v.len(),
{
    if v.len() > 0 {
        lemma_hex_text_ascii(v.drop_first(), upper);
        let t = hex_text(v, upper);
        let r = hex_text(v.drop_first(), upper);
        assert forall|i: int| 0 <= i < t.len() implies t[i] < 0x80 by {
            if i >= 2 {
                assert(t[i] == r[i - 2]);
            }
        }
    }
}

/// Decoding the hexadecimal text of some bytes, in either case, gives the
/// bytes back: the text, of even length, meets what `hex_to_bytes` asks,
/// and decodes to the bytes, so `hex_to_bytes` returns them.
pub proof fn lemma_hex_roundtrip(v: Seq<u8>, upper: bool)
    ensures
        hex_text(v, upper).len() == 2 * v.len(),
        splits_in_pairs(hex_text(v, upper)),
        hex_decode(hex_text(v, upper)) == Some(v),
    decreases v.len(),
{
    lemma_hex_text_ascii(v, upper);
    lemma_ascii_splits(hex_text(v, upper));
    if v.len() > 0 {
        lemma_hex_roundtrip(v.drop_first(), upper);
        let t = hex_text(v, upper);
        let h = v[0] / 16;
        let l = v[0] % 16;
        assert(t.subrange(2, t.len() as int) =~= hex_text(v.drop_first(), upper));
        assert(hex_digit(hex_char(h, upper)) == Some(h));
        assert(hex_digit(hex_char(l, upper)) == Some(l));
        assert(t[0] == hex_char(h, upper));
        assert(t[1] == hex_char(l, upper));
        assert((h * 16 + l) as u8 == v[0]);
        assert(seq![v[0]] + v.drop_first() =~= v);
    }
}

/// The text `b` can be cut two bytes at a time up to the first pair that
/// is not a number: every cut made falls on a character boundary. These are
/// the inputs on which decoding does not panic.
pub open spec fn splits_in_pairs(b: Seq<u8>) -> bool
    decreases b.len(),
{
    b.len() >= 2 ==> vstd::utf8::is_char_boundary(b, 2) && (pair_value(b[0], b[1]) is Some
        ==> splits_in_pairs(b.subrange(2, b.len() as int)))
}

/// Bytes below 0x80 are valid UTF-8.
proof fn lemma_ascii_valid_utf8(b: Seq<u8>)
    requires
        forall|i: int| 0 <= i < b.len() ==> b[i] < 0x80,
    ensures
        vstd::utf8::valid_utf8(b),
    decreases b.len(),
{
    if b.len() > 0 {
        let c = b[0];
        assert((c & 0x7F) as u32 <= 0x7F) by (bit_vector);
        let rest = b.subrange(1, b.len() as int);
        assert(vstd::utf8::pop_first_scalar(b) == rest);
        lemma_ascii_valid_utf8(rest);
    }
}

/// Text of bytes below 0x80 can be cut anywhere, in particular two bytes at
/// a time.
proof fn lemma_ascii_splits(b: Seq<u8>)
    requires
        forall|i: int| 0 <= i < b.len() ==> b[i] < 0x80,
    ensures
        splits_in_pairs(b),
    decreases b.len(),
{
    if b.len() >= 2 {
        lemma_ascii_valid_utf8(b);
        let b1 = b.subrange(1, b.len() as int);
        let b2 = b.subrange(2, b.len() as int);
        lemma_ascii_valid_utf8(b1);
        lemma_ascii_valid_utf8(b2);
        let c0 = b[0];
        let c1 = b1[0];
        assert((c0 & 0x7F) as u32 <= 0x7F) by (bit_vector);
        assert((c1 & 0x7F) as u32 <= 0x7F) by (bit_vector);
        assert(vstd::utf8::pop_first_scalar(b) == b1);
        assert(b1.subrange(1, b1.len() as int) =~= b2);
        assert(vstd::utf8::pop_first_scalar(b1) == b2);
        assert(vstd::utf8::is_char_boundary(b2, 0));
        assert(vstd::utf8::is_char_boundary(b1, 1));
        assert(vstd::utf8::is_char_boundary(b, 2));
        lemma_ascii_splits(b2);
    }
}

/// `u8::from_str_radix(pair, 16)`: per its documentation, an optional `+`
/// followed by hexadecimal digits is accepted and read, anything else is
/// refused.
#[verifier::external_body]
fn parse_hex_pair(pair: &str) -> (r: Result<u8, ParseIntError>)
    requires
        pair.spec_bytes().len() == 2,
    ensures
        match r {
            Ok(v) => pair_value(pair.spec_bytes()[0], pair.spec_bytes()[1]) == Some(v),
            Err(_) => pair_value(pair.spec_bytes()[0], pair.spec_bytes()[1]) is None,
        },
{
    u8::from_str_radix(pair, 16)
}

/// Decodes a hexadecimal string, two characters per byte: an error for an odd
/// length, else the error of the first pair that is not a number, else the
/// bytes.
pub fn hex_to_bytes(s: &str) -> (r: Result<Vec<u8>, DecodeHexError>)
    requires
        s.spec_bytes().len() % 2 == 0 ==> splits_in_pairs(s.spec_bytes()),
    ensures
        match r {
            Ok(v) => s.spec_bytes().len() % 2 == 0 && hex_decode(s.spec_bytes()) == Some(v@),
            Err(DecodeHexError::OddLength) => s.spec_bytes().len() % 2 == 1,
            Err(DecodeHexError::ParseInt(_)) => s.spec_bytes().len() % 2 == 0 && hex_decode(
                s.spec_bytes(),
            ) is None,
        },
{
    if s.as_bytes().len() % 2 != 0 {
        return Err(DecodeHexError::OddLength);
    }
    let mut out: Vec<u8> = Vec::new();
    let mut rest: &str = s;
    while rest.as_bytes().len() >= 2
        invariant
            s.spec_bytes().len() % 2 == 0,
            rest.spec_bytes().len() % 2 == 0,
            splits_in_pairs(rest.spec_bytes()),
            forall|tail: Seq<u8>|
                hex_decode(rest.spec_bytes()) == Some(tail) ==> hex_decode(s.spec_bytes()) == Some(
                    out@ + tail,
                ),
            hex_decode(rest.spec_bytes()) is None ==> hex_decode(s.spec_bytes()) is None,
        decreases rest.spec_bytes().len(),
    {
        let ghost before = rest.spec_bytes();
        let (pair, tail) = rest.split_at(2);
        assert(pair.spec_bytes() =~= before.subrange(0, 2));
        assert(tail.spec_bytes() =~= before.subrange(2, before.len() as int));
        match parse_hex_pair(pair) {
            Ok(v) => {
                proof {
                    assert forall|t: Seq<u8>|
                        hex_decode(tail.spec_bytes()) == Some(t) implies hex_decode(s.spec_bytes())
                        == Some(out@.push(v) + t) by {
                        assert(hex_decode(before) == Some(seq![v] + t));
                        assert(out@ + (seq![v] + t) =~= out@.push(v) + t);
                    }
                }
                out.push(v);
                rest = tail;
            },
            Err(e) => {
                assert(hex_decode(before) is None);
                return Err(DecodeHexError::ParseInt(e));
            },
        }
    }
    assert(hex_decode(rest.spec_bytes()) == Some(Seq::<u8>::empty()));
    assert(out@ + Seq::<u8>::empty() =~= out@);
    Ok(out)
}

} // verus!
