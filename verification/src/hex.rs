//! Hexadecimal text and the bytes it stands for.

use vstd::prelude::*;
use vstd::string::StringSliceAdditionalSpecFns;
use vstd::utf8::encode_utf8;
use crate::text::{hex_char, hex_of, hex_string, trim, trimmed};

verus! {

/// The value of a hexadecimal digit, in either case.
pub open spec fn digit_value(c: u8) -> Option<int> {
    if 48 <= c <= 57 {
        Some(c - 48)
    } else if 97 <= c <= 102 {
        Some(c - 87)
    } else if 65 <= c <= 70 {
        Some(c - 55)
    } else {
        None
    }
}

/// Every byte of `s` is a hexadecimal digit.
pub open spec fn all_digits(s: Seq<u8>) -> bool {
    forall|i: int| 0 <= i < s.len() ==> (#[trigger] digit_value(s[i])) is Some
}

/// The bytes that pairs of digits stand for.
pub open spec fn pair_values(s: Seq<u8>) -> Seq<u8> {
    Seq::new(
        s.len() / 2,
        |i: int| (digit_value(s[2 * i])->0 * 16 + digit_value(s[2 * i + 1])->0) as u8,
    )
}

/// `i` is the first byte of `s` that is no digit.
pub open spec fn first_non_digit(s: Seq<u8>, i: int) -> bool {
    &&& 0 <= i < s.len()
    &&& digit_value(s[i]) is None
    &&& all_digits(s.take(i))
}

fn digit(c: u8) -> (r: Option<u8>)
    ensures
        r is Some <==> digit_value(c) is Some,
        r matches Some(d) ==> d == digit_value(c)->0 && d < 16,
{
    if 48 <= c && c <= 57 {
        Some(c - 48)
    } else if 97 <= c && c <= 102 {
        Some(c - 87)
    } else if 65 <= c && c <= 70 {
        Some(c - 55)
    } else {
        None
    }
}

/// The bytes of an even number of digits, or the position of the first byte
/// that is no digit.
pub fn decode_pairs(s: &[u8]) -> (r: Result<Vec<u8>, usize>)
    requires
        s@.len() % 2 == 0,
    ensures
        r is Ok <==> all_digits(s@),
        r matches Ok(v) ==> v@ == pair_values(s@),
        r matches Err(i) ==> first_non_digit(s@, i as int),
{
    let mut out: Vec<u8> = Vec::new();
    let mut i: usize = 0;
    while i < s.len()
        invariant
            i <= s.len(),
            s@.len() % 2 == 0,
            i % 2 == 0,
            all_digits(s@.take(i as int)),
            out@.len() == i / 2,
            forall|k: int| 0 <= k < out@.len() ==> out@[k] == pair_values(s@)[k],
        decreases s.len() - i,
    {
        proof {
            assert forall|k: int| 0 <= k < i implies (#[trigger] digit_value(s@[k])) is Some by {
                assert(s@.take(i as int)[k] == s@[k]);
            }
        }
        match digit(s[i]) {
            None => {
                assert(!all_digits(s@)) by {
                    assert(digit_value(s@[i as int]) is None);
                }
                return Err(i);
            },
            Some(hi) => match digit(s[i + 1]) {
                None => {
                    proof {
                        assert(!all_digits(s@)) by {
                            assert(digit_value(s@[i + 1]) is None);
                        }
                        let t = s@.take(i + 1);
                        assert forall|k: int| 0 <= k < t.len() implies (#[trigger] digit_value(
                            t[k],
                        )) is Some by {
                            assert(t[k] == s@[k]);
                        }
                    }
                    return Err(i + 1);
                },
                Some(lo) => {
                    out.push(hi * 16 + lo);
                    proof {
                        let t = s@.take(i + 2);
                        assert forall|k: int| 0 <= k < t.len() implies (#[trigger] digit_value(
                            t[k],
                        )) is Some by {
                            assert(t[k] == s@[k]);
                        }
                        assert(2 * (i as int / 2) == i);
                    }
                    i += 2;
                },
            },
        }
    }
    assert(s@.take(i as int) =~= s@);
    assert(out@ =~= pair_values(s@));
    Ok(out)
}

/// Lower-case hexadecimal text, two characters per byte.
pub fn encode(data: &[u8]) -> (s: String)
    ensures
        s@ == hex_of(data@),
{
    hex_string(data)
}

/// The text is an even number of hexadecimal digits between white space.
pub open spec fn decodable(s: Seq<char>) -> bool {
    encode_utf8(trim(s)).len() % 2 == 0 && all_digits(encode_utf8(trim(s)))
}

/// What decoding the text of `s` gives, with the message of a bad byte put
/// after `what`.
pub open spec fn decode_spec(s: Seq<char>, what: Seq<char>, r: Result<Seq<u8>, Seq<char>>) -> bool {
    let b = encode_utf8(trim(s));
    match r {
        Ok(v) => b.len() % 2 == 0 && all_digits(b) && v == pair_values(b),
        Err(e) => {
            ||| b.len() % 2 != 0 && e == "hex string has odd length"@
            ||| b.len() % 2 == 0 && exists|i: int| #[trigger]
                first_non_digit(b, i) && e == what.push(b[i] as char)
        },
    }
}

/// Decodes trimmed hexadecimal text; `what` starts the message of a bad byte.
pub fn decode_with(s: &str, what: &str) -> (r: Result<Vec<u8>, String>)
    ensures
        match r {
            Ok(v) => decode_spec(s@, what@, Ok(v@)),
            Err(e) => decode_spec(s@, what@, Err(e@)),
        },
{
    let t = trimmed(s);
    let b = t.as_str().as_bytes();
    if b.len() % 2 != 0 {
        return Err("hex string has odd length".to_string());
    }
    match decode_pairs(b) {
        Ok(v) => Ok(v),
        Err(i) => {
            let mut e = what.to_string();
            e.push(b[i] as char);
            Err(e)
        },
    }
}

/// Decodes hexadecimal text, ignoring white space around it.
pub fn decode(s: &str) -> (r: Result<Vec<u8>, String>)
    ensures
        match r {
            Ok(v) => decode_spec(s@, "invalid hex character: "@, Ok(v@)),
            Err(e) => decode_spec(s@, "invalid hex character: "@, Err(e@)),
        },
{
    decode_with(s, "invalid hex character: ")
}

proof fn lemma_no_space(s: Seq<char>)
    requires
        forall|i: int| 0 <= i < s.len() ==> !crate::text::is_space(#[trigger] s[i]),
    ensures
        trim(s) == s,
{
}

/// Decoding gives back what was encoded.
pub proof fn law_decode_encode(data: Seq<u8>)
    ensures
        encode_utf8(trim(hex_of(data))).len() % 2 == 0,
        all_digits(encode_utf8(trim(hex_of(data)))),
        pair_values(encode_utf8(trim(hex_of(data)))) == data,
{
    let s = hex_of(data);
    assert forall|i: int| 0 <= i < s.len() implies !crate::text::is_space(#[trigger] s[i]) && (s[i] as int)
        < 128 && (s[i] == hex_char(data[i / 2] as int / 16) || s[i] == hex_char(
        data[i / 2] as int % 16,
    )) by {
        assert(0 <= i / 2 < data.len());
    }
    lemma_no_space(s);
    vstd::utf8::is_ascii_chars_encode_utf8(s);
    let b = encode_utf8(s);
    assert forall|i: int| 0 <= i < b.len() implies (#[trigger] digit_value(b[i])) is Some by {
        assert(b[i] == s[i] as u8);
        assert(0 <= i / 2 < data.len());
    }
    assert forall|k: int| 0 <= k < data.len() implies pair_values(b)[k] == data[k] by {
        assert(b[2 * k] == s[2 * k] as u8);
        assert(b[2 * k + 1] == s[2 * k + 1] as u8);
        assert(s[2 * k] == hex_char(data[k] as int / 16));
        assert(s[2 * k + 1] == hex_char(data[k] as int % 16));
    }
    assert(pair_values(b) =~= data);
}

/// Decoding fails exactly on text that is not an even number of digits.
pub proof fn law_decode_fails_iff(s: Seq<char>, what: Seq<char>, r: Result<Seq<u8>, Seq<char>>)
    requires
        decode_spec(s, what, r),
    ensures
        r is Ok <==> decodable(s),
{
}

} // verus!
