//! Percent-encoding of keys and values.
//!
//! Keys and values are opaque strings; before they travel in a URL path or a
//! form body they are percent-encoded, and keys coming back from a listing
//! are percent-decoded.  The codec is specified over the UTF-8 bytes of the
//! string: every byte outside the unreserved set is written as `%` followed
//! by two uppercase hexadecimal digits.

use vstd::prelude::*;
use vstd::utf8::{decode_utf8, encode_utf8, valid_utf8};
use vstd::string::StrSliceExecFns;

verus! {

/// Why a percent-decode refused its input.
#[derive(Clone, Copy, Debug, PartialEq, Eq, Structural)]
pub enum DecodeError {
    /// A `%` was not followed by two hexadecimal digits.
    InvalidEscape,
    /// The unescaped bytes are not valid UTF-8.
    InvalidUtf8,
}

/// Bytes that percent-encoding keeps as they are: ASCII letters, digits,
/// and `-`, `.`, `_`, `~`.
pub open spec fn is_unreserved(b: u8) -> bool {
    ||| 65 <= b <= 90  // 'A' ..= 'Z'
    ||| 97 <= b <= 122  // 'a' ..= 'z'
    ||| 48 <= b <= 57  // '0' ..= '9'
    ||| b == 45  // '-'
    ||| b == 46  // '.'
    ||| b == 95  // '_'
    ||| b == 126  // '~'
}

/// The uppercase hexadecimal digit for a value below sixteen.
pub open spec fn hex_digit(n: u8) -> u8
    recommends
        n < 16,
{
    if n < 10 {
        (48 + n) as u8  // '0' ..= '9'
    } else {
        (55 + n) as u8  // 'A' ..= 'F'
    }
}

/// The value of a hexadecimal digit byte, upper or lower case.
pub open spec fn hex_val(b: u8) -> Option<u8> {
    if 48 <= b <= 57 {
        Some((b - 48) as u8)
    } else if 65 <= b <= 70 {
        Some((b - 55) as u8)
    } else if 97 <= b <= 102 {
        Some((b - 87) as u8)
    } else {
        None
    }
}

/// The three-byte escape `%XY` of a byte.
pub open spec fn escaped(b: u8) -> Seq<u8> {
    seq![37u8, hex_digit(b / 16), hex_digit(b % 16)]
}

/// How a single byte appears in percent-encoded text.
pub open spec fn encoded_byte(b: u8) -> Seq<u8> {
    if is_unreserved(b) {
        seq![b]
    } else {
        escaped(b)
    }
}

/// The percent-encoding of a byte sequence.
pub open spec fn pct_encoded(s: Seq<u8>) -> Seq<u8>
    decreases s.len(),
{
    if s.len() == 0 {
        seq![]
    } else {
        encoded_byte(s[0]) + pct_encoded(s.drop_first())
    }
}

/// The percent-decoding of a byte sequence, or `None` when a `%` is not
/// followed by two hexadecimal digits.  Bytes other than `%` pass through.
pub open spec fn pct_decoded(s: Seq<u8>) -> Option<Seq<u8>>
    decreases s.len(),
{
    if s.len() == 0 {
        Some(seq![])
    } else if s[0] == 37 {
        if s.len() < 3 {
            None
        } else {
            match (hex_val(s[1]), hex_val(s[2])) {
                (Some(h), Some(l)) => match pct_decoded(s.skip(3)) {
                    Some(rest) => Some(seq![(h * 16 + l) as u8] + rest),
                    None => None,
                },
                _ => None,
            }
        }
    } else {
        match pct_decoded(s.drop_first()) {
            Some(rest) => Some(seq![s[0]] + rest),
            None => None,
        }
    }
}

/// Bytes that can appear in percent-encoded text: the unreserved set and
/// `%` itself.  None of them is a newline, `=`, `&`, `/`, `?`, or a space,
/// and all are below 128.
pub open spec fn url_safe_byte(b: u8) -> bool {
    is_unreserved(b) || b == 37
}

/// The characters a sequence of ASCII bytes spells.
pub open spec fn chars_of_ascii(b: Seq<u8>) -> Seq<char> {
    Seq::new(b.len(), |i: int| b[i] as char)
}

/// The percent-encoding of a string, character for character.
pub open spec fn encoded(s: Seq<char>) -> Seq<char> {
    chars_of_ascii(pct_encoded(encode_utf8(s)))
}

/// The percent-decoding of a string: unescape its UTF-8 bytes, then read
/// the result back as UTF-8.
pub open spec fn decoded(s: Seq<char>) -> Result<Seq<char>, DecodeError> {
    match pct_decoded(encode_utf8(s)) {
        None => Err(DecodeError::InvalidEscape),
        Some(b) => if valid_utf8(b) {
            Ok(decode_utf8(b))
        } else {
            Err(DecodeError::InvalidUtf8)
        },
    }
}

/// Percent-encoding distributes over concatenation.
pub proof fn lemma_pct_encoded_concat(a: Seq<u8>, b: Seq<u8>)
    ensures
        pct_encoded(a + b) == pct_encoded(a) + pct_encoded(b),
    decreases a.len(),
{
    if a.len() == 0 {
        assert(a + b =~= b);
        assert(pct_encoded(a) + pct_encoded(b) =~= pct_encoded(b));
    } else {
        lemma_pct_encoded_concat(a.drop_first(), b);
        assert((a + b).drop_first() =~= a.drop_first() + b);
        assert((a + b)[0] == a[0]);
        assert(pct_encoded(a + b) =~= pct_encoded(a) + pct_encoded(b));
    }
}

/// Every byte of percent-encoded text is unreserved or `%`.
pub proof fn lemma_pct_encoded_safe(s: Seq<u8>)
    ensures
        forall|i: int|
            0 <= i < pct_encoded(s).len() ==> url_safe_byte(#[trigger] pct_encoded(s)[i]),
    decreases s.len(),
{
    if s.len() == 0 {
    } else {
        lemma_pct_encoded_safe(s.drop_first());
        assert forall|i: int| 0 <= i < pct_encoded(s).len() implies url_safe_byte(
            #[trigger] pct_encoded(s)[i],
        ) by {
            let head = encoded_byte(s[0]);
            if i < head.len() {
                assert(pct_encoded(s)[i] == head[i]);
            } else {
                assert(pct_encoded(s)[i] == pct_encoded(s.drop_first())[i - head.len()]);
            }
        }
    }
}

/// Reading back the escape of a byte gives that byte.
proof fn lemma_escape_roundtrip(b: u8)
    ensures
        hex_val(hex_digit(b / 16)) == Some((b / 16) as u8),
        hex_val(hex_digit(b % 16)) == Some((b % 16) as u8),
        (b / 16) * 16 + (b % 16) == b,
{
}

/// Percent-decoding inverts percent-encoding.
pub proof fn lemma_pct_roundtrip(s: Seq<u8>)
    ensures
        pct_decoded(pct_encoded(s)) == Some(s),
    decreases s.len(),
{
    if s.len() == 0 {
    } else {
        lemma_pct_roundtrip(s.drop_first());
        let e = pct_encoded(s);
        let tail = pct_encoded(s.drop_first());
        let b = s[0];
        if is_unreserved(b) {
            assert(e == seq![b] + tail);
            assert(e[0] == b && b != 37);
            assert(e.drop_first() =~= tail);
            assert(seq![b] + s.drop_first() =~= s);
        } else {
            lemma_escape_roundtrip(b);
            assert(e == escaped(b) + tail);
            assert(e[0] == 37 && e[1] == hex_digit(b / 16) && e[2] == hex_digit(b % 16));
            assert(e.len() >= 3);
            assert(e.skip(3) =~= tail);
            assert(seq![b] + s.drop_first() =~= s);
        }
    }
}

/// A sequence of bytes below 128 is valid UTF-8 and decodes byte for byte.
pub proof fn lemma_ascii_bytes_utf8(b: Seq<u8>)
    requires
        forall|i: int| 0 <= i < b.len() ==> #[trigger] b[i] < 128,
    ensures
        valid_utf8(b),
        decode_utf8(b) == chars_of_ascii(b),
    decreases b.len(),
{
    if b.len() == 0 {
        assert(decode_utf8(b) =~= chars_of_ascii(b));
    } else {
        let b0 = b[0];
        assert(b0 & 0x7f == b0 && (b0 & 0x7f) < 0xd800) by (bit_vector)
            requires
                b0 < 128,
        ;
        assert(vstd::utf8::valid_first_scalar(b));
        assert(vstd::utf8::pop_first_scalar(b) =~= b.drop_first());
        lemma_ascii_bytes_utf8(b.drop_first());
        assert(vstd::utf8::decode_first_scalar(b) == (b0 & 0x7f) as u32);
        assert(((b0 & 0x7f) as u32) as char == b0 as char);
        assert(decode_utf8(b) =~= chars_of_ascii(b));
    }
}

/// Decoding a freshly encoded string gives the string back: the round-trip
/// law of the codec.
pub proof fn lemma_decode_encode_roundtrip(s: Seq<char>)
    ensures
        decoded(encoded(s)) == Ok::<Seq<char>, DecodeError>(s),
{
    let b = encode_utf8(s);
    let e = pct_encoded(b);
    lemma_pct_encoded_safe(b);
    assert(forall|i: int| 0 <= i < e.len() ==> #[trigger] e[i] < 128);
    lemma_ascii_bytes_utf8(e);
    vstd::utf8::decode_utf8_encode_utf8(e);
    assert(encode_utf8(encoded(s)) == e);
    lemma_pct_roundtrip(b);
    vstd::utf8::encode_utf8_valid_utf8(s);
    vstd::utf8::encode_utf8_decode_utf8(s);
}

/// UTF-8 encoding distributes over concatenation.
pub proof fn lemma_encode_utf8_concat(a: Seq<char>, b: Seq<char>)
    ensures
        encode_utf8(a + b) == encode_utf8(a) + encode_utf8(b),
    decreases a.len(),
{
    if a.len() == 0 {
        assert(a + b =~= b);
        assert(encode_utf8(a) + encode_utf8(b) =~= encode_utf8(b));
    } else {
        lemma_encode_utf8_concat(a.drop_first(), b);
        assert((a + b).drop_first() =~= a.drop_first() + b);
        assert((a + b)[0] == a[0]);
        assert(encode_utf8(a + b) =~= encode_utf8(a) + encode_utf8(b));
    }
}

/// A valid UTF-8 prefix of a valid UTF-8 sequence ends on a character
/// boundary.
proof fn lemma_valid_prefix_boundary(w: Seq<u8>, n: int)
    requires
        valid_utf8(w),
        0 <= n <= w.len(),
        valid_utf8(w.subrange(0, n)),
    ensures
        vstd::utf8::is_char_boundary(w, n),
    decreases w.len(),
{
    if n == 0 {
    } else {
        let pre = w.subrange(0, n);
        assert(pre[0] == w[0]);
        let l = vstd::utf8::length_of_first_scalar(w);
        assert(vstd::utf8::length_of_first_scalar(pre) == l);
        assert(n >= l);
        let wt = vstd::utf8::pop_first_scalar(w);
        assert(vstd::utf8::pop_first_scalar(pre) =~= wt.subrange(0, n - l));
        assert(wt.subrange(0, n - l) =~= wt.subrange(0, n - l));
        lemma_valid_prefix_boundary(wt, n - l);
    }
}

/// One string is a prefix of another exactly when its UTF-8 bytes are a
/// prefix of the other's.
pub proof fn lemma_prefix_bytes(p: Seq<char>, k: Seq<char>)
    ensures
        p.is_prefix_of(k) <==> encode_utf8(p).is_prefix_of(encode_utf8(k)),
{
    let ep = encode_utf8(p);
    let ek = encode_utf8(k);
    vstd::utf8::encode_utf8_valid_utf8(p);
    vstd::utf8::encode_utf8_valid_utf8(k);
    if p.is_prefix_of(k) {
        lemma_encode_utf8_concat(p, k.skip(p.len() as int));
        assert(p + k.skip(p.len() as int) =~= k);
        assert(ek =~= ep + encode_utf8(k.skip(p.len() as int)));
        assert(ep =~= ek.subrange(0, ep.len() as int));
    }
    if ep.is_prefix_of(ek) {
        let n = ep.len() as int;
        assert(ek.subrange(0, n) =~= ep);
        lemma_valid_prefix_boundary(ek, n);
        vstd::utf8::decode_utf8_split(ek, n);
        vstd::utf8::encode_utf8_decode_utf8(k);
        vstd::utf8::encode_utf8_decode_utf8(p);
        assert(decode_utf8(ek.subrange(0, n)) == p);
        assert(k == p + decode_utf8(ek.subrange(n, ek.len() as int)));
        assert(p =~= k.subrange(0, p.len() as int));
    }
}

fn is_unreserved_x(b: u8) -> (r: bool)
    ensures
        r == is_unreserved(b),
{
    (65 <= b && b <= 90) || (97 <= b && b <= 122) || (48 <= b && b <= 57) || b == 45 || b == 46
        || b == 95 || b == 126
}

fn hex_digit_x(n: u8) -> (r: u8)
    requires
        n < 16,
    ensures
        r == hex_digit(n),
{
    if n < 10 {
        48 + n
    } else {
        55 + n
    }
}

fn hex_val_x(b: u8) -> (r: Option<u8>)
    ensures
        r == hex_val(b),
{
    if 48 <= b && b <= 57 {
        Some(b - 48)
    } else if 65 <= b && b <= 70 {
        Some(b - 55)
    } else if 97 <= b && b <= 102 {
        Some(b - 87)
    } else {
        None
    }
}

/// Percent-encode a byte sequence.
pub fn pct_encode(s: &Vec<u8>) -> (r: Vec<u8>)
    ensures
        r@ == pct_encoded(s@),
{
    let mut out: Vec<u8> = Vec::new();
    let mut i: usize = 0;
    while i < s.len()
        invariant
            i <= s@.len(),
            out@ == pct_encoded(s@.take(i as int)),
        decreases s@.len() - i,
    {
        let b = s[i];
        if is_unreserved_x(b) {
            out.push(b);
        } else {
            out.push(37);
            out.push(hex_digit_x(b / 16));
            out.push(hex_digit_x(b % 16));
        }
        proof {
            lemma_pct_encoded_concat(s@.take(i as int), seq![s@[i as int]]);
            assert(s@.take(i as int) + seq![s@[i as int]] =~= s@.take(i as int + 1));
            assert(seq![s@[i as int]].drop_first() =~= Seq::<u8>::empty());
            assert(encoded_byte(s@[i as int]) + pct_encoded(Seq::<u8>::empty()) =~= encoded_byte(
                s@[i as int],
            ));
            assert(pct_encoded(seq![s@[i as int]]) =~= encoded_byte(s@[i as int]));
            assert(out@ =~= pct_encoded(s@.take(i as int + 1)));
        }
        i = i + 1;
    }
    proof {
        assert(s@.take(s@.len() as int) =~= s@);
    }
    out
}

/// Prepend a decoded prefix to the outcome of decoding the rest.
spec fn opt_prepend(p: Seq<u8>, o: Option<Seq<u8>>) -> Option<Seq<u8>> {
    match o {
        Some(rest) => Some(p + rest),
        None => None,
    }
}

/// Percent-decode a byte sequence, or refuse it when a `%` is not followed
/// by two hexadecimal digits.
pub fn pct_decode(s: &Vec<u8>) -> (r: Option<Vec<u8>>)
    ensures
        match r {
            Some(v) => pct_decoded(s@) == Some(v@),
            None => pct_decoded(s@) is None,
        },
{
    let mut out: Vec<u8> = Vec::new();
    let mut i: usize = 0;
    proof {
        assert(s@.skip(0int) =~= s@);
        match pct_decoded(s@) {
            Some(d) => {
                assert(Seq::<u8>::empty() + d =~= d);
            },
            None => {},
        }
    }
    while i < s.len()
        invariant
            i <= s@.len(),
            pct_decoded(s@) == opt_prepend(out@, pct_decoded(s@.skip(i as int))),
        decreases s@.len() - i,
    {
        let ghost rest = s@.skip(i as int);
        if s[i] == 37 {
            if s.len() - i < 3 {
                proof {
                    assert(rest[0] == 37 && rest.len() < 3);
                }
                return None;
            }
            let h = hex_val_x(s[i + 1]);
            let l = hex_val_x(s[i + 2]);
            proof {
                assert(rest[0] == 37 && rest.len() >= 3);
                assert(rest[1] == s@[i + 1] && rest[2] == s@[i + 2]);
            }
            match (h, l) {
                (Some(hv), Some(lv)) => {
                    out.push(hv * 16 + lv);
                    proof {
                        assert(rest.skip(3) =~= s@.skip(i + 3));
                        assert(out@ =~= out@.subrange(0, out@.len() - 1) + seq![
                            (hv * 16 + lv) as u8,
                        ]);
                        assert(pct_decoded(s@) == opt_prepend(out@, pct_decoded(s@.skip(i + 3))));
                    }
                    i = i + 3;
                },
                _ => {
                    return None;
                },
            }
        } else {
            let b = s[i];
            out.push(b);
            proof {
                assert(rest[0] == b && b != 37);
                assert(rest.drop_first() =~= s@.skip(i as int + 1));
                assert(out@ =~= out@.subrange(0, out@.len() - 1) + seq![b]);
                assert(pct_decoded(s@) == opt_prepend(out@, pct_decoded(s@.skip(i as int + 1))));
            }
            i = i + 1;
        }
    }
    proof {
        assert(s@.skip(s@.len() as int) =~= Seq::<u8>::empty());
        assert(out@ + Seq::<u8>::empty() =~= out@);
    }
    Some(out)
}

/// Relies on `String::from_utf8`: it returns the string spelled by the
/// given bytes when they are valid UTF-8, and an error otherwise.
#[verifier::external_body]
pub(crate) fn string_from_utf8(v: Vec<u8>) -> (r: Option<String>)
    ensures
        r matches Some(t) ==> valid_utf8(v@) && t@ == decode_utf8(v@),
        r is Some <==> valid_utf8(v@),
{
    match String::from_utf8(v) {
        Ok(t) => Some(t),
        Err(_) => None,
    }
}

/// Percent-encode a string for use in a URL path segment or a form field.
pub fn encode(s: &str) -> (r: String)
    ensures
        r@ == encoded(s@),
{
    let bytes = s.as_bytes_vec();
    let enc = pct_encode(&bytes);
    proof {
        lemma_pct_encoded_safe(bytes@);
        assert(forall|i: int| 0 <= i < enc@.len() ==> #[trigger] enc@[i] < 128);
        lemma_ascii_bytes_utf8(enc@);
    }
    match string_from_utf8(enc) {
        Some(t) => t,
        None => {
            proof {
                assert(false);
            }
            String::new()
        },
    }
}

/// Percent-decode a string, as applied to each line of a listing response.
pub fn decode(s: &str) -> (r: Result<String, DecodeError>)
    ensures
        match r {
            Ok(t) => decoded(s@) matches Ok(d) && d == t@,
            Err(e) => decoded(s@) matches Err(e2) && e2 == e,
        },
{
    let bytes = s.as_bytes_vec();
    match pct_decode(&bytes) {
        None => Err(DecodeError::InvalidEscape),
        Some(v) => match string_from_utf8(v) {
            Some(t) => Ok(t),
            None => Err(DecodeError::InvalidUtf8),
        },
    }
}

} // verus!
