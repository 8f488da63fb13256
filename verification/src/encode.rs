//! Forms-style percent-encoding of UTF-8 text, its inverse, and the proof
//! that decoding undoes encoding.
//!
//! The rule: ASCII letters, digits, `-`, `_` and `.` pass through unchanged,
//! a space becomes `+`, and every other byte becomes `%XX` with `XX` the
//! two-digit uppercase hexadecimal value of the byte.

use vstd::prelude::*;
use vstd::utf8::{
    decode_utf8, encode_utf8, encode_utf8_decode_utf8, encode_utf8_valid_utf8, is_ascii_chars,
    is_ascii_chars_encode_utf8, valid_utf8,
};

verus! {

/// True for the bytes that the forms-style percent-encoding passes through
/// unchanged: ASCII letters, digits, `-`, `_` and `.`.
pub open spec fn is_unreserved_byte(b: u8) -> bool {
    (0x61 <= b && b <= 0x7a)  // 'a' ..= 'z'
    || (0x41 <= b && b <= 0x5a)  // 'A' ..= 'Z'
    || (0x30 <= b && b <= 0x39)  // '0' ..= '9'
    || b == 0x2d  // '-'
    || b == 0x5f  // '_'
    || b == 0x2e  // '.'
}

/// The uppercase hexadecimal digit, as an ASCII byte, for a value below 16.
pub open spec fn upper_hex_digit(n: u8) -> u8
    recommends
        n < 16,
{
    if n < 10 {
        (0x30 + n) as u8  // '0' ..= '9'
    } else {
        (0x37 + n) as u8  // 'A' ..= 'F'
    }
}

/// The encoding of a single byte: itself, `+` for a space, or `%XX`.
pub open spec fn encode_byte(b: u8) -> Seq<u8> {
    if is_unreserved_byte(b) {
        seq![b]
    } else if b == 0x20 {
        seq![0x2bu8]
    } else {
        seq![0x25u8, upper_hex_digit(b / 16), upper_hex_digit(b % 16)]
    }
}

/// The forms-style percent-encoding of a byte sequence.
pub open spec fn encode_bytes(s: Seq<u8>) -> Seq<u8>
    decreases s.len(),
{
    if s.len() == 0 {
        Seq::empty()
    } else {
        encode_byte(s.first()) + encode_bytes(s.drop_first())
    }
}

/// A sequence of ASCII bytes read as text.
pub open spec fn bytes_as_chars(s: Seq<u8>) -> Seq<char> {
    s.map(|i: int, b: u8| b as char)
}

/// The percent-encoding of the UTF-8 bytes of a character sequence, as text.
pub open spec fn encode_form_url_spec(s: Seq<char>) -> Seq<char> {
    bytes_as_chars(encode_bytes(encode_utf8(s)))
}

pub proof fn lemma_encode_bytes_push(s: Seq<u8>, b: u8)
    ensures
        encode_bytes(s.push(b)) == encode_bytes(s) + encode_byte(b),
    decreases s.len(),
{
    if s.len() == 0 {
        assert(s.push(b).len() == 1);
        assert(s.push(b).first() == b);
        assert(s.push(b).drop_first() =~= Seq::<u8>::empty());
        assert(encode_bytes(s.push(b)) == encode_byte(b) + encode_bytes(Seq::<u8>::empty()));
        assert(encode_byte(b) + Seq::<u8>::empty() =~= Seq::<u8>::empty() + encode_byte(b));
    } else {
        assert(s.push(b).len() == s.len() + 1);
        assert(s.push(b).first() == s.first());
        assert(s.push(b).drop_first() =~= s.drop_first().push(b));
        lemma_encode_bytes_push(s.drop_first(), b);
        assert(encode_bytes(s.push(b)) == encode_byte(s.first()) + encode_bytes(
            s.drop_first().push(b),
        ));
        assert(encode_byte(s.first()) + (encode_bytes(s.drop_first()) + encode_byte(b)) =~= (
        encode_byte(s.first()) + encode_bytes(s.drop_first())) + encode_byte(b));
    }
}

pub proof fn lemma_encode_byte_ascii(b: u8)
    ensures
        forall|i: int| 0 <= i < encode_byte(b).len() ==> encode_byte(b)[i] < 0x80,
{
    if is_unreserved_byte(b) {
    } else if b == 0x20 {
    } else {
        assert(b / 16 < 16);
        assert(b % 16 < 16);
        assert(encode_byte(b)[0] == 0x25);
        assert(encode_byte(b)[1] == upper_hex_digit(b / 16));
        assert(encode_byte(b)[2] == upper_hex_digit(b % 16));
    }
}

/// Every byte that the encoding emits is an ASCII byte.
pub proof fn lemma_encode_bytes_ascii(s: Seq<u8>)
    ensures
        forall|i: int| 0 <= i < encode_bytes(s).len() ==> encode_bytes(s)[i] < 0x80,
    decreases s.len(),
{
    if s.len() == 0 {
    } else {
        lemma_encode_byte_ascii(s.first());
        lemma_encode_bytes_ascii(s.drop_first());
        let e1 = encode_byte(s.first());
        let e2 = encode_bytes(s.drop_first());
        assert(encode_bytes(s) == e1 + e2);
        assert forall|i: int| 0 <= i < encode_bytes(s).len() implies encode_bytes(s)[i]
            < 0x80 by {
            if i < e1.len() {
                assert(encode_bytes(s)[i] == e1[i]);
            } else {
                assert(encode_bytes(s)[i] == e2[i - e1.len()]);
            }
        }
    }
}

/// A sequence of ASCII bytes is valid UTF-8 and decodes to the text whose
/// characters are exactly those bytes.
pub proof fn lemma_ascii_bytes_decode(v: Seq<u8>)
    requires
        forall|i: int| 0 <= i < v.len() ==> v[i] < 0x80,
    ensures
        valid_utf8(v),
        decode_utf8(v) == bytes_as_chars(v),
        encode_utf8(bytes_as_chars(v)) == v,
{
    let chars = bytes_as_chars(v);
    assert(is_ascii_chars(chars)) by {
        assert forall|i: int| 0 <= i < chars.len() implies '\0' <= #[trigger] chars[i]
            <= '\u{7f}' by {
            assert(chars[i] == v[i] as char);
        }
    }
    is_ascii_chars_encode_utf8(chars);
    assert(encode_utf8(chars) =~= v);
    encode_utf8_valid_utf8(chars);
    encode_utf8_decode_utf8(chars);
}

/// UTF-8 encoding is injective: equal encodings mean equal text.
pub proof fn lemma_encode_utf8_injective(a: Seq<char>, b: Seq<char>)
    requires
        encode_utf8(a) == encode_utf8(b),
    ensures
        a == b,
{
    encode_utf8_decode_utf8(a);
    encode_utf8_decode_utf8(b);
}

/// Compares two strings by their text.
pub fn str_eq(a: &str, b: &str) -> (r: bool)
    ensures
        r == (a@ == b@),
{
    let ab: &[u8] = a.as_bytes();
    let bb: &[u8] = b.as_bytes();
    let n: usize = ab.len();
    if n != bb.len() {
        proof {
            if a@ == b@ {
                assert(encode_utf8(a@) == encode_utf8(b@));
            }
        }
        return false;
    }
    for i in 0..n
        invariant
            n == ab@.len(),
            n == bb@.len(),
            forall|t: int| 0 <= t < i ==> ab@[t] == bb@[t],
    {
        if ab[i] != bb[i] {
            proof {
                if a@ == b@ {
                    assert(encode_utf8(a@) == encode_utf8(b@));
                }
            }
            return false;
        }
    }
    proof {
        assert(ab@ =~= bb@);
        lemma_encode_utf8_injective(a@, b@);
    }
    true
}

/// Relies on `String::from_utf8`: it succeeds exactly on valid UTF-8 input
/// and returns the string whose UTF-8 encoding is that input.
#[verifier::external_body]
pub(crate) fn string_from_utf8(v: Vec<u8>) -> (r: Option<String>)
    ensures
        r is Some <==> valid_utf8(v@),
        r matches Some(s) ==> s@ == decode_utf8(v@),
{
    match String::from_utf8(v) {
        Ok(s) => Some(s),
        Err(_) => None,
    }
}

fn hex_upper(n: u8) -> (r: u8)
    requires
        n < 16,
    ensures
        r == upper_hex_digit(n),
{
    if n < 10 {
        0x30 + n
    } else {
        0x37 + n
    }
}

fn push_encoded_byte(out: &mut Vec<u8>, b: u8)
    ensures
        final(out)@ == old(out)@ + encode_byte(b),
{
    if (0x61 <= b && b <= 0x7a) || (0x41 <= b && b <= 0x5a) || (0x30 <= b && b <= 0x39) || b
        == 0x2d || b == 0x5f || b == 0x2e {
        out.push(b);
        assert(out@ =~= old(out)@ + encode_byte(b));
    } else if b == 0x20 {
        out.push(0x2b);
        assert(out@ =~= old(out)@ + encode_byte(b));
    } else {
        out.push(0x25);
        out.push(hex_upper(b / 16));
        out.push(hex_upper(b % 16));
        assert(out@ =~= old(out)@ + encode_byte(b));
    }
}

/// Percent-encodes a byte sequence with the forms-style rule.
pub fn encode_form_url_bytes(input: &[u8]) -> (r: Vec<u8>)
    ensures
        r@ == encode_bytes(input@),
{
    let mut out: Vec<u8> = Vec::new();
    let n: usize = input.len();
    for i in 0..n
        invariant
            n == input@.len(),
            out@ == encode_bytes(input@.take(i as int)),
    {
        let b: u8 = input[i];
        proof {
            assert(input@.take(i as int).push(input@[i as int]) =~= input@.take(i + 1));
            lemma_encode_bytes_push(input@.take(i as int), input@[i as int]);
        }
        push_encoded_byte(&mut out, b);
    }
    proof {
        assert(input@.take(n as int) =~= input@);
    }
    out
}

/// The byte value of a hexadecimal digit, uppercase or lowercase; `None` for
/// any other byte.
pub open spec fn hex_value(b: u8) -> Option<u8> {
    if 0x30 <= b && b <= 0x39 {
        Some((b - 0x30) as u8)
    } else if 0x41 <= b && b <= 0x46 {
        Some((b - 0x41 + 10) as u8)
    } else if 0x61 <= b && b <= 0x66 {
        Some((b - 0x61 + 10) as u8)
    } else {
        None
    }
}

/// The inverse of the forms-style rule: `+` becomes a space, `%XX` becomes
/// the byte with hexadecimal value `XX`, and any other byte stands for
/// itself. `None` when a `%` is not followed by two hexadecimal digits.
pub open spec fn decode_bytes(s: Seq<u8>) -> Option<Seq<u8>>
    decreases s.len(),
{
    if s.len() == 0 {
        Some(Seq::empty())
    } else if s.first() == 0x25 {
        if s.len() >= 3 {
            match (hex_value(s[1]), hex_value(s[2]), decode_bytes(s.skip(3))) {
                (Some(h), Some(l), Some(rest)) => Some(seq![(h * 16 + l) as u8] + rest),
                _ => None,
            }
        } else {
            None
        }
    } else if s.first() == 0x2b {
        match decode_bytes(s.drop_first()) {
            Some(rest) => Some(seq![0x20u8] + rest),
            None => None,
        }
    } else {
        match decode_bytes(s.drop_first()) {
            Some(rest) => Some(seq![s.first()] + rest),
            None => None,
        }
    }
}

/// Law: decoding with the inverse rule undoes the forms-style encoding, for
/// every byte sequence.
pub proof fn lemma_decode_bytes_encode_bytes(s: Seq<u8>)
    ensures
        decode_bytes(encode_bytes(s)) == Some(s),
    decreases s.len(),
{
    if s.len() == 0 {
    } else {
        let b = s.first();
        let e = encode_bytes(s);
        let e2 = encode_bytes(s.drop_first());
        lemma_decode_bytes_encode_bytes(s.drop_first());
        assert(e == encode_byte(b) + e2);
        if is_unreserved_byte(b) {
            assert(e.first() == b);
            assert(e.drop_first() =~= e2);
            assert(seq![b] + s.drop_first() =~= s);
        } else if b == 0x20 {
            assert(e.first() == 0x2b);
            assert(e.drop_first() =~= e2);
            assert(seq![0x20u8] + s.drop_first() =~= s);
        } else {
            let h = b / 16;
            let l = b % 16;
            assert(e.len() >= 3);
            assert(e.first() == 0x25);
            assert(e[1] == upper_hex_digit(h));
            assert(e[2] == upper_hex_digit(l));
            assert(hex_value(upper_hex_digit(h)) == Some(h));
            assert(hex_value(upper_hex_digit(l)) == Some(l));
            assert(e.skip(3) =~= e2);
            assert(h * 16 + l == b);
            assert(seq![b] + s.drop_first() =~= s);
        }
    }
}

fn hex_value_exec(b: u8) -> (r: Option<u8>)
    ensures
        r == hex_value(b),
{
    if 0x30 <= b && b <= 0x39 {
        Some(b - 0x30)
    } else if 0x41 <= b && b <= 0x46 {
        Some(b - 0x41 + 10)
    } else if 0x61 <= b && b <= 0x66 {
        Some(b - 0x61 + 10)
    } else {
        None
    }
}

/// What [`decode_form_url`] returns: the decoded bytes of the text's UTF-8
/// encoding, read back as text; `None` when the input is not well-formed or
/// the decoded bytes are not valid UTF-8.
pub open spec fn decode_form_url_spec(s: Seq<char>) -> Option<Seq<char>> {
    match decode_bytes(encode_utf8(s)) {
        Some(d) => if valid_utf8(d) {
            Some(decode_utf8(d))
        } else {
            None
        },
        None => None,
    }
}

/// Decodes a forms-style percent-encoded string: `+` becomes a space and
/// `%XX` becomes the byte with hexadecimal value `XX`.
#[verifier::rlimit(50)]
pub fn decode_form_url(text: &str) -> (r: Option<String>)
    ensures
        r is Some <==> decode_form_url_spec(text@) is Some,
        r matches Some(out) ==> Some(out@) == decode_form_url_spec(text@),
{
    let bytes: &[u8] = text.as_bytes();
    let n: usize = bytes.len();
    let mut out: Vec<u8> = Vec::new();
    let mut i: usize = 0;
    proof {
        assert(bytes@.skip(0) =~= bytes@);
        match decode_bytes(bytes@) {
            Some(rest) => {
                assert(Seq::<u8>::empty() + rest =~= rest);
            },
            None => {},
        }
    }
    while i < n
        invariant
            i <= n,
            n == bytes@.len(),
            bytes@ == encode_utf8(text@),
            decode_bytes(bytes@) == (match decode_bytes(bytes@.skip(i as int)) {
                Some(rest) => Some(out@ + rest),
                None => None::<Seq<u8>>,
            }),
        decreases n - i,
    {
        let ghost prev = out@;
        let ghost tail = bytes@.skip(i as int);
        let b: u8 = bytes[i];
        proof {
            assert(tail.first() == b);
            assert(tail.drop_first() =~= bytes@.skip(i + 1));
        }
        if b == 0x25 {
            if n - i >= 3 {
                let h: Option<u8> = hex_value_exec(bytes[i + 1]);
                let l: Option<u8> = hex_value_exec(bytes[i + 2]);
                proof {
                    assert(tail[1] == bytes@[i + 1]);
                    assert(tail[2] == bytes@[i + 2]);
                    assert(tail.skip(3) =~= bytes@.skip(i + 3));
                }
                match (h, l) {
                    (Some(hv), Some(lv)) => {
                        out.push(hv * 16 + lv);
                        i = i + 3;
                        proof {
                            assert forall|rest: Seq<u8>|
                                decode_bytes(bytes@.skip(i as int)) == Some(
                                    rest,
                                ) implies prev + (seq![(hv * 16 + lv) as u8] + rest) =~= out@
                                + rest by {}
                        }
                    },
                    _ => {
                        return None;
                    },
                }
            } else {
                return None;
            }
        } else if b == 0x2b {
            out.push(0x20);
            i = i + 1;
            proof {
                assert forall|rest: Seq<u8>|
                    decode_bytes(bytes@.skip(i as int)) == Some(rest) implies prev + (seq![0x20u8]
                    + rest) =~= out@ + rest by {}
            }
        } else {
            out.push(b);
            i = i + 1;
            proof {
                assert forall|rest: Seq<u8>|
                    decode_bytes(bytes@.skip(i as int)) == Some(rest) implies prev + (seq![b]
                    + rest) =~= out@ + rest by {}
            }
        }
    }
    proof {
        assert(bytes@.skip(n as int) =~= Seq::<u8>::empty());
        assert(decode_bytes(bytes@) == Some(out@ + Seq::<u8>::empty()));
        assert(out@ + Seq::<u8>::empty() =~= out@);
    }
    string_from_utf8(out)
}

/// Law: decoding a percent-encoded string with the inverse rule reproduces
/// the original text exactly, for every input string.
pub proof fn lemma_form_url_round_trip(s: Seq<char>)
    ensures
        decode_form_url_spec(encode_form_url_spec(s)) == Some(s),
{
    let u = encode_utf8(s);
    let e = encode_bytes(u);
    lemma_encode_bytes_ascii(u);
    lemma_ascii_bytes_decode(e);
    assert(encode_utf8(encode_form_url_spec(s)) == e);
    lemma_decode_bytes_encode_bytes(u);
    encode_utf8_valid_utf8(s);
    encode_utf8_decode_utf8(s);
}

/// Percent-encodes a string with the forms-style rule, byte by byte over its
/// UTF-8 encoding.
pub fn encode_form_url_utf8(value: &str) -> (r: String)
    ensures
        r@ == encode_form_url_spec(value@),
{
    let bytes: &[u8] = value.as_bytes();
    let encoded: Vec<u8> = encode_form_url_bytes(bytes);
    proof {
        lemma_encode_bytes_ascii(bytes@);
        lemma_ascii_bytes_decode(encoded@);
    }
    match string_from_utf8(encoded) {
        Some(s) => s,
        None => {
            proof {
                assert(false);
            }
            String::new()
        },
    }
}

} // verus!
