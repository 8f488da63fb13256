//! The signature engine: derives the signature input from the canonical
//! query string and computes the percent-encoded, base64-coded HMAC-SHA1
//! signature over it.
//!
//! The derivation lower-cases the string, replaces `+` with `%20`, and then
//! unescapes `%2a`, `%5b`, `%5d` and `%2e` to `*`, `[`, `]` and `.`. The
//! `+`→`%20` step comes first on purpose: the `%20` it introduces matches
//! none of the later patterns, so the order is safe, but fixing it removes
//! any doubt.

use crate::encode::{
    bytes_as_chars, encode_bytes, encode_form_url_bytes, lemma_ascii_bytes_decode,
    lemma_encode_bytes_ascii, string_from_utf8,
};
use crate::{ApplicationError, GenericError};
use vstd::prelude::*;
use vstd::utf8::{decode_utf8, encode_utf8, valid_utf8};

verus! {

/// ASCII lower-casing of one byte: `A` through `Z` gain 0x20, every other
/// byte is unchanged. The canonical query string is ASCII, so on its domain
/// this is exactly text lower-casing.
pub open spec fn lower_byte(b: u8) -> u8 {
    if 0x41 <= b && b <= 0x5a {
        (b + 0x20) as u8
    } else {
        b
    }
}

/// Byte-wise lower-casing of a byte sequence.
pub open spec fn lower_bytes(s: Seq<u8>) -> Seq<u8> {
    s.map(|i: int, b: u8| lower_byte(b))
}

/// Replaces every occurrence of `pat` in `s` with `rep`, scanning left to
/// right and never rescanning replaced text — the usual semantics of string
/// replacement.
pub open spec fn replace_bytes(s: Seq<u8>, pat: Seq<u8>, rep: Seq<u8>) -> Seq<u8>
    recommends
        pat.len() > 0,
    decreases s.len(),
{
    if s.len() == 0 {
        Seq::empty()
    } else if 0 < pat.len() <= s.len() && s.take(pat.len() as int) == pat {
        rep + replace_bytes(s.skip(pat.len() as int), pat, rep)
    } else {
        seq![s.first()] + replace_bytes(s.drop_first(), pat, rep)
    }
}

/// The signature input: the query string lower-cased, `+` turned into
/// `%20`, then the asterisk, bracket and dot escapes turned back into their
/// literal characters. Only the lower-case escape spellings need matching,
/// because the string was lower-cased first.
pub open spec fn signature_input_spec(q: Seq<u8>) -> Seq<u8> {
    let a = replace_bytes(lower_bytes(q), seq![0x2bu8], seq![0x25u8, 0x32u8, 0x30u8]);
    let b = replace_bytes(a, seq![0x25u8, 0x32u8, 0x61u8], seq![0x2au8]);
    let c = replace_bytes(b, seq![0x25u8, 0x35u8, 0x62u8], seq![0x5bu8]);
    let d = replace_bytes(c, seq![0x25u8, 0x35u8, 0x64u8], seq![0x5du8]);
    replace_bytes(d, seq![0x25u8, 0x32u8, 0x65u8], seq![0x2eu8])
}

/// True when `pat` occurs in `s` at position `i`.
pub open spec fn occurs_at(s: Seq<u8>, pat: Seq<u8>, i: int) -> bool {
    0 <= i && i + pat.len() <= s.len() && s.subrange(i, i + pat.len()) == pat
}

/// Replacement leaves a string in which the pattern never occurs unchanged.
pub proof fn lemma_replace_bytes_none(s: Seq<u8>, pat: Seq<u8>, rep: Seq<u8>)
    requires
        pat.len() > 0,
        forall|i: int| !occurs_at(s, pat, i),
    ensures
        replace_bytes(s, pat, rep) == s,
    decreases s.len(),
{
    if s.len() > 0 {
        assert(!occurs_at(s, pat, 0));
        if pat.len() <= s.len() {
            assert(s.take(pat.len() as int) == s.subrange(0, pat.len() as int));
        }
        assert forall|i: int| !occurs_at(s.drop_first(), pat, i) by {
            if occurs_at(s.drop_first(), pat, i) {
                assert(s.subrange(i + 1, i + 1 + pat.len()) =~= s.drop_first().subrange(
                    i,
                    i + pat.len(),
                ));
                assert(occurs_at(s, pat, i + 1));
            }
        }
        lemma_replace_bytes_none(s.drop_first(), pat, rep);
        assert(seq![s.first()] + s.drop_first() =~= s);
    }
}

/// Replacement walks unchanged over a prefix in which the pattern does not
/// start.
pub proof fn lemma_replace_bytes_prefix(p: Seq<u8>, rest: Seq<u8>, pat: Seq<u8>, rep: Seq<u8>)
    requires
        pat.len() > 0,
        forall|i: int| 0 <= i < p.len() ==> !occurs_at(p + rest, pat, i),
    ensures
        replace_bytes(p + rest, pat, rep) == p + replace_bytes(rest, pat, rep),
    decreases p.len(),
{
    let s = p + rest;
    if p.len() == 0 {
        assert(s =~= rest);
        assert(p + replace_bytes(rest, pat, rep) =~= replace_bytes(rest, pat, rep));
    } else {
        assert(!occurs_at(s, pat, 0));
        if pat.len() <= s.len() {
            assert(s.take(pat.len() as int) == s.subrange(0, pat.len() as int));
        }
        assert(s.first() == p.first());
        assert(s.drop_first() =~= p.drop_first() + rest);
        assert forall|i: int|
            0 <= i < p.drop_first().len() implies !occurs_at(
            p.drop_first() + rest,
            pat,
            i,
        ) by {
            assert(p.drop_first() + rest =~= s.drop_first());
            if occurs_at(s.drop_first(), pat, i) {
                assert(s.subrange(i + 1, i + 1 + pat.len()) =~= s.drop_first().subrange(
                    i,
                    i + pat.len(),
                ));
                assert(occurs_at(s, pat, i + 1));
            }
        }
        lemma_replace_bytes_prefix(p.drop_first(), rest, pat, rep);
        assert(seq![p.first()] + (p.drop_first() + replace_bytes(rest, pat, rep)) =~= p
            + replace_bytes(rest, pat, rep));
    }
}

/// Replacement fires on a pattern standing at the front.
pub proof fn lemma_replace_bytes_hit(suffix: Seq<u8>, pat: Seq<u8>, rep: Seq<u8>)
    requires
        pat.len() > 0,
    ensures
        replace_bytes(pat + suffix, pat, rep) == rep + replace_bytes(suffix, pat, rep),
{
    let s = pat + suffix;
    assert(s.len() > 0);
    assert(s.take(pat.len() as int) =~= pat);
    assert(s.skip(pat.len() as int) =~= suffix);
}

fn lower_bytes_exec(v: &[u8]) -> (r: Vec<u8>)
    ensures
        r@ == lower_bytes(v@),
{
    let mut out: Vec<u8> = Vec::new();
    let n: usize = v.len();
    for i in 0..n
        invariant
            n == v@.len(),
            out@.len() == i,
            forall|t: int| 0 <= t < i ==> out@[t] == lower_byte(v@[t]),
    {
        let b: u8 = v[i];
        if 0x41 <= b && b <= 0x5a {
            out.push(b + 0x20);
        } else {
            out.push(b);
        }
    }
    proof {
        assert(out@ =~= lower_bytes(v@));
    }
    out
}

/// True when `pat` occurs in `s` at position `i`.
fn has_pattern_at(s: &[u8], i: usize, pat: &[u8]) -> (r: bool)
    requires
        i <= s@.len(),
    ensures
        r == (pat@.len() <= s@.len() - i && s@.skip(i as int).take(pat@.len() as int) == pat@),
{
    let n: usize = s.len();
    let m: usize = pat.len();
    if n - i < m {
        return false;
    }
    let mut j: usize = 0;
    while j < m
        invariant
            j <= m,
            m == pat@.len(),
            n == s@.len(),
            i + m <= n,
            forall|t: int| 0 <= t < j ==> s@[i + t] == pat@[t],
        decreases m - j,
    {
        if s[i + j] != pat[j] {
            proof {
                let w = s@.skip(i as int).take(m as int);
                assert(w[j as int] == s@[i + j]);
                if w == pat@ {
                    assert(w[j as int] == pat@[j as int]);
                    assert(false);
                }
            }
            return false;
        }
        j = j + 1;
    }
    proof {
        assert(s@.skip(i as int).take(m as int) =~= pat@);
    }
    true
}

fn replace_bytes_exec(s: &[u8], pat: &[u8], rep: &[u8]) -> (r: Vec<u8>)
    requires
        pat@.len() > 0,
    ensures
        r@ == replace_bytes(s@, pat@, rep@),
{
    let mut out: Vec<u8> = Vec::new();
    let n: usize = s.len();
    let m: usize = pat.len();
    let mut i: usize = 0;
    proof {
        assert(s@.skip(0) =~= s@);
    }
    while i < n
        invariant
            i <= n,
            n == s@.len(),
            m == pat@.len(),
            replace_bytes(s@, pat@, rep@) == out@ + replace_bytes(s@.skip(i as int), pat@, rep@),
        decreases n - i,
    {
        let ghost prev = out@;
        let ghost tail = s@.skip(i as int);
        if has_pattern_at(s, i, pat) {
            out.extend_from_slice(rep);
            i = i + m;
            proof {
                assert(tail.skip(m as int) =~= s@.skip(i as int));
                assert(replace_bytes(tail, pat@, rep@) == rep@ + replace_bytes(
                    s@.skip(i as int),
                    pat@,
                    rep@,
                ));
                assert(prev + (rep@ + replace_bytes(s@.skip(i as int), pat@, rep@)) =~= out@
                    + replace_bytes(s@.skip(i as int), pat@, rep@));
            }
        } else {
            let b: u8 = s[i];
            out.push(b);
            i = i + 1;
            proof {
                assert(tail.first() == b);
                assert(tail.drop_first() =~= s@.skip(i as int));
                assert(replace_bytes(tail, pat@, rep@) == seq![b] + replace_bytes(
                    s@.skip(i as int),
                    pat@,
                    rep@,
                ));
                assert(prev + (seq![b] + replace_bytes(s@.skip(i as int), pat@, rep@)) =~= out@
                    + replace_bytes(s@.skip(i as int), pat@, rep@));
            }
        }
    }
    proof {
        assert(s@.skip(n as int) =~= Seq::<u8>::empty());
        assert(out@ + Seq::<u8>::empty() =~= out@);
    }
    out
}

fn byte1(a: u8) -> (r: Vec<u8>)
    ensures
        r@ == seq![a],
{
    let mut v: Vec<u8> = Vec::new();
    v.push(a);
    proof {
        assert(v@ =~= seq![a]);
    }
    v
}

fn byte3(a: u8, b: u8, c: u8) -> (r: Vec<u8>)
    ensures
        r@ == seq![a, b, c],
{
    let mut v: Vec<u8> = Vec::new();
    v.push(a);
    v.push(b);
    v.push(c);
    proof {
        assert(v@ =~= seq![a, b, c]);
    }
    v
}

fn signature_input_exec(q: &[u8]) -> (r: Vec<u8>)
    ensures
        r@ == signature_input_spec(q@),
{
    let lowered: Vec<u8> = lower_bytes_exec(q);
    let plus: Vec<u8> = byte1(0x2b);
    let pct20: Vec<u8> = byte3(0x25, 0x32, 0x30);
    let a: Vec<u8> = replace_bytes_exec(lowered.as_slice(), plus.as_slice(), pct20.as_slice());
    let pat_star: Vec<u8> = byte3(0x25, 0x32, 0x61);
    let star: Vec<u8> = byte1(0x2a);
    let b: Vec<u8> = replace_bytes_exec(a.as_slice(), pat_star.as_slice(), star.as_slice());
    let pat_lbr: Vec<u8> = byte3(0x25, 0x35, 0x62);
    let lbr: Vec<u8> = byte1(0x5b);
    let c: Vec<u8> = replace_bytes_exec(b.as_slice(), pat_lbr.as_slice(), lbr.as_slice());
    let pat_rbr: Vec<u8> = byte3(0x25, 0x35, 0x64);
    let rbr: Vec<u8> = byte1(0x5d);
    let d: Vec<u8> = replace_bytes_exec(c.as_slice(), pat_rbr.as_slice(), rbr.as_slice());
    let pat_dot: Vec<u8> = byte3(0x25, 0x32, 0x65);
    let dot: Vec<u8> = byte1(0x2e);
    replace_bytes_exec(d.as_slice(), pat_dot.as_slice(), dot.as_slice())
}

/// What HMAC-SHA1 returns for a key and a message. Named only: the digest
/// depends on the two arguments alone.
pub uninterp spec fn hmac_sha1_of(key: Seq<u8>, message: Seq<u8>) -> Seq<u8>;

/// Relies on `crypto::hmac::Hmac` over `crypto::sha1::Sha1`: the HMAC-SHA1
/// digest of `message` keyed by the raw bytes of `key`. A SHA-1 digest is
/// 20 bytes.
#[verifier::external_body]
fn hmac_sha1(key: &[u8], message: &[u8]) -> (r: Vec<u8>)
    ensures
        r@ == hmac_sha1_of(key@, message@),
        r@.len() == 20,
{
    let mut hmac = crypto::hmac::Hmac::new(crypto::sha1::Sha1::new(), key);
    crypto::mac::Mac::input(&mut hmac, message);
    Vec::from(crypto::mac::Mac::result(&mut hmac).code())
}

/// What base64 encoding returns for a byte sequence. Named: the text, as
/// bytes, is a function of the input alone.
pub uninterp spec fn base64_of(bytes: Seq<u8>) -> Seq<u8>;

/// True for the bytes base64 text is made of: ASCII letters, digits, `+`,
/// `/`, and the `=` padding.
pub open spec fn is_base64_byte(b: u8) -> bool {
    (0x41 <= b && b <= 0x5a) || (0x61 <= b && b <= 0x7a) || (0x30 <= b && b <= 0x39) || b == 0x2b
        || b == 0x2f || b == 0x3d
}

/// Relies on `base64::encode`: the standard alphabet with `=` padding, four
/// output characters for every three input bytes, rounded up.
#[verifier::external_body]
fn base64_encode(bytes: &[u8]) -> (r: Vec<u8>)
    ensures
        r@ == base64_of(bytes@),
        r@.len() == ((bytes@.len() + 2) / 3) * 4,
        forall|i: int| 0 <= i < r@.len() ==> is_base64_byte(#[trigger] r@[i]),
{
    base64::encode(bytes).into_bytes()
}

/// The signature, as bytes: the percent-encoded base64 text of the
/// HMAC-SHA1 digest of the signature input, keyed by the secret key.
pub open spec fn signature_spec(query: Seq<u8>, key: Seq<u8>) -> Seq<u8> {
    encode_bytes(base64_of(hmac_sha1_of(key, signature_input_spec(query))))
}

/// Law: the signature is a pure function of the canonical string and the
/// secret key — the same two inputs always yield the same signature.
pub proof fn lemma_signature_deterministic(q1: Seq<u8>, k1: Seq<u8>, q2: Seq<u8>, k2: Seq<u8>)
    requires
        q1 == q2,
        k1 == k2,
    ensures
        signature_spec(q1, k1) == signature_spec(q2, k2),
{
}

/// Law: the signature input derived from `A+B%2Ac` is `a%20b*c` — the
/// lower-casing gives `a+b%2ac`, the `+` becomes `%20` before the escape
/// substitutions, and only then does `%2a` become `*` — and the derived
/// string is a fixed point of the derivation, so the two strings sign to
/// the same token under every secret key.
pub proof fn lemma_signature_input_scenario()
    ensures
        signature_input_spec(encode_utf8("A+B%2Ac"@)) == encode_utf8("a%20b*c"@),
        signature_input_spec(encode_utf8("a%20b*c"@)) == encode_utf8("a%20b*c"@),
        forall|k: Seq<u8>|
            signature_spec(encode_utf8("A+B%2Ac"@), k) == #[trigger] signature_spec(
                encode_utf8("a%20b*c"@),
                k,
            ),
{
    broadcast use vstd::string::group_string_axioms;

    reveal_strlit("A+B%2Ac");
    reveal_strlit("a%20b*c");
    let c1 = "A+B%2Ac"@;
    let c2 = "a%20b*c"@;
    let q1 = seq![0x41u8, 0x2b, 0x42, 0x25, 0x32, 0x41, 0x63];
    let q2 = seq![0x61u8, 0x25, 0x32, 0x30, 0x62, 0x2a, 0x63];
    assert(vstd::utf8::is_ascii_chars(c1));
    assert(vstd::utf8::is_ascii_chars(c2));
    vstd::utf8::is_ascii_chars_encode_utf8(c1);
    vstd::utf8::is_ascii_chars_encode_utf8(c2);
    assert(encode_utf8(c1) =~= q1);
    assert(encode_utf8(c2) =~= q2);
    lemma_signature_input_on_scenario_bytes();
    assert forall|k: Seq<u8>|
        signature_spec(encode_utf8(c1), k) == #[trigger] signature_spec(encode_utf8(c2), k) by {
        assert(signature_input_spec(encode_utf8(c1)) == signature_input_spec(encode_utf8(c2)));
    }
}

/// The byte-level computation behind [`lemma_signature_input_scenario`]:
/// the derivation on the UTF-8 bytes of `A+B%2Ac` yields the bytes of
/// `a%20b*c`, which the derivation maps to themselves.
proof fn lemma_signature_input_on_scenario_bytes()
    ensures
        signature_input_spec(seq![0x41u8, 0x2b, 0x42, 0x25, 0x32, 0x41, 0x63]) == seq![
            0x61u8,
            0x25,
            0x32,
            0x30,
            0x62,
            0x2a,
            0x63,
        ],
        signature_input_spec(seq![0x61u8, 0x25, 0x32, 0x30, 0x62, 0x2a, 0x63]) == seq![
            0x61u8,
            0x25,
            0x32,
            0x30,
            0x62,
            0x2a,
            0x63,
        ],
{
    let q1 = seq![0x41u8, 0x2b, 0x42, 0x25, 0x32, 0x41, 0x63];
    let q2 = seq![0x61u8, 0x25, 0x32, 0x30, 0x62, 0x2a, 0x63];
    let plus = seq![0x2bu8];
    let pct20 = seq![0x25u8, 0x32u8, 0x30u8];
    let pat_star = seq![0x25u8, 0x32u8, 0x61u8];
    let star = seq![0x2au8];
    let pat_lbr = seq![0x25u8, 0x35u8, 0x62u8];
    let lbr = seq![0x5bu8];
    let pat_rbr = seq![0x25u8, 0x35u8, 0x64u8];
    let rbr = seq![0x5du8];
    let pat_dot = seq![0x25u8, 0x32u8, 0x65u8];
    let dot = seq![0x2eu8];
    // Lower-casing: A and the second A gain 0x20; the rest is unchanged.
    let la = seq![0x61u8, 0x2b, 0x62, 0x25, 0x32, 0x61, 0x63];
    assert(lower_bytes(q1) =~= la);
    // First pass, + to %20: la is "a", then "+", then "b%2ac".
    let pa = seq![0x61u8];
    let rest1 = seq![0x62u8, 0x25, 0x32, 0x61, 0x63];
    assert(la =~= pa + (plus + rest1));
    assert forall|i: int| 0 <= i < pa.len() implies !occurs_at(pa + (plus + rest1), plus, i) by {
        let s = pa + (plus + rest1);
        if occurs_at(s, plus, i) {
            assert(s.subrange(i, i + 1)[0] == s[i]);
            assert(s[0] == 0x61);
        }
    }
    lemma_replace_bytes_prefix(pa, plus + rest1, plus, pct20);
    lemma_replace_bytes_hit(rest1, plus, pct20);
    assert forall|i: int| !occurs_at(rest1, plus, i) by {
        if occurs_at(rest1, plus, i) {
            assert(rest1.subrange(i, i + 1)[0] == rest1[i]);
        }
    }
    lemma_replace_bytes_none(rest1, plus, pct20);
    let t1 = seq![0x61u8, 0x25, 0x32, 0x30, 0x62, 0x25, 0x32, 0x61, 0x63];
    assert(pa + (pct20 + rest1) =~= t1);
    assert(replace_bytes(la, plus, pct20) == t1);
    // Second pass, %2a to *: t1 is "a%20b", then "%2a", then "c".
    let p2 = seq![0x61u8, 0x25, 0x32, 0x30, 0x62];
    let rest2 = seq![0x63u8];
    assert(t1 =~= p2 + (pat_star + rest2));
    assert forall|i: int|
        0 <= i < p2.len() implies !occurs_at(p2 + (pat_star + rest2), pat_star, i) by {
        let s = p2 + (pat_star + rest2);
        if occurs_at(s, pat_star, i) {
            assert(s.subrange(i, i + 3)[0] == s[i]);
            assert(s.subrange(i, i + 3)[1] == s[i + 1]);
            assert(s.subrange(i, i + 3)[2] == s[i + 2]);
        }
    }
    lemma_replace_bytes_prefix(p2, pat_star + rest2, pat_star, star);
    lemma_replace_bytes_hit(rest2, pat_star, star);
    assert forall|i: int| !occurs_at(rest2, pat_star, i) by {}
    lemma_replace_bytes_none(rest2, pat_star, star);
    assert(p2 + (star + rest2) =~= q2);
    assert(replace_bytes(t1, pat_star, star) == q2);
    // The remaining passes find no bracket or dot escape in "a%20b*c".
    lemma_scenario_bytes_fixed(q2, pat_lbr, lbr);
    lemma_scenario_bytes_fixed(q2, pat_rbr, rbr);
    lemma_scenario_bytes_fixed(q2, pat_dot, dot);
    assert(signature_input_spec(q1) == q2);
    // "a%20b*c" is a fixed point: no upper-case byte, no +, no escapes that
    // any pass matches.
    assert(lower_bytes(q2) =~= q2);
    assert forall|i: int| !occurs_at(q2, plus, i) by {
        if occurs_at(q2, plus, i) {
            assert(q2.subrange(i, i + 1)[0] == q2[i]);
        }
    }
    lemma_replace_bytes_none(q2, plus, pct20);
    lemma_scenario_bytes_fixed(q2, pat_star, star);
    assert(signature_input_spec(q2) == q2);
}

/// The only escape in the bytes of `a%20b*c` is `%20`, so a pass over a
/// three-byte pattern that starts with `%` and does not end in `0` leaves
/// them unchanged.
proof fn lemma_scenario_bytes_fixed(q: Seq<u8>, pat: Seq<u8>, rep: Seq<u8>)
    requires
        q == seq![0x61u8, 0x25, 0x32, 0x30, 0x62, 0x2a, 0x63],
        pat.len() == 3,
        pat[0] == 0x25,
        pat[2] != 0x30,
    ensures
        replace_bytes(q, pat, rep) == q,
{
    assert forall|i: int| !occurs_at(q, pat, i) by {
        if occurs_at(q, pat, i) {
            assert(q.subrange(i, i + 3)[0] == q[i]);
            assert(q.subrange(i, i + 3)[2] == q[i + 2]);
        }
    }
    lemma_replace_bytes_none(q, pat, rep);
}

/// Derives the signature input from a query string, as text: lower-cased,
/// `+` replaced by `%20`, then `%2a`, `%5b`, `%5d` and `%2e` unescaped.
/// `None` when the derived bytes are not valid UTF-8, which cannot happen
/// for an ASCII query string such as a canonical query string.
pub fn derive_signature_input(query_string: &str) -> (r: Option<String>)
    ensures
        r is Some <==> valid_utf8(signature_input_spec(encode_utf8(query_string@))),
        r matches Some(s) ==> s@ == decode_utf8(signature_input_spec(encode_utf8(query_string@))),
{
    let q: &[u8] = query_string.as_bytes();
    let input: Vec<u8> = signature_input_exec(q);
    string_from_utf8(input)
}

/// Computes the request signature for a canonical query string: derives the
/// signature input, computes HMAC-SHA1 over its bytes keyed by the secret
/// key, base64-codes the digest, and percent-encodes that text with the
/// forms-style rule.
///
/// Never fails, for any query string and any secret key — an empty secret
/// key is accepted and signed with; the `Result` mirrors the original
/// interface. The digest under the name is 20 bytes and its base64 text is
/// 28 bytes of the base64 alphabet, so the token is the percent-encoding of
/// padded standard base64 text.
pub fn get_signature(query_string: &str, secret_key: &str) -> (r: Result<
    String,
    ApplicationError,
>)
    ensures
        r matches Ok(s) && s@ == bytes_as_chars(
            signature_spec(encode_utf8(query_string@), encode_utf8(secret_key@)),
        ),
        ({
            let digest = hmac_sha1_of(
                encode_utf8(secret_key@),
                signature_input_spec(encode_utf8(query_string@)),
            );
            digest.len() == 20 && base64_of(digest).len() == 28 && (forall|i: int|
                0 <= i < base64_of(digest).len() ==> is_base64_byte(#[trigger] base64_of(digest)[i]))
        }),
{
    let q: &[u8] = query_string.as_bytes();
    let input: Vec<u8> = signature_input_exec(q);
    let digest: Vec<u8> = hmac_sha1(secret_key.as_bytes(), input.as_slice());
    let b64: Vec<u8> = base64_encode(digest.as_slice());
    let encoded: Vec<u8> = encode_form_url_bytes(b64.as_slice());
    proof {
        lemma_encode_bytes_ascii(b64@);
        lemma_ascii_bytes_decode(encoded@);
    }
    match string_from_utf8(encoded) {
        Some(s) => Ok(s),
        None => {
            proof {
                assert(false);
            }
            Err(ApplicationError::IoError(GenericError::new("", "")))
        },
    }
}

} // verus!
