//! Parameter collection and the canonical query string.
//!
//! Parameters arrive as `key=value` text tokens or from a JSON object; three
//! fixed fields (the operation name, the public API key and an optional
//! response-format selector) are appended, the combined list is sorted by
//! name using plain byte ordering, every name and value is percent-encoded
//! independently, and the `name=value` pairs are joined with `&`.

use crate::encode::{
    bytes_as_chars, encode_bytes, encode_form_url_bytes, lemma_encode_bytes_ascii,
    string_from_utf8,
};
use crate::order::{pair_order, pairs_view, sort_pairs};
use crate::ApplicationError;
use vstd::prelude::*;
use vstd::seq_lib::lemma_sorted_unique;
use vstd::string::StrSliceExecFns;
use vstd::utf8::encode_utf8;

verus! {

/// The response formats the remote API offers. The machine-readable format
/// is the default; `None` at the call sites below stands for the legacy
/// scheme that sends no format field at all.
#[derive(Clone, Copy, Debug, PartialEq, Eq, Structural)]
pub enum ResponseFormat {
    Json,
    Xml,
}

impl Default for ResponseFormat {
    /// The default response format is the machine-readable one.
    fn default() -> (r: Self)
        ensures
            r == ResponseFormat::Json,
    {
        ResponseFormat::Json
    }
}

/// The name of the fixed field that carries the operation name.
pub open spec fn spec_command_key() -> Seq<u8> {
    encode_utf8("command"@)
}

/// The name of the fixed field that carries the public API key.
pub open spec fn spec_apikey_key() -> Seq<u8> {
    encode_utf8("apikey"@)
}

/// The name of the fixed field that selects the response format.
pub open spec fn spec_response_key() -> Seq<u8> {
    encode_utf8("response"@)
}

/// The value sent in the response-format field.
pub open spec fn response_value(f: ResponseFormat) -> Seq<u8> {
    match f {
        ResponseFormat::Json => encode_utf8("json"@),
        ResponseFormat::Xml => encode_utf8("xml"@),
    }
}

fn response_value_exec(f: ResponseFormat) -> (r: Vec<u8>)
    ensures
        r@ == response_value(f),
{
    match f {
        ResponseFormat::Json => "json".as_bytes_vec(),
        ResponseFormat::Xml => "xml".as_bytes_vec(),
    }
}

/// Reads a response-format name: `json` and `xml` are the closed set of
/// accepted values, and anything else is rejected as a parameter error.
pub fn response_format_from_name(name: &str) -> (r: Result<ResponseFormat, ApplicationError>)
    ensures
        name@ == "json"@ ==> (r matches Ok(f) && f == ResponseFormat::Json),
        name@ == "xml"@ ==> (r matches Ok(f) && f == ResponseFormat::Xml),
        (name@ != "json"@ && name@ != "xml"@) ==> r is Err,
        r matches Err(e) ==> (e is ParameterError && name@ != "json"@ && name@ != "xml"@),
{
    proof {
        broadcast use vstd::string::group_string_axioms;

        reveal_strlit("json");
        reveal_strlit("xml");
        assert("json"@.len() == 4);
        assert("xml"@.len() == 3);
    }
    if crate::encode::str_eq(name, "json") {
        Ok(ResponseFormat::Json)
    } else if crate::encode::str_eq(name, "xml") {
        Ok(ResponseFormat::Xml)
    } else {
        Err(
            ApplicationError::ParameterError(
                crate::InvalidParameter::new("output-format", "unknown output format"),
            ),
        )
    }
}

/// One `name=value` pair with both sides percent-encoded.
pub open spec fn encode_pair(p: (Seq<u8>, Seq<u8>)) -> Seq<u8> {
    encode_bytes(p.0) + seq![0x3du8] + encode_bytes(p.1)
}

/// Encoded pairs joined with `&`, in the order given, with no trailing
/// separator.
pub open spec fn join_pairs(s: Seq<(Seq<u8>, Seq<u8>)>) -> Seq<u8>
    decreases s.len(),
{
    if s.len() == 0 {
        Seq::empty()
    } else if s.len() == 1 {
        encode_pair(s[0])
    } else {
        encode_pair(s[0]) + seq![0x26u8] + join_pairs(s.drop_first())
    }
}

pub proof fn lemma_join_pairs_push(s: Seq<(Seq<u8>, Seq<u8>)>, p: (Seq<u8>, Seq<u8>))
    ensures
        join_pairs(s.push(p)) == if s.len() == 0 {
            encode_pair(p)
        } else {
            join_pairs(s) + seq![0x26u8] + encode_pair(p)
        },
    decreases s.len(),
{
    if s.len() == 0 {
        assert(s.push(p).len() == 1);
        assert(s.push(p)[0] == p);
    } else {
        assert(s.push(p).first() == s.first());
        assert(s.push(p).drop_first() =~= s.drop_first().push(p));
        lemma_join_pairs_push(s.drop_first(), p);
        if s.len() == 1 {
            assert(join_pairs(s.push(p)) == encode_pair(s[0]) + seq![0x26u8] + encode_pair(p));
        } else {
            assert(join_pairs(s.push(p)) == encode_pair(s[0]) + seq![0x26u8] + (join_pairs(
                s.drop_first(),
            ) + seq![0x26u8] + encode_pair(p)));
            assert(encode_pair(s[0]) + seq![0x26u8] + (join_pairs(s.drop_first()) + seq![0x26u8]
                + encode_pair(p)) =~= (encode_pair(s[0]) + seq![0x26u8] + join_pairs(
                s.drop_first(),
            )) + seq![0x26u8] + encode_pair(p));
        }
    }
}

/// Every byte of a joined, encoded pair list is an ASCII byte.
pub proof fn lemma_join_pairs_ascii(s: Seq<(Seq<u8>, Seq<u8>)>)
    ensures
        forall|i: int| 0 <= i < join_pairs(s).len() ==> join_pairs(s)[i] < 0x80,
    decreases s.len(),
{
    if s.len() == 0 {
    } else {
        lemma_encode_bytes_ascii(s[0].0);
        lemma_encode_bytes_ascii(s[0].1);
        assert(forall|i: int|
            0 <= i < encode_pair(s[0]).len() ==> #[trigger] encode_pair(s[0])[i] < 0x80);
        if s.len() == 1 {
        } else {
            lemma_join_pairs_ascii(s.drop_first());
            let e = encode_pair(s[0]);
            let rest = join_pairs(s.drop_first());
            assert(join_pairs(s) == e + seq![0x26u8] + rest);
            assert forall|i: int| 0 <= i < join_pairs(s).len() implies join_pairs(s)[i]
                < 0x80 by {
                if i < e.len() {
                    assert(join_pairs(s)[i] == e[i]);
                } else if i == e.len() {
                    assert(join_pairs(s)[i] == 0x26);
                } else {
                    assert(join_pairs(s)[i] == rest[i - e.len() - 1]);
                }
            }
        }
    }
}

/// The parameter list with the three fixed fields appended: the operation
/// name under `command`, the public key under `apikey`, and — unless the
/// legacy scheme without it is chosen — the response format under
/// `response`.
pub open spec fn with_fixed_fields(
    params: Seq<(Seq<u8>, Seq<u8>)>,
    command: Seq<u8>,
    apikey: Seq<u8>,
    format: Option<ResponseFormat>,
) -> Seq<(Seq<u8>, Seq<u8>)> {
    let base = params.push((spec_command_key(), command)).push((spec_apikey_key(), apikey));
    match format {
        Some(f) => base.push((spec_response_key(), response_value(f))),
        None => base,
    }
}

/// The canonical query string, as bytes: fixed fields appended, the whole
/// list sorted, each name and value percent-encoded, pairs joined with `&`.
pub open spec fn canonical_query_bytes(
    params: Seq<(Seq<u8>, Seq<u8>)>,
    command: Seq<u8>,
    apikey: Seq<u8>,
    format: Option<ResponseFormat>,
) -> Seq<u8> {
    join_pairs(with_fixed_fields(params, command, apikey, format).sort_by(pair_order()))
}

/// The UTF-8 bytes of each parameter name and value.
pub open spec fn param_bytes_view(s: Seq<(String, String)>) -> Seq<(Seq<u8>, Seq<u8>)> {
    s.map(|i: int, p: (String, String)| (encode_utf8(p.0@), encode_utf8(p.1@)))
}

/// Law: the canonical query string is a function of its inputs alone —
/// built twice from the same parameters and fixed fields, it is the same
/// string.
pub proof fn lemma_canonical_query_deterministic(
    params1: Seq<(Seq<u8>, Seq<u8>)>,
    command1: Seq<u8>,
    apikey1: Seq<u8>,
    format1: Option<ResponseFormat>,
    params2: Seq<(Seq<u8>, Seq<u8>)>,
    command2: Seq<u8>,
    apikey2: Seq<u8>,
    format2: Option<ResponseFormat>,
)
    requires
        params1 == params2,
        command1 == command2,
        apikey1 == apikey2,
        format1 == format2,
    ensures
        canonical_query_bytes(params1, command1, apikey1, format1) == canonical_query_bytes(
            params2,
            command2,
            apikey2,
            format2,
        ),
{
}

/// Law: the canonical query string does not depend on the order the
/// parameters arrived in — any two arrangements of one and the same
/// parameter collection canonicalize to the same string.
pub proof fn lemma_canonical_query_order_independent(
    params1: Seq<(Seq<u8>, Seq<u8>)>,
    params2: Seq<(Seq<u8>, Seq<u8>)>,
    command: Seq<u8>,
    apikey: Seq<u8>,
    format: Option<ResponseFormat>,
)
    requires
        params1.to_multiset() == params2.to_multiset(),
    ensures
        canonical_query_bytes(params1, command, apikey, format) == canonical_query_bytes(
            params2,
            command,
            apikey,
            format,
        ),
{
    broadcast use vstd::seq_lib::group_to_multiset_ensures;

    let w1 = with_fixed_fields(params1, command, apikey, format);
    let w2 = with_fixed_fields(params2, command, apikey, format);
    assert(w1.to_multiset() == w2.to_multiset()) by {
        let c = (spec_command_key(), command);
        let a = (spec_apikey_key(), apikey);
        assert(params1.push(c).to_multiset() == params2.push(c).to_multiset());
        assert(params1.push(c).push(a).to_multiset() == params2.push(c).push(a).to_multiset());
        match format {
            Some(f) => {
                let rf = (spec_response_key(), response_value(f));
                assert(params1.push(c).push(a).push(rf).to_multiset() == params2.push(c).push(
                    a,
                ).push(rf).to_multiset());
            },
            None => {},
        }
    }
    crate::order::lemma_pair_order_total();
    w1.lemma_sort_by_ensures(pair_order());
    w2.lemma_sort_by_ensures(pair_order());
    lemma_sorted_unique(w1.sort_by(pair_order()), w2.sort_by(pair_order()), pair_order());
    assert(w1.sort_by(pair_order()) == w2.sort_by(pair_order()));
}

/// Builds the canonical query string: appends `command=<operation>`,
/// `apikey=<public key>` and, unless the legacy scheme is chosen, the
/// response-format field; sorts all fields by name (byte-wise, with the
/// value breaking a tie); percent-encodes every name and value; and joins
/// the pairs with `&`.
///
/// Pure and deterministic: the result is pinned, byte for byte, to a
/// function of the arguments. Callers should not supply two parameters with
/// the same name; the result is still defined (the value decides the order)
/// but the remote scheme gives such a request no meaning.
pub fn create_querystring(
    command: &str,
    apikey: &str,
    format: Option<ResponseFormat>,
    parameters: &Vec<(String, String)>,
) -> (r: String)
    ensures
        r@ == bytes_as_chars(
            canonical_query_bytes(
                param_bytes_view(parameters@),
                encode_utf8(command@),
                encode_utf8(apikey@),
                format,
            ),
        ),
{
    let ghost pview = param_bytes_view(parameters@);
    let mut pairs: Vec<(Vec<u8>, Vec<u8>)> = Vec::new();
    let n: usize = parameters.len();
    for i in 0..n
        invariant
            pairs_view(pairs@) == pview.take(i as int),
    {
        let name: Vec<u8> = parameters[i].0.as_str().as_bytes_vec();
        let value: Vec<u8> = parameters[i].1.as_str().as_bytes_vec();
        pairs.push((name, value));
        proof {
            assert(pairs_view(pairs@) =~= pview.take(i + 1));
        }
    }
    proof {
        assert(pview.take(n as int) =~= pview);
    }
    let ckey: Vec<u8> = "command".as_bytes_vec();
    let cval: Vec<u8> = command.as_bytes_vec();
    pairs.push((ckey, cval));
    let akey: Vec<u8> = "apikey".as_bytes_vec();
    let aval: Vec<u8> = apikey.as_bytes_vec();
    pairs.push((akey, aval));
    match format {
        Some(f) => {
            let rkey: Vec<u8> = "response".as_bytes_vec();
            let rval: Vec<u8> = response_value_exec(f);
            pairs.push((rkey, rval));
        },
        None => {},
    }
    proof {
        assert(pairs_view(pairs@) =~= with_fixed_fields(
            pview,
            encode_utf8(command@),
            encode_utf8(apikey@),
            format,
        ));
    }
    let sorted: Vec<(Vec<u8>, Vec<u8>)> = sort_pairs(pairs);
    let ghost sv = pairs_view(sorted@);
    let mut out: Vec<u8> = Vec::new();
    let m: usize = sorted.len();
    for i in 0..m
        invariant
            m == sorted@.len(),
            out@ == join_pairs(sv.take(i as int)),
    {
        if i > 0 {
            out.push(0x26);
        }
        let mut name_enc: Vec<u8> = encode_form_url_bytes(sorted[i].0.as_slice());
        out.append(&mut name_enc);
        out.push(0x3d);
        let mut value_enc: Vec<u8> = encode_form_url_bytes(sorted[i].1.as_slice());
        out.append(&mut value_enc);
        proof {
            assert(sv[i as int] == (sorted@[i as int].0@, sorted@[i as int].1@));
            assert(sv.take(i as int).push(sv[i as int]) =~= sv.take(i + 1));
            lemma_join_pairs_push(sv.take(i as int), sv[i as int]);
            assert(out@ =~= join_pairs(sv.take(i + 1)));
        }
    }
    proof {
        assert(sv.take(m as int) =~= sv);
        lemma_join_pairs_ascii(sv);
        crate::encode::lemma_ascii_bytes_decode(out@);
    }
    match string_from_utf8(out) {
        Some(s) => s,
        None => {
            proof {
                assert(false);
            }
            String::new()
        },
    }
}

/// What splitting one `key=value` token yields: the text before the first
/// `=` and everything after it; `None` for a token with no `=` at all.
pub open spec fn split_token(t: Seq<char>) -> Option<(Seq<char>, Seq<char>)>
    decreases t.len(),
{
    if t.len() == 0 {
        None
    } else if t.first() == '=' {
        Some((Seq::empty(), t.drop_first()))
    } else {
        match split_token(t.drop_first()) {
            Some(p) => Some((seq![t.first()] + p.0, p.1)),
            None => None,
        }
    }
}

/// The pairs a token list yields: one per token that contains `=`, split on
/// the first `=`; tokens without `=` are silently dropped.
pub open spec fn tokens_to_pairs(ts: Seq<Seq<char>>) -> Seq<(Seq<char>, Seq<char>)>
    decreases ts.len(),
{
    if ts.len() == 0 {
        Seq::empty()
    } else {
        (match split_token(ts.first()) {
            Some(p) => seq![p],
            None => Seq::empty(),
        }) + tokens_to_pairs(ts.drop_first())
    }
}

pub proof fn lemma_tokens_to_pairs_push(ts: Seq<Seq<char>>, t: Seq<char>)
    ensures
        tokens_to_pairs(ts.push(t)) == tokens_to_pairs(ts) + (match split_token(t) {
            Some(p) => seq![p],
            None => Seq::<(Seq<char>, Seq<char>)>::empty(),
        }),
    decreases ts.len(),
{
    let tail = (match split_token(t) {
        Some(p) => seq![p],
        None => Seq::<(Seq<char>, Seq<char>)>::empty(),
    });
    if ts.len() == 0 {
        assert(ts.push(t).len() == 1);
        assert(ts.push(t).first() == t);
        assert(ts.push(t).drop_first() =~= Seq::<Seq<char>>::empty());
        assert(tokens_to_pairs(ts.push(t)) == tail + tokens_to_pairs(Seq::<Seq<char>>::empty()));
        assert(tail + Seq::<(Seq<char>, Seq<char>)>::empty() =~= Seq::<(
            Seq<char>,
            Seq<char>,
        )>::empty() + tail);
    } else {
        let head = (match split_token(ts.first()) {
            Some(p) => seq![p],
            None => Seq::<(Seq<char>, Seq<char>)>::empty(),
        });
        assert(ts.push(t).first() == ts.first());
        assert(ts.push(t).drop_first() =~= ts.drop_first().push(t));
        lemma_tokens_to_pairs_push(ts.drop_first(), t);
        assert(tokens_to_pairs(ts.push(t)) == head + (tokens_to_pairs(ts.drop_first()) + tail));
        assert(head + (tokens_to_pairs(ts.drop_first()) + tail) =~= (head + tokens_to_pairs(
            ts.drop_first(),
        )) + tail);
    }
}

proof fn lemma_split_token_at(t: Seq<char>, i: int)
    requires
        0 <= i < t.len(),
        t[i] == '=',
        forall|j: int| 0 <= j < i ==> t[j] != '=',
    ensures
        split_token(t) == Some((t.subrange(0, i), t.subrange(i + 1, t.len() as int))),
    decreases i,
{
    if i == 0 {
        assert(t.first() == '=');
        assert(t.subrange(0, 0) =~= Seq::<char>::empty());
        assert(t.drop_first() =~= t.subrange(1, t.len() as int));
    } else {
        assert(t.first() != '=');
        let d = t.drop_first();
        assert(d[i - 1] == t[i]);
        assert(forall|j: int| 0 <= j < i - 1 ==> #[trigger] d[j] == t[j + 1]);
        lemma_split_token_at(d, i - 1);
        assert(seq![t.first()] + d.subrange(0, i - 1) =~= t.subrange(0, i));
        assert(d.subrange(i - 1 + 1, d.len() as int) =~= t.subrange(i + 1, t.len() as int));
    }
}

proof fn lemma_split_token_none(t: Seq<char>)
    requires
        forall|j: int| 0 <= j < t.len() ==> t[j] != '=',
    ensures
        split_token(t) is None,
    decreases t.len(),
{
    if t.len() == 0 {
    } else {
        assert(forall|j: int|
            0 <= j < t.drop_first().len() ==> #[trigger] t.drop_first()[j] == t[j + 1]);
        lemma_split_token_none(t.drop_first());
    }
}

/// The text of each collected name/value pair.
pub open spec fn pairs_text_view(s: Seq<(String, String)>) -> Seq<(Seq<char>, Seq<char>)> {
    s.map(|i: int, p: (String, String)| (p.0@, p.1@))
}

/// The text of each token in a token list.
pub open spec fn strs_view(s: Seq<&str>) -> Seq<Seq<char>> {
    s.map(|i: int, t: &str| t@)
}

/// Splits one token at its first `=`; `None` when it has no `=`.
fn split_one_token(token: &str) -> (r: Option<(String, String)>)
    ensures
        r is Some <==> split_token(token@) is Some,
        r matches Some(p) ==> Some((p.0@, p.1@)) == split_token(token@),
{
    let n: usize = token.unicode_len();
    let mut i: usize = 0;
    while i < n
        invariant
            i <= n,
            n == token@.len(),
            forall|t: int| 0 <= t < i ==> token@[t] != '=',
        decreases n - i,
    {
        let c: char = token.get_char(i);
        if c == '=' {
            let name: &str = token.substring_char(0, i);
            let value: &str = token.substring_char(i + 1, n);
            proof {
                lemma_split_token_at(token@, i as int);
            }
            return Some((name.to_owned(), value.to_owned()));
        }
        i = i + 1;
    }
    proof {
        lemma_split_token_none(token@);
    }
    None
}

/// Collects name/value pairs from `key=value` tokens. A token without `=`
/// is silently dropped; a token is split at its first `=` only, so values
/// may themselves contain `=`. Never fails; the `Result` mirrors the other
/// collectors.
pub fn get_keyvalue_from_strings(elements: &[&str]) -> (r: Result<
    Vec<(String, String)>,
    ApplicationError,
>)
    ensures
        r matches Ok(v) && pairs_text_view(v@) == tokens_to_pairs(strs_view(elements@)),
{
    let ghost tview = strs_view(elements@);
    let mut out: Vec<(String, String)> = Vec::new();
    let n: usize = elements.len();
    for idx in 0..n
        invariant
            n == elements@.len(),
            pairs_text_view(out@) == tokens_to_pairs(tview.take(idx as int)),
    {
        let token: &str = elements[idx];
        proof {
            assert(tview.take(idx as int).push(tview[idx as int]) =~= tview.take(idx + 1));
            lemma_tokens_to_pairs_push(tview.take(idx as int), tview[idx as int]);
        }
        match split_one_token(token) {
            Some(p) => {
                out.push(p);
                proof {
                    assert(pairs_text_view(out@) =~= tokens_to_pairs(tview.take(idx + 1)));
                }
            },
            None => {
                proof {
                    assert(pairs_text_view(out@) =~= tokens_to_pairs(tview.take(idx + 1)));
                }
            },
        }
    }
    proof {
        assert(tview.take(n as int) =~= tview);
    }
    Ok(out)
}

} // verus!
