use idcf_client::keyvalue::{create_querystring, ResponseFormat};
use idcf_client::signature::{derive_signature_input, get_signature};

#[test]
fn signature_input_lowercases_then_substitutes() {
    // Lower-casing gives a+b%2ac, the plus becomes %20, then %2a becomes *.
    assert_eq!(derive_signature_input("A+B%2Ac"), Some("a%20b*c".to_owned()));
}

#[test]
fn signature_input_unescapes_brackets_and_dots() {
    assert_eq!(derive_signature_input("%5Bx%5D"), Some("[x]".to_owned()));
    assert_eq!(derive_signature_input("a%2Eb"), Some("a.b".to_owned()));
}

#[test]
fn signature_input_replaces_plus_before_unescaping() {
    assert_eq!(derive_signature_input("X+Y"), Some("x%20y".to_owned()));
    assert_eq!(derive_signature_input(""), Some("".to_owned()));
}

#[test]
fn the_derived_input_is_a_fixed_point_of_the_derivation() {
    assert_eq!(derive_signature_input("a%20b*c"), Some("a%20b*c".to_owned()));
}

#[test]
fn a_string_and_its_derived_input_sign_identically() {
    for key in ["", "secret", "another key"] {
        assert_eq!(
            get_signature("A+B%2Ac", key).unwrap(),
            get_signature("a%20b*c", key).unwrap()
        );
    }
}

#[test]
fn signature_of_empty_input_and_empty_key_matches_the_known_digest() {
    // HMAC-SHA1 with an empty key over an empty message is the well-known
    // digest fbdb1d1b18aa6c08324b7d64b71fb76370690e1d; base64-coded it is
    // +9sdGxiqbAgyS31ktx+3Y3BpDh0= and the forms-style encoding escapes the
    // two pluses and the padding.
    let token = get_signature("", "").unwrap();
    assert_eq!(token, "%2B9sdGxiqbAgyS31ktx%2B3Y3BpDh0%3D");
}

#[test]
fn an_empty_secret_key_still_yields_a_wellformed_token() {
    let params: Vec<(String, String)> = Vec::new();
    let qs = create_querystring("listZones", "AK123", Some(ResponseFormat::Json), &params);
    let token = get_signature(&qs, "").unwrap();
    assert!(!token.is_empty());
    assert_percent_encoded_base64(&token);
}

#[test]
fn signing_twice_yields_the_same_token() {
    let qs = "apikey=AK123&command=listZones&response=json";
    let first = get_signature(qs, "secret").unwrap();
    let second = get_signature(qs, "secret").unwrap();
    assert_eq!(first, second);
}

#[test]
fn changing_the_query_or_the_key_changes_the_token() {
    let base = get_signature("apikey=AK123&command=listZones", "secret").unwrap();
    let other_query = get_signature("apikey=AK124&command=listZones", "secret").unwrap();
    let other_key = get_signature("apikey=AK123&command=listZones", "secres").unwrap();
    assert_ne!(base, other_query);
    assert_ne!(base, other_key);
}

#[test]
fn every_signature_token_is_percent_encoded_base64() {
    for key in ["", "k", "a longer secret key"] {
        for qs in ["", "a=1", "apikey=AK123&command=listZones&response=json"] {
            let token = get_signature(qs, key).unwrap();
            assert_percent_encoded_base64(&token);
        }
    }
}

/// Checks that a token reads as base64 text in which `+`, `/` and `=` were
/// percent-escaped: only ASCII letters, digits and `%2B`, `%2F`, `%3D`
/// escapes may occur.
fn assert_percent_encoded_base64(token: &str) {
    let bytes = token.as_bytes();
    let mut i = 0;
    while i < bytes.len() {
        let b = bytes[i];
        if b == b'%' {
            assert!(i + 2 < bytes.len(), "truncated escape in {token}");
            let esc = &token[i..i + 3];
            assert!(
                esc == "%2B" || esc == "%2F" || esc == "%3D",
                "unexpected escape {esc} in {token}"
            );
            i += 3;
        } else {
            assert!(b.is_ascii_alphanumeric(), "unexpected byte {b} in {token}");
            i += 1;
        }
    }
}
