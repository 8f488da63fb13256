use idcf_client::encode::{decode_form_url, encode_form_url_utf8};
use idcf_client::keyvalue::{
    create_querystring, get_keyvalue_from_strings, response_format_from_name, ResponseFormat,
};
use idcf_client::{build_request_url, ApplicationError, CommandOptions, GenericError,
    InvalidParameter};

#[test]
fn encode_passes_unreserved_bytes_through() {
    assert_eq!(encode_form_url_utf8("abcXYZ019-_."), "abcXYZ019-_.");
}

#[test]
fn encode_turns_space_into_plus() {
    assert_eq!(encode_form_url_utf8("a b"), "a+b");
}

#[test]
fn encode_escapes_other_bytes_as_uppercase_hex() {
    assert_eq!(encode_form_url_utf8("~"), "%7E");
    assert_eq!(encode_form_url_utf8("a=b&c"), "a%3Db%26c");
    assert_eq!(encode_form_url_utf8("+"), "%2B");
    assert_eq!(encode_form_url_utf8("/"), "%2F");
}

#[test]
fn encode_escapes_every_utf8_byte_of_a_character() {
    // 'ä' is 0xC3 0xA4 in UTF-8.
    assert_eq!(encode_form_url_utf8("\u{e4}"), "%C3%A4");
    // '日' is 0xE6 0x97 0xA5.
    assert_eq!(encode_form_url_utf8("\u{65e5}"), "%E6%97%A5");
}

#[test]
fn encode_of_empty_is_empty() {
    assert_eq!(encode_form_url_utf8(""), "");
}

#[test]
fn decode_undoes_encode() {
    for text in [
        "",
        "plain",
        "a b c",
        "key=value&more",
        "100% sure",
        "\u{e4}\u{65e5} mixed ~ text",
        "-_.~!*'()",
    ] {
        let encoded = encode_form_url_utf8(text);
        assert_eq!(decode_form_url(&encoded), Some(text.to_owned()));
    }
}

#[test]
fn decode_reads_plus_as_space_and_hex_escapes() {
    assert_eq!(decode_form_url("a+b"), Some("a b".to_owned()));
    assert_eq!(decode_form_url("%41%20b"), Some("A b".to_owned()));
    assert_eq!(decode_form_url("%c3%a4"), Some("\u{e4}".to_owned()));
}

#[test]
fn decode_rejects_malformed_escapes() {
    assert_eq!(decode_form_url("%"), None);
    assert_eq!(decode_form_url("%2"), None);
    assert_eq!(decode_form_url("%zz"), None);
    assert_eq!(decode_form_url("ok%G0"), None);
}

#[test]
fn decode_rejects_escapes_that_are_not_utf8() {
    assert_eq!(decode_form_url("%FF"), None);
}

#[test]
fn fixed_fields_only_in_sorted_order() {
    let params: Vec<(String, String)> = Vec::new();
    let qs = create_querystring("listZones", "AK123", Some(ResponseFormat::Json), &params);
    assert_eq!(qs, "apikey=AK123&command=listZones&response=json");
}

#[test]
fn tokens_combine_with_fixed_fields_in_sorted_order() {
    let tokens = ["zone=tokyo", "name=a b"];
    let params = get_keyvalue_from_strings(&tokens).unwrap();
    assert_eq!(
        params,
        vec![("zone".to_owned(), "tokyo".to_owned()), ("name".to_owned(), "a b".to_owned())]
    );
    let qs = create_querystring("listZones", "AK123", Some(ResponseFormat::Json), &params);
    assert_eq!(qs, "apikey=AK123&command=listZones&name=a+b&response=json&zone=tokyo");
}

#[test]
fn building_twice_yields_the_same_string() {
    let params = vec![
        ("zone".to_owned(), "tokyo".to_owned()),
        ("name".to_owned(), "a b".to_owned()),
        ("id".to_owned(), "42".to_owned()),
    ];
    let first = create_querystring("listZones", "AK123", Some(ResponseFormat::Json), &params);
    let second = create_querystring("listZones", "AK123", Some(ResponseFormat::Json), &params);
    assert_eq!(first, second);
}

#[test]
fn parameter_order_does_not_change_the_string() {
    let one = vec![
        ("zone".to_owned(), "tokyo".to_owned()),
        ("name".to_owned(), "a b".to_owned()),
        ("id".to_owned(), "42".to_owned()),
    ];
    let two = vec![
        ("id".to_owned(), "42".to_owned()),
        ("zone".to_owned(), "tokyo".to_owned()),
        ("name".to_owned(), "a b".to_owned()),
    ];
    let three = vec![
        ("name".to_owned(), "a b".to_owned()),
        ("id".to_owned(), "42".to_owned()),
        ("zone".to_owned(), "tokyo".to_owned()),
    ];
    let built_one = create_querystring("cmd", "AK", Some(ResponseFormat::Json), &one);
    let built_two = create_querystring("cmd", "AK", Some(ResponseFormat::Json), &two);
    let built_three = create_querystring("cmd", "AK", Some(ResponseFormat::Json), &three);
    assert_eq!(built_one, built_two);
    assert_eq!(built_one, built_three);
}

#[test]
fn decoding_each_pair_of_the_canonical_string_recovers_the_parameters() {
    let params = vec![
        ("zone".to_owned(), "t\u{14d}ky\u{14d}".to_owned()),
        ("name".to_owned(), "a b".to_owned()),
        ("filter".to_owned(), "x=y&z".to_owned()),
    ];
    let qs = create_querystring("list Zones", "AK 123", Some(ResponseFormat::Json), &params);
    let mut decoded: Vec<(String, String)> = Vec::new();
    for pair in qs.split('&') {
        let mut sides = pair.splitn(2, '=');
        let name = sides.next().unwrap();
        let value = sides.next().unwrap();
        decoded.push((decode_form_url(name).unwrap(), decode_form_url(value).unwrap()));
    }
    let expected = vec![
        ("apikey".to_owned(), "AK 123".to_owned()),
        ("command".to_owned(), "list Zones".to_owned()),
        ("filter".to_owned(), "x=y&z".to_owned()),
        ("name".to_owned(), "a b".to_owned()),
        ("response".to_owned(), "json".to_owned()),
        ("zone".to_owned(), "t\u{14d}ky\u{14d}".to_owned()),
    ];
    assert_eq!(decoded, expected);
}

#[test]
fn names_and_values_are_encoded_independently() {
    let params = vec![("a key".to_owned(), "v&w=x".to_owned())];
    let qs = create_querystring("do It", "K/1", Some(ResponseFormat::Xml), &params);
    assert_eq!(qs, "a+key=v%26w%3Dx&apikey=K%2F1&command=do+It&response=xml");
}

#[test]
fn legacy_scheme_omits_the_response_field() {
    let params: Vec<(String, String)> = Vec::new();
    let qs = create_querystring("listZones", "AK123", None, &params);
    assert_eq!(qs, "apikey=AK123&command=listZones");
}

#[test]
fn xml_format_is_sent_verbatim() {
    let params: Vec<(String, String)> = Vec::new();
    let qs = create_querystring("listZones", "AK123", Some(ResponseFormat::Xml), &params);
    assert_eq!(qs, "apikey=AK123&command=listZones&response=xml");
}

#[test]
fn tokens_without_an_equals_sign_are_dropped() {
    let tokens = ["novalue", "a=1", "alsodropped"];
    let params = get_keyvalue_from_strings(&tokens).unwrap();
    assert_eq!(params, vec![("a".to_owned(), "1".to_owned())]);
}

#[test]
fn tokens_split_at_the_first_equals_sign_only() {
    let tokens = ["a=b=c", "=leading"];
    let params = get_keyvalue_from_strings(&tokens).unwrap();
    assert_eq!(
        params,
        vec![("a".to_owned(), "b=c".to_owned()), ("".to_owned(), "leading".to_owned())]
    );
}

#[test]
fn empty_token_list_collects_nothing() {
    let tokens: [&str; 0] = [];
    let params = get_keyvalue_from_strings(&tokens).unwrap();
    assert!(params.is_empty());
}

#[test]
fn response_format_names_form_a_closed_set() {
    assert!(matches!(response_format_from_name("json"), Ok(ResponseFormat::Json)));
    assert!(matches!(response_format_from_name("xml"), Ok(ResponseFormat::Xml)));
    let rejected = response_format_from_name("yaml");
    match rejected {
        Err(ApplicationError::ParameterError(p)) => {
            assert_eq!(p.name(), "output-format");
            assert_eq!(p.description(), "unknown output format");
        }
        _ => panic!("an unknown format name must be rejected as a parameter error"),
    }
}

#[test]
fn default_response_format_is_json() {
    assert_eq!(ResponseFormat::default(), ResponseFormat::Json);
}

#[test]
fn request_url_appends_query_and_signature() {
    let url = build_request_url("https://example.test/api", "a=1&b=2", "SIG");
    assert_eq!(url, "https://example.test/api?a=1&b=2&signature=SIG");
}

#[test]
fn command_options_hand_out_the_output_path() {
    let with_path = CommandOptions {
        method: "listZones".to_owned(),
        apikey: "AK".to_owned(),
        secretkey: "SK".to_owned(),
        endpoint: "https://example.test".to_owned(),
        output_path: Some("out.json".to_owned()),
        format: Some(ResponseFormat::Json),
    };
    assert_eq!(with_path.output_path(), Some("out.json"));
    let without_path = CommandOptions { output_path: None, ..with_path };
    assert_eq!(without_path.output_path(), None);
}

#[test]
fn invalid_parameter_keeps_name_and_description() {
    let p = InvalidParameter::new("method", "you must set method option");
    assert_eq!(p.name(), "method");
    assert_eq!(p.description(), "you must set method option");
}

#[test]
fn generic_error_keeps_description_and_location() {
    let e = GenericError::new("response error", "compute::execute");
    assert_eq!(e.description(), "response error");
    assert_eq!(e.location(), "compute::execute");
}
