use idcf_client::json::get_keyvalue_from_json_str;
use idcf_client::ApplicationError;

#[test]
fn numbers_and_arrays_become_their_canonical_json_text() {
    let pairs = get_keyvalue_from_json_str("{\"count\": 3, \"tags\": [\"a\",\"b\"]}").unwrap();
    assert_eq!(
        pairs,
        vec![
            ("count".to_owned(), "3".to_owned()),
            ("tags".to_owned(), "[\"a\",\"b\"]".to_owned()),
        ]
    );
}

#[test]
fn string_members_pass_through_without_quotes() {
    let pairs = get_keyvalue_from_json_str("{\"name\": \"a b\"}").unwrap();
    assert_eq!(pairs, vec![("name".to_owned(), "a b".to_owned())]);
}

#[test]
fn null_becomes_the_literal_text_null() {
    let pairs = get_keyvalue_from_json_str("{\"gone\": null}").unwrap();
    assert_eq!(pairs, vec![("gone".to_owned(), "null".to_owned())]);
}

#[test]
fn booleans_and_nested_objects_are_reserialized() {
    let pairs = get_keyvalue_from_json_str("{\"flag\": true, \"inner\": {\"b\": 1}}").unwrap();
    assert_eq!(
        pairs,
        vec![
            ("flag".to_owned(), "true".to_owned()),
            ("inner".to_owned(), "{\"b\":1}".to_owned()),
        ]
    );
}

#[test]
fn an_empty_object_collects_nothing() {
    let pairs = get_keyvalue_from_json_str("{}").unwrap();
    assert!(pairs.is_empty());
}

#[test]
fn unparseable_text_is_a_malformed_input() {
    let r = get_keyvalue_from_json_str("not json at all");
    assert!(matches!(r, Err(ApplicationError::MalformedInput(_))));
}

#[test]
fn a_top_level_array_is_a_malformed_input() {
    let r = get_keyvalue_from_json_str("[1, 2]");
    assert!(matches!(r, Err(ApplicationError::MalformedInput(_))));
}

#[test]
fn a_top_level_scalar_is_a_malformed_input() {
    assert!(matches!(get_keyvalue_from_json_str("3"), Err(ApplicationError::MalformedInput(_))));
    assert!(matches!(
        get_keyvalue_from_json_str("null"),
        Err(ApplicationError::MalformedInput(_))
    ));
}
