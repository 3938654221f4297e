use wt_tools::metadata::{
    add_metadata_key, add_nested_metadata_key, delete_metadata_key, delete_nested_metadata_key,
    field_value, find_metadata_value, find_nested_metadata_value, json_to_metadata,
    metadata_to_json, nested_fields_with, nested_keys, remove_field, set_field,
    update_metadata_value, Field, Metadata,
};

fn s(text: &str) -> String {
    text.to_string()
}

fn field(key: &str, value: &str) -> Field {
    Field { key: s(key), value: s(value) }
}

#[test]
fn a_json_object_becomes_a_table() {
    let metadata = json_to_metadata(r#"{"name": "room", "open": true, "n": 3}"#);
    assert_eq!(find_metadata_value(&metadata, "name"), Some(s(r#""room""#)));
    assert_eq!(find_metadata_value(&metadata, "open"), Some(s("true")));
    assert_eq!(find_metadata_value(&metadata, "n"), Some(s("3")));
    assert_eq!(find_metadata_value(&metadata, "missing"), None);
    assert_eq!(
        metadata.fields(),
        vec![field("n", "3"), field("name", r#""room""#), field("open", "true")]
    );
}

#[test]
fn a_text_that_is_no_object_gives_the_empty_table() {
    for text in ["", "not json", "[1,2]", "3", "\"text\"", "{", "null"] {
        assert_eq!(json_to_metadata(text).fields(), vec![]);
    }
    assert_eq!(json_to_metadata("{}").fields(), vec![]);
}

#[test]
fn a_table_is_written_as_one_object() {
    let mut metadata = Metadata::new();
    assert_eq!(metadata_to_json(&metadata), "{}");
    add_metadata_key(&mut metadata, "b", "1");
    add_metadata_key(&mut metadata, "a", r#"{"x": [1, 2]}"#);
    assert_eq!(metadata_to_json(&metadata), r#"{"a":{"x":[1,2]},"b":1}"#);
}

#[test]
fn a_value_that_is_no_json_makes_the_text_empty() {
    let mut metadata = Metadata::new();
    add_metadata_key(&mut metadata, "a", "not json");
    assert_eq!(metadata_to_json(&metadata), "");
}

#[test]
fn reading_undoes_writing() {
    let text = r#"{"groups":{"all":{"members":{"ann":{"admin":true}}}},"n":1.5,"s":"a\"b"}"#;
    assert_eq!(metadata_to_json(&json_to_metadata(text)), text);
}

#[test]
fn update_replaces_and_adds() {
    let mut metadata = json_to_metadata(r#"{"a": 1, "b": 2}"#);
    update_metadata_value(&mut metadata, "a", "10");
    update_metadata_value(&mut metadata, "c", "30");
    assert_eq!(metadata.fields(), vec![field("a", "10"), field("b", "2"), field("c", "30")]);
    add_metadata_key(&mut metadata, "b", "20");
    assert_eq!(metadata.fields(), vec![field("a", "10"), field("b", "20"), field("c", "30")]);
    assert_eq!(metadata.get("b"), Some(s("20")));
}

#[test]
fn delete_takes_the_key_away() {
    let mut metadata = json_to_metadata(r#"{"a": 1, "b": 2}"#);
    delete_metadata_key(&mut metadata, "a");
    delete_metadata_key(&mut metadata, "zz");
    assert_eq!(metadata.fields(), vec![field("b", "2")]);
    assert_eq!(find_metadata_value(&metadata, "a"), None);
}

#[test]
fn a_nested_key_is_set_inside_the_object() {
    let mut metadata = json_to_metadata(r#"{"groups": {"all": 1}}"#);
    add_nested_metadata_key(&mut metadata, "groups", "ops", "2");
    assert_eq!(find_metadata_value(&metadata, "groups"), Some(s(r#"{"all":1,"ops":2}"#)));
    add_nested_metadata_key(&mut metadata, "groups", "all", r#""x""#);
    assert_eq!(find_metadata_value(&metadata, "groups"), Some(s(r#"{"all":"x","ops":2}"#)));
    assert_eq!(find_nested_metadata_value(&metadata, "groups", "ops"), Some(s("2")));
    assert_eq!(find_nested_metadata_value(&metadata, "groups", "none"), None);
    assert_eq!(find_nested_metadata_value(&metadata, "none", "ops"), None);
}

#[test]
fn a_nested_key_under_a_missing_or_plain_value_makes_a_new_object() {
    let mut metadata = json_to_metadata(r#"{"plain": 7}"#);
    add_nested_metadata_key(&mut metadata, "plain", "k", "true");
    add_nested_metadata_key(&mut metadata, "fresh", "k", "null");
    assert_eq!(find_metadata_value(&metadata, "plain"), Some(s(r#"{"k":true}"#)));
    assert_eq!(find_metadata_value(&metadata, "fresh"), Some(s(r#"{"k":null}"#)));
    assert_eq!(find_nested_metadata_value(&metadata, "plain", "k"), Some(s("true")));
}

#[test]
fn a_nested_value_that_is_no_json_changes_nothing() {
    let mut metadata = json_to_metadata(r#"{"groups": {"all": 1}}"#);
    add_nested_metadata_key(&mut metadata, "groups", "ops", "not json");
    add_nested_metadata_key(&mut metadata, "fresh", "k", "{");
    assert_eq!(metadata.fields(), vec![field("groups", r#"{"all":1}"#)]);
}

#[test]
fn a_nested_key_is_deleted_inside_the_object() {
    let mut metadata = json_to_metadata(r#"{"groups": {"all": 1, "ops": 2}, "plain": 7}"#);
    delete_nested_metadata_key(&mut metadata, "groups", "all");
    delete_nested_metadata_key(&mut metadata, "groups", "none");
    delete_nested_metadata_key(&mut metadata, "plain", "x");
    delete_nested_metadata_key(&mut metadata, "missing", "x");
    assert_eq!(metadata.fields(), vec![field("groups", r#"{"ops":2}"#), field("plain", "7")]);
    assert_eq!(find_nested_metadata_value(&metadata, "plain", "x"), None);
}

#[test]
fn null_is_no_object() {
    let mut metadata = json_to_metadata(r#"{"n": null}"#);
    delete_nested_metadata_key(&mut metadata, "n", "x");
    assert_eq!(metadata.fields(), vec![field("n", "null")]);
    assert_eq!(find_nested_metadata_value(&metadata, "n", "x"), None);
    add_nested_metadata_key(&mut metadata, "n", "x", "1");
    assert_eq!(metadata.fields(), vec![field("n", r#"{"x":1}"#)]);
}

#[test]
fn the_keys_of_a_nested_object_name_the_groups() {
    let metadata =
        json_to_metadata(r#"{"groups": {"ops": {"members": {}}, "all": {"members": {}}}, "n": 1}"#);
    assert_eq!(nested_keys(&metadata, "groups"), vec![s("all"), s("ops")]);
    assert_eq!(nested_keys(&metadata, "n"), Vec::<String>::new());
    assert_eq!(nested_keys(&metadata, "missing"), Vec::<String>::new());
}

#[test]
fn field_lists_are_read_and_changed_by_key() {
    let mut fields = vec![field("a", "1"), field("b", "2"), field("a", "3")];
    assert_eq!(field_value(&fields, "a"), Some(s("1")));
    assert_eq!(field_value(&fields, "c"), None);
    set_field(&mut fields, "a", "9");
    set_field(&mut fields, "c", "4");
    assert_eq!(fields, vec![field("a", "9"), field("b", "2"), field("a", "3"), field("c", "4")]);
    assert_eq!(remove_field(&fields, "a"), vec![field("b", "2"), field("c", "4")]);
    assert_eq!(
        Metadata::from_fields(&fields).fields(),
        vec![field("a", "3"), field("b", "2"), field("c", "4")]
    );
}

#[test]
fn nested_fields_start_from_what_was_read() {
    assert_eq!(nested_fields_with(None, "k", "1"), vec![field("k", "1")]);
    assert_eq!(
        nested_fields_with(Some(vec![field("a", "0"), field("k", "0")]), "k", "1"),
        vec![field("a", "0"), field("k", "1")]
    );
    assert_eq!(nested_fields_with(Some(vec![]), "k", "1"), vec![field("k", "1")]);
}

#[test]
fn store_keeps_the_table_when_nothing_was_written() {
    let mut metadata = Metadata::new();
    metadata.store("a", None);
    assert_eq!(metadata.fields(), vec![]);
    metadata.store("a", Some(s("1")));
    metadata.set("b", "2");
    metadata.remove("a");
    assert_eq!(metadata.fields(), vec![field("b", "2")]);
}
