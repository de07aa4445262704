use json_parser::value::{find_member, insert_member};
use json_parser::JsonObject;

fn sample() -> Vec<(String, JsonObject)> {
    vec![
        ("a".to_string(), JsonObject::Boolean(true)),
        ("b".to_string(), JsonObject::Null),
    ]
}

#[test]
fn find_member_gives_the_place_of_the_key() {
    let members = sample();
    assert_eq!(find_member(&members, &"a".to_string()), Some(0));
    assert_eq!(find_member(&members, &"b".to_string()), Some(1));
    assert_eq!(find_member(&members, &"c".to_string()), None);
    assert_eq!(find_member(&members, &"".to_string()), None);
    assert_eq!(find_member(&Vec::new(), &"a".to_string()), None);
}

#[test]
fn insert_member_adds_a_new_key_at_the_end() {
    let mut members = sample();
    insert_member(&mut members, "c".to_string(), JsonObject::Boolean(false));
    assert_eq!(
        members,
        vec![
            ("a".to_string(), JsonObject::Boolean(true)),
            ("b".to_string(), JsonObject::Null),
            ("c".to_string(), JsonObject::Boolean(false)),
        ]
    );
}

#[test]
fn insert_member_replaces_the_value_of_a_known_key() {
    let mut members = sample();
    insert_member(&mut members, "a".to_string(), JsonObject::String("new".to_string()));
    assert_eq!(
        members,
        vec![
            ("a".to_string(), JsonObject::String("new".to_string())),
            ("b".to_string(), JsonObject::Null),
        ]
    );
}

#[test]
fn insert_member_into_an_empty_object() {
    let mut members = Vec::new();
    insert_member(&mut members, "k".to_string(), JsonObject::Null);
    assert_eq!(members, vec![("k".to_string(), JsonObject::Null)]);
}
