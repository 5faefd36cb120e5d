use bw_json::selected_race::{race_change_from_value, RequestRaceChange};
use bw_json::value::{insert_member, Member, Value};

fn text(s: &str) -> Value {
    Value::String(s.to_string())
}

fn object(members: Vec<(&str, Value)>) -> Value {
    Value::Object(
        members.into_iter().map(|(k, v)| Member { key: k.to_string(), value: v }).collect(),
    )
}

fn message(endpoint: Value, id: Value, selected_race: Value) -> Value {
    object(vec![(
        "data",
        object(vec![
            ("endpoint", endpoint),
            ("data", object(vec![("id", id), ("selected_race", selected_race)])),
        ]),
    )])
}

fn request(id: i64, selected_race: i64) -> Value {
    message(text("RequestRaceChange"), Value::Number(id), Value::Number(selected_race))
}

#[test]
fn request_with_both_fields() {
    assert_eq!(
        race_change_from_value(&request(7, 2)),
        Some(RequestRaceChange { id: 7, selected_race: 2 })
    );
}

#[test]
fn request_at_the_bounds_of_its_fields() {
    assert_eq!(
        race_change_from_value(&request(0, 0)),
        Some(RequestRaceChange { id: 0, selected_race: 0 })
    );
    assert_eq!(
        race_change_from_value(&request(0xFFFF_FFFF, 255)),
        Some(RequestRaceChange { id: u32::MAX, selected_race: u8::MAX })
    );
}

#[test]
fn id_out_of_range() {
    assert_eq!(race_change_from_value(&request(0x1_0000_0000, 2)), None);
    assert_eq!(race_change_from_value(&request(-1, 2)), None);
    assert_eq!(race_change_from_value(&request(i64::MIN, 2)), None);
    assert_eq!(race_change_from_value(&request(i64::MAX, 2)), None);
}

#[test]
fn selected_race_out_of_range() {
    assert_eq!(race_change_from_value(&request(7, 256)), None);
    assert_eq!(race_change_from_value(&request(7, -1)), None);
}

#[test]
fn fields_of_the_wrong_type() {
    let endpoint = || text("RequestRaceChange");
    assert_eq!(race_change_from_value(&message(endpoint(), text("7"), Value::Number(2))), None);
    assert_eq!(race_change_from_value(&message(endpoint(), Value::Number(7), Value::Boolean(true))), None);
    assert_eq!(race_change_from_value(&message(endpoint(), Value::Null, Value::Number(2))), None);
    assert_eq!(race_change_from_value(&message(Value::Number(1), Value::Number(7), Value::Number(2))), None);
    assert_eq!(race_change_from_value(&message(Value::Null, Value::Number(7), Value::Number(2))), None);
}

#[test]
fn endpoint_must_match_exactly() {
    for name in ["", "Other", "requestracechange", "RequestRaceChange ", "RequestRaceChang"] {
        assert_eq!(
            race_change_from_value(&message(text(name), Value::Number(7), Value::Number(2))),
            None
        );
    }
}

#[test]
fn missing_parts() {
    assert_eq!(race_change_from_value(&Value::Null), None);
    assert_eq!(race_change_from_value(&Value::Array(vec![])), None);
    assert_eq!(race_change_from_value(&object(vec![])), None);
    assert_eq!(race_change_from_value(&object(vec![("data", Value::Number(1))])), None);
    assert_eq!(
        race_change_from_value(&object(vec![(
            "data",
            object(vec![("endpoint", text("RequestRaceChange"))])
        )])),
        None
    );
    assert_eq!(
        race_change_from_value(&object(vec![(
            "data",
            object(vec![
                ("endpoint", text("RequestRaceChange")),
                ("data", object(vec![("id", Value::Number(7))])),
            ])
        )])),
        None
    );
    assert_eq!(
        race_change_from_value(&object(vec![(
            "data",
            object(vec![
                ("endpoint", text("RequestRaceChange")),
                ("data", object(vec![("selected_race", Value::Number(2))])),
            ])
        )])),
        None
    );
}

#[test]
fn extra_members_are_ignored() {
    let v = object(vec![
        ("type", text("message")),
        (
            "data",
            object(vec![
                ("seq", Value::Number(1)),
                ("endpoint", text("RequestRaceChange")),
                (
                    "data",
                    object(vec![
                        ("selected_race", Value::Number(3)),
                        ("extra", Value::Array(vec![])),
                        ("id", Value::Number(11)),
                    ]),
                ),
            ]),
        ),
    ]);
    assert_eq!(race_change_from_value(&v), Some(RequestRaceChange { id: 11, selected_race: 3 }));
}

#[test]
fn get_finds_members_of_objects_only() {
    let v = object(vec![("a", Value::Number(1)), ("b", Value::Null), ("", text("empty"))]);
    assert_eq!(v.get("a"), Some(&Value::Number(1)));
    assert_eq!(v.get("b"), Some(&Value::Null));
    assert_eq!(v.get(""), Some(&text("empty")));
    assert_eq!(v.get("c"), None);
    assert_eq!(v.get("A"), None);
    assert_eq!(Value::Array(vec![Value::Number(1)]).get("0"), None);
    assert_eq!(text("a").get("a"), None);
    assert_eq!(Value::Null.get("a"), None);
}

#[test]
fn get_returns_the_first_of_repeated_keys() {
    let v = object(vec![("a", Value::Number(1)), ("a", Value::Number(2))]);
    assert_eq!(v.get("a"), Some(&Value::Number(1)));
}

#[test]
fn scalar_accessors() {
    assert_eq!(text("abc").as_str(), Some("abc"));
    assert_eq!(text("").as_str(), Some(""));
    assert_eq!(Value::Number(1).as_str(), None);
    assert_eq!(Value::Null.as_str(), None);
    assert_eq!(Value::Number(0).as_u32(), Some(0));
    assert_eq!(Value::Number(4_294_967_295).as_u32(), Some(u32::MAX));
    assert_eq!(Value::Number(4_294_967_296).as_u32(), None);
    assert_eq!(Value::Number(-1).as_u32(), None);
    assert_eq!(text("1").as_u32(), None);
    assert_eq!(Value::Boolean(true).as_u32(), None);
    assert_eq!(Value::Number(255).as_u8(), Some(255));
    assert_eq!(Value::Number(256).as_u8(), None);
    assert_eq!(Value::Number(-1).as_u8(), None);
    assert_eq!(Value::Null.as_u8(), None);
}

#[test]
fn insert_appends_new_keys() {
    let mut members: Vec<Member> = Vec::new();
    insert_member(&mut members, "b".to_string(), Value::Number(1));
    insert_member(&mut members, "a".to_string(), Value::Number(2));
    insert_member(&mut members, "".to_string(), Value::Number(3));
    assert_eq!(
        Value::Object(members),
        object(vec![("b", Value::Number(1)), ("a", Value::Number(2)), ("", Value::Number(3))])
    );
}

#[test]
fn insert_replaces_the_value_of_a_present_key_in_place() {
    let mut members: Vec<Member> = Vec::new();
    insert_member(&mut members, "a".to_string(), Value::Number(1));
    insert_member(&mut members, "b".to_string(), Value::Number(2));
    insert_member(&mut members, "a".to_string(), text("new"));
    assert_eq!(Value::Object(members), object(vec![("a", text("new")), ("b", Value::Number(2))]));
}
