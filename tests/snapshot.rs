use json_types::json::JsonValue;
use json_types::type_set::TypeSet;

fn num(n: i64) -> JsonValue {
    JsonValue::Number(n.to_string())
}

fn obj(members: Vec<(&str, JsonValue)>) -> JsonValue {
    JsonValue::Object(members.into_iter().map(|(k, v)| (k.to_string(), v)).collect())
}

#[test]
fn empty_node_encodes_to_empty_object() {
    assert_eq!(TypeSet::new().encode(), obj(vec![]));
}

#[test]
fn encode_writes_only_true_flags_in_order() {
    let mut n = TypeSet::new();
    n.add_type_of(&JsonValue::String("s".to_string()));
    n.add_type_of(&JsonValue::Null);
    assert_eq!(
        n.encode(),
        obj(vec![("null", JsonValue::Bool(true)), ("string", JsonValue::Bool(true))])
    );
}

#[test]
fn round_trip_of_a_grown_tree() {
    let mut n = TypeSet::new();
    n.add_type_of(&obj(vec![
        ("a", num(1)),
        ("b", JsonValue::Array(vec![obj(vec![("x", JsonValue::Null)]), JsonValue::Bool(true)])),
    ]));
    n.add_type_of(&obj(vec![("c", JsonValue::Array(vec![]))]));
    n.add_type_of(&JsonValue::Array(vec![]));
    let back = TypeSet::decode(&n.encode()).unwrap();
    assert_eq!(back, n);
}

#[test]
fn decode_rejects_what_is_no_snapshot() {
    assert!(TypeSet::decode(&num(1)).is_none());
    assert!(TypeSet::decode(&obj(vec![("null", num(1))])).is_none());
    assert!(TypeSet::decode(&obj(vec![("array", JsonValue::Bool(true))])).is_none());
    assert!(TypeSet::decode(&obj(vec![("object", obj(vec![("a", num(1))]))])).is_none());
}

#[test]
fn decode_rejects_repeated_field_names() {
    let v = obj(vec![("object", obj(vec![("a", obj(vec![])), ("a", obj(vec![]))]))]);
    assert!(TypeSet::decode(&v).is_none());
}

#[test]
fn decode_defaults_and_ignores() {
    let v = obj(vec![
        ("number", JsonValue::Bool(false)),
        ("bool", JsonValue::Bool(true)),
        ("array", JsonValue::Null),
        ("other", num(7)),
    ]);
    let n = TypeSet::decode(&v).unwrap();
    assert!(n.boolean && !n.number && !n.absent && !n.null && !n.string);
    assert!(n.array.is_none() && n.object.is_none());
}

#[test]
fn decode_then_merge_resumes() {
    let v = obj(vec![("object", obj(vec![("a", obj(vec![("number", JsonValue::Bool(true))]))]))]);
    let mut n = TypeSet::decode(&v).unwrap();
    assert!(!n.add_type_of(&obj(vec![("a", num(5))])));
    assert!(n.add_type_of(&obj(vec![])));
    assert!(n.object.as_ref().unwrap()[0].1.absent);
}

#[test]
fn snapshot_depends_on_content_not_arrival_order() {
    let mut n1 = TypeSet::new();
    n1.add_type_of(&obj(vec![("a", num(1)), ("b", num(1))]));
    let mut n2 = TypeSet::new();
    n2.add_type_of(&obj(vec![("b", num(1)), ("a", num(1))]));
    assert_eq!(n1.encode(), n2.encode());
    assert_eq!(n1, n2);
    let mut n3 = TypeSet::new();
    n3.add_type_of(&obj(vec![("zeta", JsonValue::Null)]));
    n3.add_type_of(&obj(vec![("alpha", JsonValue::Null), ("zeta", JsonValue::Null)]));
    let keys: Vec<&str> = n3.object.as_ref().unwrap().iter().map(|(k, _)| k.as_str()).collect();
    assert_eq!(keys, vec!["alpha", "zeta"]);
}

#[test]
fn fields_are_ordered_by_character_code() {
    let mut n = TypeSet::new();
    n.add_type_of(&obj(vec![("b", num(1)), ("B", num(1)), ("ab", num(1)), ("a", num(1)), ("é", num(1))]));
    let keys: Vec<&str> = n.object.as_ref().unwrap().iter().map(|(k, _)| k.as_str()).collect();
    assert_eq!(keys, vec!["B", "a", "ab", "b", "é"]);
}

#[test]
fn decode_rejects_fields_out_of_order() {
    let v = obj(vec![("object", obj(vec![("b", obj(vec![])), ("a", obj(vec![]))]))]);
    assert!(TypeSet::decode(&v).is_none());
    let w = obj(vec![("object", obj(vec![("a", obj(vec![])), ("b", obj(vec![]))]))]);
    let n = TypeSet::decode(&w).unwrap();
    assert_eq!(n.encode(), w);
}
