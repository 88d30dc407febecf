use json_types::json::JsonValue;
use json_types::policy::{step, Action, Event};
use json_types::type_set::TypeSet;

fn num(n: i64) -> JsonValue {
    JsonValue::Number(n.to_string())
}

fn text(s: &str) -> JsonValue {
    JsonValue::String(s.to_string())
}

fn obj(members: Vec<(&str, JsonValue)>) -> JsonValue {
    JsonValue::Object(members.into_iter().map(|(k, v)| (k.to_string(), v)).collect())
}

fn field<'a>(n: &'a TypeSet, k: &str) -> Option<&'a TypeSet> {
    n.object.as_ref().and_then(|f| f.iter().find(|(name, _)| name == k).map(|(_, c)| c))
}

fn flags(n: &TypeSet) -> [bool; 5] {
    [n.absent, n.null, n.boolean, n.number, n.string]
}

#[test]
fn new_node_is_empty() {
    let n = TypeSet::new();
    assert_eq!(flags(&n), [false; 5]);
    assert!(n.array.is_none());
    assert!(n.object.is_none());
}

#[test]
fn primitive_sets_its_flag_once() {
    let mut n = TypeSet::new();
    assert!(n.add_type_of(&JsonValue::Null));
    assert!(n.add_type_of(&JsonValue::Bool(false)));
    assert!(n.add_type_of(&num(3)));
    assert!(n.add_type_of(&text("x")));
    assert_eq!(flags(&n), [false, true, true, true, true]);
    assert!(!n.add_type_of(&JsonValue::Bool(true)));
    assert!(!n.add_type_of(&num(4)));
}

#[test]
fn merging_twice_changes_nothing() {
    let v = obj(vec![
        ("a", num(1)),
        ("b", JsonValue::Array(vec![text("x")])),
        ("c", obj(vec![("d", JsonValue::Null)])),
    ]);
    let mut n = TypeSet::new();
    assert!(n.add_type_of(&v));
    let once = n.encode();
    assert!(!n.add_type_of(&v));
    assert_eq!(n.encode(), once);
}

#[test]
fn flags_and_keys_only_grow() {
    let mut n = TypeSet::new();
    n.add_type_of(&obj(vec![("a", num(1)), ("b", JsonValue::Bool(true))]));
    n.add_type_of(&obj(vec![("c", text("x"))]));
    n.add_type_of(&text("y"));
    let a = field(&n, "a").unwrap();
    assert!(a.number && a.absent);
    assert!(field(&n, "b").unwrap().boolean);
    assert!(field(&n, "c").unwrap().string);
    assert!(n.string);
    let keys: Vec<&str> = n.object.as_ref().unwrap().iter().map(|(k, _)| k.as_str()).collect();
    assert_eq!(keys, vec!["a", "b", "c"]);
}

#[test]
fn empty_array_marks_only_element_absent() {
    let mut n = TypeSet::new();
    assert!(n.add_type_of(&JsonValue::Array(vec![])));
    assert_eq!(flags(&n), [false; 5]);
    assert!(n.object.is_none());
    let e = n.array.as_ref().unwrap();
    assert_eq!(flags(e), [true, false, false, false, false]);
    assert!(e.array.is_none() && e.object.is_none());
    assert!(!n.add_type_of(&JsonValue::Array(vec![])));
}

#[test]
fn array_elements_all_merged() {
    let mut n = TypeSet::new();
    assert!(n.add_type_of(&JsonValue::Array(vec![num(1), text("x"), JsonValue::Null])));
    let e = n.array.as_ref().unwrap();
    assert_eq!(flags(e), [false, true, false, true, true]);
    // a later element may still add a flag after an earlier one changed nothing
    assert!(n.add_type_of(&JsonValue::Array(vec![num(2), JsonValue::Bool(true)])));
    assert!(n.array.as_ref().unwrap().boolean);
}

#[test]
fn absence_is_not_retroactive() {
    let mut n = TypeSet::new();
    n.add_type_of(&obj(vec![("a", num(1))]));
    n.add_type_of(&obj(vec![("a", num(1)), ("b", num(2))]));
    assert!(!field(&n, "b").unwrap().absent);
    n.add_type_of(&obj(vec![("a", num(1))]));
    assert!(field(&n, "b").unwrap().absent);
    assert!(!field(&n, "a").unwrap().absent);

    let mut m = TypeSet::new();
    m.add_type_of(&obj(vec![("a", num(1))]));
    m.add_type_of(&obj(vec![("a", num(1))]));
    assert!(field(&m, "b").is_none());
    assert_eq!(m.object.as_ref().unwrap().len(), 1);
}

#[test]
fn absence_alone_reports_change() {
    let mut n = TypeSet::new();
    n.add_type_of(&obj(vec![("a", num(1)), ("b", num(2))]));
    assert!(n.add_type_of(&obj(vec![("a", num(1))])));
    assert!(!n.add_type_of(&obj(vec![("a", num(1))])));
}

#[test]
fn new_empty_object_field_reports_no_change() {
    let mut n = TypeSet::new();
    assert!(!n.add_type_of(&obj(vec![])));
    assert!(n.object.as_ref().unwrap().is_empty());
}

#[test]
fn end_to_end_scenario() {
    let mut n = TypeSet::new();
    n.add_type_of(&obj(vec![("a", num(1))]));
    n.add_type_of(&obj(vec![("a", text("x")), ("b", JsonValue::Bool(true))]));
    n.add_type_of(&obj(vec![("a", JsonValue::Null), ("c", JsonValue::Array(vec![]))]));
    let expected = obj(vec![(
        "object",
        obj(vec![
            (
                "a",
                obj(vec![
                    ("null", JsonValue::Bool(true)),
                    ("number", JsonValue::Bool(true)),
                    ("string", JsonValue::Bool(true)),
                ]),
            ),
            (
                "b",
                obj(vec![("absent", JsonValue::Bool(true)), ("bool", JsonValue::Bool(true))]),
            ),
            ("c", obj(vec![("array", obj(vec![("absent", JsonValue::Bool(true))]))])),
        ]),
    )]);
    assert_eq!(n.encode(), expected);
}

#[test]
fn checkpoints_follow_changes_and_shutdown() {
    let records = vec![
        obj(vec![("a", num(1))]),
        obj(vec![("a", num(2))]),
        obj(vec![("a", text("x"))]),
        obj(vec![("a", num(3))]),
        obj(vec![("b", JsonValue::Null)]),
    ];
    let mut root = TypeSet::new();
    let mut writes = 0;
    let mut actions = Vec::new();
    for r in records {
        let a = step(&mut root, &Event::Record(r));
        if a != Action::Continue {
            writes += 1;
        }
        actions.push(a);
    }
    assert_eq!(
        actions,
        vec![
            Action::Checkpoint,
            Action::Continue,
            Action::Checkpoint,
            Action::Continue,
            Action::Checkpoint
        ]
    );
    let before = root.encode();
    assert_eq!(step(&mut root, &Event::Shutdown), Action::FinalCheckpoint);
    writes += 1;
    assert_eq!(writes, 4);
    assert_eq!(root.encode(), before);
}

#[test]
fn objects_in_one_array_mark_each_other_absent() {
    let v = JsonValue::Array(vec![obj(vec![("a", num(1))]), obj(vec![("b", num(1))])]);
    let mut n = TypeSet::new();
    assert!(n.add_type_of(&v));
    let e = n.array.as_ref().unwrap();
    assert!(field(e, "a").unwrap().absent);
    assert!(!field(e, "b").unwrap().absent);
    // the first item now lacks the known field `b`
    assert!(n.add_type_of(&v));
    assert!(field(n.array.as_ref().unwrap(), "b").unwrap().absent);
    assert!(!n.add_type_of(&v));
}

#[test]
fn identity_returns_its_argument() {
    assert_eq!(json_types::id(7u8), 7u8);
}

#[test]
fn arrays_without_objects_merge_idempotently() {
    let v = JsonValue::Array(vec![
        num(1),
        JsonValue::Array(vec![]),
        JsonValue::Array(vec![text("x"), JsonValue::Null]),
    ]);
    let mut n = TypeSet::new();
    assert!(n.add_type_of(&v));
    let once = n.encode();
    assert!(!n.add_type_of(&v));
    assert_eq!(n.encode(), once);
}
