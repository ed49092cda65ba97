use jtd_infer_core::hints::{hints_from_config, parse_json_pointer, ConfigError};
use jtd_infer_core::inferred::{unknown, Variant};
use jtd_infer_core::number::{classify, join, parse_num_type, NumberLit};
use jtd_infer_core::schema::{Entry, TypeName};
use jtd_infer_core::value::Member;
use jtd_infer_core::{HintSet, Hints, Inferrer, NumType, Schema, Value};

fn num(v: i64) -> Value {
    Value::Number(NumberLit { integer: Some(v), f32_exact: true })
}

fn string(s: &str) -> Value {
    Value::String(s.to_string())
}

fn object(members: Vec<(&str, Value)>) -> Value {
    Value::Object(
        members
            .into_iter()
            .map(|(k, v)| Member { key: k.to_string(), value: v })
            .collect(),
    )
}

fn path(names: &[&str]) -> Vec<String> {
    names.iter().map(|s| s.to_string()).collect()
}

fn hints(default: NumType, enums: Vec<Vec<String>>, values: Vec<Vec<String>>, disc: Vec<Vec<String>>) -> Hints {
    Hints::new(default, HintSet::new(enums), HintSet::new(values), HintSet::new(disc))
}

fn no_hints() -> Hints {
    hints(NumType::Uint8, vec![], vec![], vec![])
}

fn run(h: Hints, examples: Vec<Value>) -> Schema {
    let mut inferrer = Inferrer::new(h);
    for e in examples {
        inferrer = inferrer.infer(e);
    }
    inferrer.into_schema()
}

fn group(es: &[Entry]) -> String {
    let mut v: Vec<String> = es.iter().map(|e| format!("{}={}", e.key, canon(&e.schema))).collect();
    v.sort();
    v.join(",")
}

/// A text form of a schema with every group of names sorted.
fn canon(s: &Schema) -> String {
    match s {
        Schema::Empty => "empty".to_string(),
        Schema::Type { nullable, type_ } => format!("type({:?},{})", type_, nullable),
        Schema::Enum { nullable, items } => {
            let mut v = items.clone();
            v.sort();
            format!("enum({:?},{})", v, nullable)
        }
        Schema::Elements { nullable, elements } => format!("elements({},{})", canon(elements), nullable),
        Schema::Properties { nullable, required, optional } => {
            format!("props([{}],[{}],{})", group(required), group(optional), nullable)
        }
        Schema::Values { nullable, values } => format!("values({},{})", canon(values), nullable),
        Schema::Discriminator { nullable, tag, mapping } => {
            format!("disc({},[{}],{})", tag, group(mapping), nullable)
        }
    }
}

fn entry<'a>(es: &'a [Entry], key: &str) -> &'a Schema {
    &es.iter().find(|e| e.key == key).expect("missing entry").schema
}

#[test]
fn example_scenario() {
    let s = run(
        no_hints(),
        vec![
            object(vec![("foo", Value::Bool(true)), ("bar", string("xxx"))]),
            object(vec![("foo", Value::Bool(false)), ("bar", Value::Null), ("baz", num(5))]),
        ],
    );
    match &s {
        Schema::Properties { nullable, required, optional } => {
            assert!(!nullable);
            assert_eq!(required.len(), 2);
            assert_eq!(optional.len(), 1);
            assert_eq!(*entry(required, "foo"), Schema::Type { nullable: false, type_: TypeName::Boolean });
            assert_eq!(*entry(required, "bar"), Schema::Type { nullable: true, type_: TypeName::String });
            assert_eq!(
                *entry(optional, "baz"),
                Schema::Type { nullable: false, type_: TypeName::Number(NumType::Uint8) }
            );
        }
        other => panic!("not a properties schema: {:?}", other),
    }
}

#[test]
fn numeric_widening_to_uint16() {
    let s = run(no_hints(), vec![num(1), num(2), num(300)]);
    assert_eq!(s, Schema::Type { nullable: false, type_: TypeName::Number(NumType::Uint16) });
}

#[test]
fn numeric_widening_to_signed() {
    let s = run(no_hints(), vec![num(1), num(-1)]);
    assert_eq!(s, Schema::Type { nullable: false, type_: TypeName::Number(NumType::Int16) });
}

#[test]
fn default_kind_used_when_every_number_fits() {
    let s = run(hints(NumType::Int32, vec![], vec![], vec![]), vec![num(5), num(300)]);
    assert_eq!(s, Schema::Type { nullable: false, type_: TypeName::Number(NumType::Int32) });
}

#[test]
fn fractional_numbers_are_floats() {
    let half = Value::Number(NumberLit { integer: None, f32_exact: true });
    let tenth = Value::Number(NumberLit { integer: None, f32_exact: false });
    assert_eq!(
        run(no_hints(), vec![half]),
        Schema::Type { nullable: false, type_: TypeName::Number(NumType::Float32) }
    );
    assert_eq!(
        run(no_hints(), vec![num(1), tenth]),
        Schema::Type { nullable: false, type_: TypeName::Number(NumType::Float64) }
    );
}

#[test]
fn classify_and_join_values() {
    assert_eq!(classify(NumberLit { integer: Some(255), f32_exact: true }), NumType::Uint8);
    assert_eq!(classify(NumberLit { integer: Some(-129), f32_exact: true }), NumType::Int16);
    assert_eq!(classify(NumberLit { integer: Some(70000), f32_exact: true }), NumType::Uint32);
    assert_eq!(classify(NumberLit { integer: Some(-70000), f32_exact: true }), NumType::Int32);
    assert_eq!(classify(NumberLit { integer: Some(5_000_000_000), f32_exact: false }), NumType::Float64);
    assert_eq!(join(NumType::Uint8, NumType::Int8), NumType::Int16);
    assert_eq!(join(NumType::Uint16, NumType::Int8), NumType::Float64);
    assert_eq!(join(NumType::Int8, NumType::Int32), NumType::Int32);
    assert_eq!(join(NumType::Float32, NumType::Uint8), NumType::Float64);
}

#[test]
fn optional_key_never_required_again() {
    let s = run(
        no_hints(),
        vec![
            object(vec![("a", num(1)), ("b", num(1))]),
            object(vec![("b", num(1))]),
            object(vec![("a", num(1)), ("b", num(1))]),
            object(vec![("a", num(1)), ("b", num(1))]),
        ],
    );
    match &s {
        Schema::Properties { required, optional, .. } => {
            assert_eq!(required.len(), 1);
            assert_eq!(required[0].key, "b");
            assert_eq!(optional.len(), 1);
            assert_eq!(optional[0].key, "a");
        }
        other => panic!("not a properties schema: {:?}", other),
    }
}

#[test]
fn nullable_stays_after_null() {
    let s = run(no_hints(), vec![num(5), Value::Null, num(6), num(7)]);
    assert_eq!(s, Schema::Type { nullable: true, type_: TypeName::Number(NumType::Uint8) });
}

#[test]
fn only_null_gives_empty() {
    assert_eq!(run(no_hints(), vec![Value::Null]), Schema::Empty);
}

#[test]
fn conflicting_shapes_give_empty() {
    assert_eq!(run(no_hints(), vec![Value::Bool(true), num(5)]), Schema::Empty);
    assert_eq!(run(no_hints(), vec![Value::Array(vec![]), object(vec![])]), Schema::Empty);
}

#[test]
fn enum_hint_collects_values() {
    let h = hints(NumType::Uint8, vec![path(&["color"])], vec![], vec![]);
    let s = run(h, vec![object(vec![("color", string("red"))]), object(vec![("color", string("blue"))])]);
    match &s {
        Schema::Properties { required, .. } => match entry(required, "color") {
            Schema::Enum { nullable, items } => {
                assert!(!nullable);
                let mut v = items.clone();
                v.sort();
                assert_eq!(v, vec!["blue".to_string(), "red".to_string()]);
            }
            other => panic!("not an enum schema: {:?}", other),
        },
        other => panic!("not a properties schema: {:?}", other),
    }
}

#[test]
fn discriminator_hint_builds_mapping() {
    let h = hints(NumType::Uint8, vec![], vec![], vec![path(&["kind"])]);
    let s = run(
        h,
        vec![
            object(vec![("kind", string("a")), ("x", num(1))]),
            object(vec![("kind", string("b")), ("y", Value::Bool(true))]),
        ],
    );
    match &s {
        Schema::Discriminator { nullable, tag, mapping } => {
            assert!(!nullable);
            assert_eq!(tag, "kind");
            assert_eq!(mapping.len(), 2);
            assert_eq!(
                canon(entry(mapping, "a")),
                "props([x=type(Number(Uint8),false)],[],false)"
            );
            assert_eq!(canon(entry(mapping, "b")), "props([y=type(Boolean,false)],[],false)");
        }
        other => panic!("not a discriminator schema: {:?}", other),
    }
}

#[test]
fn discriminator_without_string_tag_in_later_example_gives_empty() {
    let h = hints(NumType::Uint8, vec![], vec![], vec![path(&["kind"])]);
    let s = run(h, vec![object(vec![("kind", string("a"))]), object(vec![("kind", num(1))])]);
    assert_eq!(s, Schema::Empty);
}

#[test]
fn values_hint_builds_map() {
    let h = hints(NumType::Uint8, vec![], vec![path(&["m"])], vec![]);
    let s = run(h, vec![object(vec![("m", object(vec![("a", num(1)), ("b", num(300))]))])]);
    assert_eq!(
        canon(&s),
        "props([m=values(type(Number(Uint16),false),false)],[],false)"
    );
}

#[test]
fn arrays_share_one_element_schema() {
    let s = run(
        no_hints(),
        vec![Value::Array(vec![num(1), num(2)]), Value::Array(vec![num(-3)])],
    );
    assert_eq!(canon(&s), "elements(type(Number(Int16),false),false)");
}

#[test]
fn timestamps_are_recognised() {
    let ts = string("2020-01-02T03:04:05Z");
    assert_eq!(
        run(no_hints(), vec![ts]),
        Schema::Type { nullable: false, type_: TypeName::Timestamp }
    );
    let ts = string("2020-01-02T03:04:05+01:00");
    assert_eq!(
        run(no_hints(), vec![ts, string("hello")]),
        Schema::Type { nullable: false, type_: TypeName::String }
    );
    assert_eq!(
        run(no_hints(), vec![string("hello")]),
        Schema::Type { nullable: false, type_: TypeName::String }
    );
}

#[test]
fn merging_twice_equals_once() {
    let e = || {
        object(vec![
            ("a", num(7)),
            ("b", Value::Array(vec![string("x"), Value::Null])),
            ("c", object(vec![("d", Value::Bool(false))])),
        ])
    };
    let root: Vec<String> = vec![];
    let h = no_hints();
    let once = unknown().infer(&e(), &root, &h);
    let twice = unknown().infer(&e(), &root, &h).infer(&e(), &root, &h);
    assert_eq!(once, twice);
}

#[test]
fn merge_order_does_not_matter() {
    let a = || object(vec![("foo", Value::Bool(true)), ("bar", string("xxx")), ("n", num(-4))]);
    let b = || object(vec![("foo", Value::Bool(false)), ("bar", Value::Null), ("baz", num(5)), ("n", num(400))]);
    let ab = run(no_hints(), vec![a(), b()]);
    let ba = run(no_hints(), vec![b(), a()]);
    assert_eq!(canon(&ab), canon(&ba));
}

#[test]
fn enum_values_stay_distinct() {
    let root: Vec<String> = vec![];
    let h = hints(NumType::Uint8, vec![vec![]], vec![], vec![]);
    let s = unknown().infer(&string("x"), &root, &h).infer(&string("x"), &root, &h);
    match s.variant {
        Variant::Enum(v) => assert_eq!(v, vec!["x".to_string()]),
        other => panic!("not an enum: {:?}", other),
    }
}

#[test]
fn json_pointers_parse() {
    assert_eq!(parse_json_pointer(""), Vec::<String>::new());
    assert_eq!(parse_json_pointer("/"), vec!["".to_string()]);
    assert_eq!(parse_json_pointer("/foo/bar"), vec!["foo".to_string(), "bar".to_string()]);
    assert_eq!(parse_json_pointer("/a~1b/c~0d"), vec!["a/b".to_string(), "c~d".to_string()]);
    assert_eq!(parse_json_pointer("/~01"), vec!["~1".to_string()]);
}

#[test]
fn number_type_names() {
    assert_eq!(parse_num_type("uint8"), Some(NumType::Uint8));
    assert_eq!(parse_num_type("float64"), Some(NumType::Float64));
    assert_eq!(parse_num_type("int64"), None);
}

#[test]
fn config_rejects_unknown_number_type() {
    let none: Vec<String> = vec![];
    assert_eq!(
        hints_from_config(&none, &none, &none, "decimal").err(),
        Some(ConfigError::InvalidNumberType)
    );
    let h = hints_from_config(&vec!["/color".to_string()], &none, &none, "int16").ok().unwrap();
    assert_eq!(h.default_num_type, NumType::Int16);
    assert_eq!(h.enums.paths, vec![vec!["color".to_string()]]);
}

#[test]
fn numbers_widen_from_default_kind() {
    let h = || hints(NumType::Int8, vec![], vec![], vec![]);
    let expected = Schema::Type { nullable: false, type_: TypeName::Number(NumType::Int16) };
    assert_eq!(run(h(), vec![num(1), num(200)]), expected);
    assert_eq!(run(h(), vec![num(200), num(1)]), expected);
    assert_eq!(
        run(h(), vec![num(1), num(1)]),
        Schema::Type { nullable: false, type_: TypeName::Number(NumType::Int8) }
    );
}

#[test]
fn tagless_object_at_tagged_position_commutes() {
    let h = || hints(NumType::Uint8, vec![], vec![], vec![path(&["kind"])]);
    let tagged = || object(vec![("kind", string("x"))]);
    let bare = || object(vec![]);
    assert_eq!(run(h(), vec![tagged(), bare()]), Schema::Empty);
    assert_eq!(run(h(), vec![bare(), tagged()]), Schema::Empty);
}

#[test]
fn enum_items_are_sorted_whatever_the_order() {
    let h = || hints(NumType::Uint8, vec![vec![]], vec![], vec![]);
    let expected = Schema::Enum { nullable: false, items: vec!["blue".to_string(), "green".to_string(), "red".to_string()] };
    assert_eq!(run(h(), vec![string("red"), string("blue"), string("green")]), expected);
    assert_eq!(run(h(), vec![string("green"), string("red"), string("blue"), string("red")]), expected);
}
