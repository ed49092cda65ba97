use jtd_infer_core::number::NumberLit;
use jtd_infer_core::schema::{Entry, TypeName};
use jtd_infer_core::value::Member;
use jtd_infer_core::{HintSet, Hints, Inferrer, NumType, Schema, Value};
use std::collections::BTreeMap;

fn to_value(v: &serde_json::Value) -> Value {
    match v {
        serde_json::Value::Null => Value::Null,
        serde_json::Value::Bool(b) => Value::Bool(*b),
        serde_json::Value::Number(n) => Value::Number(match n.as_i64() {
            Some(i) => NumberLit { integer: Some(i), f32_exact: (i as f32) as i64 == i },
            None => {
                let f = n.as_f64().unwrap();
                NumberLit { integer: None, f32_exact: (f as f32) as f64 == f }
            }
        }),
        serde_json::Value::String(s) => Value::String(s.clone()),
        serde_json::Value::Array(a) => Value::Array(a.iter().map(to_value).collect()),
        serde_json::Value::Object(o) => Value::Object(
            o.iter().map(|(k, v)| Member { key: k.clone(), value: to_value(v) }).collect(),
        ),
    }
}

fn jtd_type(t: TypeName) -> jtd::Type {
    match t {
        TypeName::Boolean => jtd::Type::Boolean,
        TypeName::String => jtd::Type::String,
        TypeName::Timestamp => jtd::Type::Timestamp,
        TypeName::Number(NumType::Int8) => jtd::Type::Int8,
        TypeName::Number(NumType::Uint8) => jtd::Type::Uint8,
        TypeName::Number(NumType::Int16) => jtd::Type::Int16,
        TypeName::Number(NumType::Uint16) => jtd::Type::Uint16,
        TypeName::Number(NumType::Int32) => jtd::Type::Int32,
        TypeName::Number(NumType::Uint32) => jtd::Type::Uint32,
        TypeName::Number(NumType::Float32) => jtd::Type::Float32,
        TypeName::Number(NumType::Float64) => jtd::Type::Float64,
    }
}

fn entries(es: Vec<Entry>) -> BTreeMap<String, jtd::Schema> {
    es.into_iter().map(|e| (e.key, to_jtd(e.schema))).collect()
}

fn to_jtd(s: Schema) -> jtd::Schema {
    let definitions = BTreeMap::new();
    let metadata = BTreeMap::new();
    match s {
        Schema::Empty => jtd::Schema::Empty { definitions, metadata },
        Schema::Type { nullable, type_ } => {
            jtd::Schema::Type { definitions, metadata, nullable, type_: jtd_type(type_) }
        }
        Schema::Enum { nullable, items } => {
            jtd::Schema::Enum { definitions, metadata, nullable, enum_: items.into_iter().collect() }
        }
        Schema::Elements { nullable, elements } => jtd::Schema::Elements {
            definitions,
            metadata,
            nullable,
            elements: Box::new(to_jtd(*elements)),
        },
        Schema::Properties { nullable, required, optional } => jtd::Schema::Properties {
            definitions,
            metadata,
            nullable,
            properties: entries(required),
            optional_properties: entries(optional),
            properties_is_present: true,
            additional_properties: false,
        },
        Schema::Values { nullable, values } => jtd::Schema::Values {
            definitions,
            metadata,
            nullable,
            values: Box::new(to_jtd(*values)),
        },
        Schema::Discriminator { nullable, tag, mapping } => jtd::Schema::Discriminator {
            definitions,
            metadata,
            nullable,
            discriminator: tag,
            mapping: entries(mapping),
        },
    }
}

fn path(names: &[&str]) -> Vec<String> {
    names.iter().map(|s| s.to_string()).collect()
}

/// Folds in the examples one at a time, and after each checks every
/// example so far against the emitted schema.
fn check_every_prefix(make_hints: &dyn Fn() -> Hints, texts: &[&str]) {
    let examples: Vec<serde_json::Value> =
        texts.iter().map(|t| serde_json::from_str(t).unwrap()).collect();
    for k in 1..=examples.len() {
        let mut inferrer = Inferrer::new(make_hints());
        for e in &examples[..k] {
            inferrer = inferrer.infer(to_value(e));
        }
        let schema = to_jtd(inferrer.into_schema());
        schema.validate().expect("emitted schema is not valid");
        for e in &examples[..k] {
            let errors = jtd::validate(&schema, e, jtd::ValidateOptions::new()).unwrap();
            assert!(errors.is_empty(), "{} rejected by {:?}", e, schema);
        }
    }
}

fn plain() -> Hints {
    Hints::new(NumType::Uint8, HintSet::new(vec![]), HintSet::new(vec![]), HintSet::new(vec![]))
}

#[test]
fn every_prefix_accepts_its_examples() {
    check_every_prefix(
        &plain,
        &[
            r#"{"foo": true, "bar": "xxx"}"#,
            r#"{"foo": false, "bar": null, "baz": 5}"#,
            r#"{"foo": true, "bar": "yyy", "baz": -300, "list": [1, 2.5, null]}"#,
            r#"{"foo": false, "when": "2020-01-02T03:04:05Z", "nested": {"a": [[1], []]}}"#,
            r#"{"foo": true, "when": "not a time", "nested": {"a": null, "b": 70000}}"#,
        ],
    );
}

#[test]
fn every_prefix_accepts_conflicting_examples() {
    check_every_prefix(&plain, &["1", "\"one\"", "[1]", "null", "{\"a\": 1}"]);
}

#[test]
fn every_prefix_accepts_hinted_examples() {
    let hinted = || {
        Hints::new(
            NumType::Int32,
            HintSet::new(vec![path(&["color"])]),
            HintSet::new(vec![path(&["counts"])]),
            HintSet::new(vec![path(&["shape", "kind"])]),
        )
    };
    check_every_prefix(
        &hinted,
        &[
            r#"{"color": "red", "counts": {"x": 1}, "shape": {"kind": "circle", "r": 2}}"#,
            r#"{"color": "blue", "counts": {}, "shape": {"kind": "square", "side": 3.5}}"#,
            r#"{"color": null, "counts": {"y": -7, "z": 100000}, "shape": {"kind": "circle", "r": 1, "fill": true}}"#,
        ],
    );
}
