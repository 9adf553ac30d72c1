//! Whole-record parsing tests: the value tree read out of the structural
//! index, zero-copy and with escape sequences kept raw.

use mison::backend::FallbackBackend;
use mison::builder::IndexBuilder;
use mison::parser::Parser;
use mison::value::{EscapedStr, ObjectField, Value};

fn field<'a>(name: &'a [u8], value: Value<'a>) -> ObjectField<'a> {
    ObjectField { name: EscapedStr(name), value }
}

#[test]
fn parser_basic_parsing() {
    let record = br#"{
            "f1": true,
            "f2": {
                "e2": "\"foo\\",
                "e1": { "c1": null }
            },
            "f3": [ true, "10", null ]
        }"#;

    let backend = FallbackBackend::default();
    let index_builder = IndexBuilder::new(backend, 4);
    let parser = Parser::new(index_builder);

    let result = parser.parse(record).unwrap();
    assert_eq!(
        result,
        Value::Object(vec![
            field(b"f1", Value::Boolean(true)),
            field(
                b"f2",
                Value::Object(vec![
                    field(b"e2", Value::String(EscapedStr(br#"\"foo\\"#))),
                    field(b"e1", Value::Object(vec![field(b"c1", Value::Null)])),
                ])
            ),
            field(
                b"f3",
                Value::Array(vec![
                    Value::Boolean(true),
                    Value::String(EscapedStr(b"10")),
                    Value::Null,
                ])
            ),
        ])
    );
}

#[test]
fn basic_parsing_2() {
    let record = br#"{
            "f1": true,
            "f2": {
                "e2": "\"foo\\",
                "e1": { "c1": null }
            },
            "f3": [ true, "10", null ]
        }"#;

    let backend = FallbackBackend::default();
    let index_builder = IndexBuilder::new(backend, 2);
    let parser = Parser::new(index_builder);

    let result = parser.parse(record).unwrap();
    assert_eq!(
        result,
        Value::Object(vec![
            field(b"f1", Value::Boolean(true)),
            field(
                b"f2",
                Value::Object(vec![
                    field(b"e2", Value::String(EscapedStr(br#"\"foo\\"#))),
                    field(b"e1", Value::raw(br#"{ "c1": null }"#)),
                ])
            ),
            field(
                b"f3",
                Value::Array(vec![
                    Value::Boolean(true),
                    Value::String(EscapedStr(b"10")),
                    Value::Null,
                ])
            ),
        ])
    );
}

#[test]
fn parsing_numbers_keeps_their_text() {
    let record = br#"{ "a": 10, "b": -2.5, "c": 1e3 }"#;
    let parser = Parser::new(IndexBuilder::new(FallbackBackend::default(), 1));
    let result = parser.parse(record).unwrap();
    assert_eq!(
        result,
        Value::Object(vec![
            field(b"a", Value::Number(b"10")),
            field(b"b", Value::Number(b"-2.5")),
            field(b"c", Value::Number(b"1e3")),
        ])
    );
}

#[test]
fn malformed_values_are_invalid_records() {
    let parser = Parser::new(IndexBuilder::new(FallbackBackend::default(), 1));
    assert!(parser.parse(br#"{ "a": nope }"#).is_err());
    assert!(parser.parse(br#"{ "a": }"#).is_err());
    // without any colon the object simply has no fields
    assert_eq!(
        parser.parse(br#"{ "a" 1 }"#).unwrap(),
        Value::Object(vec![])
    );
}

#[test]
fn reparsing_gives_identical_values() {
    let record = br#"{ "f1": [1, 2], "f2": "x" }"#;
    let parser = Parser::new(IndexBuilder::new(FallbackBackend::default(), 2));
    let first = parser.parse(record).unwrap();
    let again = parser.parse(record).unwrap();
    assert_eq!(first, again);
}

#[test]
fn extracted_object_text_reparses() {
    // the raw slice a level-capped parse returns is itself a well-formed
    // value text
    let record = br#"{ "f2": { "e1": { "c1": null } } }"#;
    let shallow = Parser::new(IndexBuilder::new(FallbackBackend::default(), 2));
    let result = shallow.parse(record).unwrap();
    let inner = match result {
        Value::Object(fields) => match &fields[0].value {
            Value::Object(inner_fields) => match &inner_fields[0].value {
                Value::Raw(text) => text.to_vec(),
                v => panic!("expected a raw inner object, got {:?}", v),
            },
            v => panic!("expected an object, got {:?}", v),
        },
        v => panic!("expected an object, got {:?}", v),
    };
    let deep = Parser::new(IndexBuilder::new(FallbackBackend::default(), 2));
    let reparsed = deep.parse(&inner).unwrap();
    assert_eq!(
        reparsed,
        Value::Object(vec![field(b"c1", Value::Null)])
    );
}
