//! Query-evaluation tests: field extraction by path, speculative replays of
//! recorded orderings, and the errors malformed inputs raise.

use mison::backend::FallbackBackend;
use mison::builder::IndexBuilder;
use mison::query::QueryTree;
use mison::query_parser::{QueryParser, QueryParserMode};

fn tree(paths: &[&[u8]]) -> QueryTree {
    let mut query_tree = QueryTree::default();
    for path in paths {
        query_tree.add_path(path).unwrap();
    }
    query_tree
}

#[test]
fn query_parser_basic_parsing() {
    let paths: &[&[u8]] = &[b"$.f1", b"$.f2.e1", b"$.f3"];
    let record = br#"{
            "f1": true,
            "f2": {
                "e2": "\"foo\\",
                "e1": { "c1": null }
            },
            "f3": [ true, "10", null ]
        }"#;

    let query_tree = tree(paths);
    let index_builder = IndexBuilder::new(FallbackBackend::default(), query_tree.max_level());
    let mut parser = QueryParser::new(index_builder, query_tree);

    let result = parser.parse(record, QueryParserMode::Basic).unwrap();
    assert_eq!(
        result,
        vec![
            Some(&b"true"[..]),
            Some(&br#"{ "c1": null }"#[..]),
            Some(&br#"[ true, "10", null ]"#[..]),
        ]
    );
}

#[test]
fn speculative_parsing() {
    let paths: &[&[u8]] = &[b"$.f1", b"$.f2.e1", b"$.f3"];
    let record = br#"{
            "f1": true,
            "f2": {
                "e2": "\"foo\\",
                "e1": { "c1": null }
            },
            "f3": [ true, "10", null ]
        }"#;

    let query_tree = tree(paths);
    let index_builder = IndexBuilder::new(FallbackBackend::default(), query_tree.max_level());
    let mut parser = QueryParser::new(index_builder, query_tree);
    parser.save_patterns(true);
    parser.allow_fallback(false);

    let _ = parser.parse(record, QueryParserMode::Basic).unwrap();

    let result = parser.parse(record, QueryParserMode::Speculative).unwrap();
    assert_eq!(
        result,
        vec![
            Some(&b"true"[..]),
            Some(&br#"{ "c1": null }"#[..]),
            Some(&br#"[ true, "10", null ]"#[..]),
        ]
    );
}

#[test]
fn missing_value_is_an_invalid_record() {
    let query_tree = tree(&[b"$.f1"]);
    let index_builder = IndexBuilder::new(FallbackBackend::default(), query_tree.max_level());
    let mut parser = QueryParser::new(index_builder, query_tree);
    let result = parser.parse(br#"{ "f1": }"#, QueryParserMode::Basic);
    assert_eq!(result.unwrap_err(), mison::errors::Error::InvalidRecord);
}

#[test]
fn absent_fields_stay_none() {
    let query_tree = tree(&[b"$.here", b"$.gone"]);
    let index_builder = IndexBuilder::new(FallbackBackend::default(), query_tree.max_level());
    let mut parser = QueryParser::new(index_builder, query_tree);
    let result = parser
        .parse(br#"{ "here": 1, "other": 2 }"#, QueryParserMode::Basic)
        .unwrap();
    assert_eq!(result, vec![Some(&b"1"[..]), None]);
}

#[test]
fn only_objects_stand_at_the_top() {
    let query_tree = tree(&[b"$.a"]);
    let index_builder = IndexBuilder::new(FallbackBackend::default(), query_tree.max_level());
    let mut parser = QueryParser::new(index_builder, query_tree);
    assert!(parser.parse(b"[1, 2]", QueryParserMode::Basic).is_err());
    assert!(parser.parse(b"", QueryParserMode::Basic).is_err());
}

#[test]
fn speculative_without_history_needs_fallback() {
    let query_tree = tree(&[b"$.a"]);
    let index_builder = IndexBuilder::new(FallbackBackend::default(), query_tree.max_level());
    let mut parser = QueryParser::new(index_builder, query_tree);
    parser.allow_fallback(false);
    let result = parser.parse(br#"{ "a": 1 }"#, QueryParserMode::Speculative);
    assert_eq!(
        result.unwrap_err(),
        mison::errors::Error::FailedSpeculativeParse
    );
    parser.allow_fallback(true);
    let result = parser
        .parse(br#"{ "a": 1 }"#, QueryParserMode::Speculative)
        .unwrap();
    assert_eq!(result, vec![Some(&b"1"[..])]);
}

#[test]
fn reparsing_gives_identical_results() {
    let query_tree = tree(&[b"$.f1", b"$.f2"]);
    let index_builder = IndexBuilder::new(FallbackBackend::default(), query_tree.max_level());
    let mut parser = QueryParser::new(index_builder, query_tree);
    let record = br#"{ "f1": [1, 2], "f2": "x" }"#;
    let first = parser.parse(record, QueryParserMode::Basic).unwrap();
    let again = parser.parse(record, QueryParserMode::Basic).unwrap();
    assert_eq!(first, again);
}
