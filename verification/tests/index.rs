//! Value-range extraction tests: whitespace trimming and trailing-delimiter
//! collapse around object and array values.

use mison::backend::FallbackBackend;
use mison::builder::IndexBuilder;
use mison::index::{find_array_value, find_object_value};

struct TestCase {
    input: &'static [u8],
    begin: usize,
    end: usize,
    delim: u8,
    expect: (usize, usize),
}

#[test]
fn test_find_object_value() {
    let tests = &[
        TestCase {
            input: br#"{ "a": {}, "b": [] } "#,
            begin: 6,
            end: 10,
            delim: b',',
            expect: (7, 9),
        },
        TestCase {
            input: br#"{ "a": {}, "b": [] } "#,
            begin: 16,
            end: 21,
            delim: b'}',
            expect: (16, 18),
        },
    ];
    for t in tests {
        let actual = find_object_value(t.input, t.begin, t.end, t.delim);
        assert_eq!(actual, t.expect);
    }
}

#[test]
fn array_values_trim_whitespace_only() {
    assert_eq!(find_array_value(b"[ 1 , 2 ]", 1, 4), (2, 3));
    assert_eq!(find_array_value(b"[ 1 , 2 ]", 5, 8), (6, 7));
    assert_eq!(find_array_value(b"[  ]", 1, 3), (3, 3));
}

#[test]
fn colon_positions_respect_range_and_level() {
    let record = br#"{ "a": { "b": 1 }, "c": 2 }"#;
    let index_builder = IndexBuilder::new(FallbackBackend::default(), 2);
    let index = index_builder.build(record).unwrap();
    let mut cp = Vec::new();
    // level 0 sees only the outer colons
    assert!(index.colon_positions(0, record.len(), 0, &mut cp));
    assert_eq!(cp, vec![5, 22]);
    // level 1 sees the nested one as well
    assert!(index.colon_positions(0, record.len(), 1, &mut cp));
    assert_eq!(cp, vec![5, 12, 22]);
    // a level the index was not built for is refused
    assert!(!index.colon_positions(0, record.len(), 2, &mut cp));
    assert_eq!(cp, Vec::<usize>::new());
    // a narrowed range keeps only the positions inside it
    assert!(index.colon_positions(6, 18, 1, &mut cp));
    assert_eq!(cp, vec![12]);
}

#[test]
fn find_object_field_returns_the_preceding_name() {
    let record = br#"{ "name": 1, "other": 2 }"#;
    let index_builder = IndexBuilder::new(FallbackBackend::default(), 1);
    let index = index_builder.build(record).unwrap();
    let (name, fsi) = index.find_object_field(0, 8).unwrap();
    assert_eq!(name.as_raw_str(), b"name");
    assert_eq!(fsi, 3);
    let (name2, fsi2) = index.find_object_field(11, 20).unwrap();
    assert_eq!(name2.as_raw_str(), b"other");
    assert_eq!(fsi2, 14);
    // a window without two quotes has no field name
    assert!(index.find_object_field(0, 2).is_err());
}
