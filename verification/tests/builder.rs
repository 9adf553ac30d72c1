//! Index-construction tests: raw bitmaps, quote correction, string masking
//! and the leveled colon and comma bitmaps, checked bit for bit.

use mison::backend::{Bitmap, FallbackBackend};
use mison::builder::IndexBuilder;

struct TestCase {
    input: &'static [u8],
    level: usize,
    bitmaps: Vec<Bitmap>,
    b_colon: Vec<Vec<u64>>,
    b_comma: Vec<Vec<u64>>,
}

#[test]
fn test_structural_character_bitmaps() {
    let cases = vec![
        TestCase {
            input: b"{}",
            level: 1,
            bitmaps: vec![Bitmap {
                backslash: 0,
                quote: 0,
                colon: 0,
                comma: 0,
                left_brace: 0b0000_0001,
                right_brace: 0b0000_0010,
                left_bracket: 0,
                right_bracket: 0,
            }],
            b_colon: vec![vec![0]],
            b_comma: vec![vec![0]],
        },
        TestCase {
            input: br#"{"x\"y\\":10}"#,
            level: 1,
            bitmaps: vec![Bitmap {
                backslash: 0b_0000_0000_1100_1000,
                quote: 0b_0000_0001_0000_0010,
                colon: 0b_0000_0010_0000_0000,
                comma: 0,
                left_brace: 0b_0000_0000_0000_0001,
                right_brace: 0b_0001_0000_0000_0000,
                left_bracket: 0,
                right_bracket: 0,
            }],
            b_colon: vec![vec![0b_0000_0010_0000_0000]],
            b_comma: vec![vec![0b_0000_0000_0000_0000]],
        },
        TestCase {
            input: br#"{ "f1":"a", "f2":{ "e1": true, "e2": "::a" }, "f3":"\"foo\\" }"#,
            level: 2,
            bitmaps: vec![Bitmap {
                backslash: 0b_0000_0110_0001_0000_0000_0000_0000_0000_0000_0000_0000_0000_0000_0000_0000_0000,
                quote: 0b_0000_1000_0000_1010_0100_0010_0010_0100_1000_0000_0100_1000_1001_0010_1010_0100,
                colon: 0b_0000_0000_0000_0100_0000_0000_0000_1000_0000_0000_1000_0001_0000_0000_0100_0000,
                comma: 0b_0000_0000_0000_0000_0001_0000_0000_0000_0010_0000_0000_0000_0000_0100_0000_0000,
                left_brace: 0b_0000_0000_0000_0000_0000_0000_0000_0000_0000_0000_0000_0010_0000_0000_0000_0001,
                right_brace: 0b_0010_0000_0000_0000_0000_1000_0000_0000_0000_0000_0000_0000_0000_0000_0000_0000,
                left_bracket: 0,
                right_bracket: 0,
            }],
            b_colon: vec![
                vec![
                    0b_0000_0000_0000_0100_0000_0000_0000_0000_0000_0000_0000_0001_0000_0000_0100_0000,
                ],
                vec![
                    0b_0000_0000_0000_0100_0000_0000_0000_1000_0000_0000_1000_0001_0000_0000_0100_0000,
                ],
            ],
            b_comma: vec![
                vec![
                    0b_0000_0000_0000_0000_0001_0000_0000_0000_0000_0000_0000_0000_0000_0100_0000_0000,
                ],
                vec![
                    0b_0000_0000_0000_0000_0001_0000_0000_0000_0010_0000_0000_0000_0000_0100_0000_0000,
                ],
            ],
        },
        TestCase {
            input: br#"{ "f1": { "e1": { "d1": true } } }"#,
            level: 3,
            bitmaps: vec![Bitmap {
                backslash: 0,
                quote: 2368548,
                colon: 4210752,
                comma: 0,
                left_brace: 65793,
                right_brace: 11274289152,
                left_bracket: 0,
                right_bracket: 0,
            }],
            b_colon: vec![vec![64], vec![16448], vec![4210752]],
            b_comma: vec![vec![0], vec![0], vec![0]],
        },
        TestCase {
            input: br#"{ "a": [0, 1, 2] }"#,
            level: 2,
            bitmaps: vec![Bitmap {
                backslash: 0,
                quote: 20,
                colon: 32,
                comma: 4608,
                left_brace: 1,
                right_brace: 131072,
                left_bracket: 128,
                right_bracket: 32768,
            }],
            b_colon: vec![
                vec![0b_0000_0000_0000_0010_0000],
                vec![0b_0000_0000_0000_0010_0000],
            ],
            b_comma: vec![
                vec![0b_0000_0000_0000_0000_0000],
                vec![0b_0000_0001_0010_0000_0000],
            ],
        },
    ];

    for t in cases {
        let index_builder = IndexBuilder::new(FallbackBackend::default(), t.level);
        let actual = index_builder.build(t.input).unwrap();
        assert_eq!(t.bitmaps, actual.bitmaps);
        assert_eq!(t.b_colon, actual.b_colon);
        assert_eq!(t.b_comma, actual.b_comma);
    }
}

#[test]
fn build_rejects_unbalanced_records() {
    let index_builder = IndexBuilder::new(FallbackBackend::default(), 1);
    assert!(index_builder.build(b"{").is_err());
    assert!(index_builder.build(b"}").is_err());
    assert!(index_builder.build(br#"{"a": [1, 2}"#).is_err());
    assert!(index_builder.build(b"{}").is_ok());
    assert!(index_builder.build(br#"{"a": 1}"#).is_ok());
}

#[test]
fn build_is_idempotent() {
    let record = br#"{ "f1": true, "f2": { "e1": 1 } }"#;
    let index_builder = IndexBuilder::new(FallbackBackend::default(), 2);
    let first = index_builder.build(record).unwrap();
    let again = index_builder.build(record).unwrap();
    assert_eq!(first.bitmaps, again.bitmaps);
    assert_eq!(first.b_colon, again.b_colon);
    assert_eq!(first.b_comma, again.b_comma);
}

#[test]
fn escaped_quotes_never_open_strings() {
    // a quote after an even run of backslashes is structural, after an odd
    // run it is not
    let record = br#"{"a\\": "b\"c"}"#;
    let index_builder = IndexBuilder::new(FallbackBackend::default(), 1);
    let index = index_builder.build(record).unwrap();
    // positions of the structural quotes: 1, 5, 8, 13
    let expected_quote: u64 = (1 << 1) | (1 << 5) | (1 << 8) | (1 << 13);
    assert_eq!(index.bitmaps[0].quote, expected_quote);
    // the colon at position 6 survives; none is hidden inside a string
    assert_eq!(index.bitmaps[0].colon, 1 << 6);
}

#[test]
fn string_interior_masks_structural_bytes() {
    let record = br#"{"a": "}:,[]{"}"#;
    let index_builder = IndexBuilder::new(FallbackBackend::default(), 1);
    let index = index_builder.build(record).unwrap();
    // every brace, bracket, colon and comma between the value quotes is
    // masked out
    assert_eq!(index.bitmaps[0].colon, 1 << 4);
    assert_eq!(index.bitmaps[0].comma, 0);
    assert_eq!(index.bitmaps[0].left_brace, 1 << 0);
    assert_eq!(index.bitmaps[0].right_brace, 1 << 14);
    assert_eq!(index.bitmaps[0].left_bracket, 0);
    assert_eq!(index.bitmaps[0].right_bracket, 0);
}
