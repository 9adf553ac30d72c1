//! Value-classification tests: literals, strings, composites and the
//! decimal-number grammar.

use mison::bit;
use mison::errors::Error;
use mison::value::{parse, Value, ValueType};

fn is_number_text(s: &[u8]) -> bool {
    matches!(parse(s), Ok(ValueType::Atomic(Value::Number(_))))
}

#[test]
fn literals_classify_exactly() {
    assert!(matches!(parse(b"null"), Ok(ValueType::Atomic(Value::Null))));
    assert!(matches!(
        parse(b"true"),
        Ok(ValueType::Atomic(Value::Boolean(true)))
    ));
    assert!(matches!(
        parse(b"false"),
        Ok(ValueType::Atomic(Value::Boolean(false)))
    ));
    // a near-literal is no literal
    assert!(parse(b"nul").is_err());
    assert!(parse(b"truth").is_err());
}

#[test]
fn strings_keep_their_raw_body() {
    match parse(br#""a\"b""#) {
        Ok(ValueType::Atomic(Value::String(s))) => assert_eq!(s.as_raw_str(), br#"a\"b"#),
        other => panic!("expected a string, got {:?}", other),
    }
    // a lone quote is not a string
    assert!(parse(br#"""#).is_err());
}

#[test]
fn composites_are_sentinels() {
    assert!(matches!(parse(b"[1, 2]"), Ok(ValueType::Array)));
    assert!(matches!(parse(b"{}"), Ok(ValueType::Object)));
}

#[test]
fn number_grammar() {
    assert!(is_number_text(b"0"));
    assert!(is_number_text(b"10"));
    assert!(is_number_text(b"-2.5"));
    assert!(is_number_text(b"+3"));
    assert!(is_number_text(b"2.5e10"));
    assert!(is_number_text(b"2.5E-10"));
    assert!(is_number_text(b".5"));
    assert!(is_number_text(b"5."));
    assert!(!is_number_text(b""));
    assert_eq!(parse(b"").unwrap_err(), Error::InvalidRecord);
    assert!(parse(b"-").is_err());
    assert!(parse(b"1e").is_err());
    assert!(parse(b"1.2.3").is_err());
    assert!(parse(b"nope").is_err());
}

#[test]
fn error_messages_name_their_kind() {
    assert_eq!(Error::InvalidQuery.message(), "invalid query");
    assert_eq!(Error::InvalidRecord.message(), "invalid record");
    assert_eq!(
        Error::FailedSpeculativeParse.message(),
        "failed to parse in speculative parsing mode"
    );
}

#[test]
fn word_operations_single_bits() {
    assert_eq!(bit::R(0b_1110_1000), 0b_1110_0000);
    assert_eq!(bit::L(0b_1110_1000), 0b_0110_1000);
    assert_eq!(bit::E(0b_1110_1000), 0b_0000_1000);
    assert_eq!(bit::S(0b_1110_1000), 0b_0000_1111);
    assert_eq!(bit::R(0), 0);
    assert_eq!(bit::E(0), 0);
    assert_eq!(bit::S(0), 0);
    assert_eq!(bit::leading_ones(0b_0011_1000_u64, 6), 3);
    assert_eq!(bit::leading_ones(u64::MAX, 64), 64);
    assert_eq!(bit::leading_ones(0, 64), 0);
}
