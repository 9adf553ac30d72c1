//! A structural-index JSON parser: per-record character bitmaps locate the
//! structural bytes of a record, and field queries are answered from those
//! bitmaps without scanning value bytes.

pub mod backend;
pub mod bit;
pub mod builder;
pub mod errors;
pub mod index;
pub mod model;
pub mod parser;
pub mod pattern_tree;
pub mod query;
pub mod query_parser;
pub mod value;
