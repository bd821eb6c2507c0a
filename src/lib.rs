//! Spelling checks for identifiers and documentation text.
//!
//! Names are split into words, each word is looked up in a dictionary without
//! regard to case, and the unknown words are gathered per source span and
//! reported in source order.

pub mod text;
pub mod segment;
pub mod dictionary;
pub mod checker;
pub mod span_map;
pub mod collector;
pub mod lint;
