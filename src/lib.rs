//! A small text format for tagged values (text, numbers, booleans, objects,
//! null): a parser from text to values and a serializer back to canonical text.
//!
//! - `value`: the values, their mathematical form, and objects kept in
//!   ascending key order, each key once (a later binding replaces an earlier).
//! - `serialize`: canonical text. Text is quoted verbatim, with no escaping.
//! - `parse`: the parser. Object bodies are split at every `,` and each entry
//!   at its first `:`, with no regard to nesting or quotes.
//! - `text`: white space, trimming, searching and key order on characters.
//!
//! A number is a double held as the text that the platform's default float
//! formatting gives for it. Reading a literal as a double is the caller's
//! part: `JsonValue::parse` stops with `ParseStep::NeedsNumber` at a literal
//! that its list of readings lacks, and is called again with that literal
//! read.
pub mod text;
pub mod value;
pub mod serialize;
pub mod parse;
