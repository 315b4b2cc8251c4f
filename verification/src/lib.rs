//! Free-text expense message interpreter.
//!
//! Turns a raw, user-typed sentence ("Chocolate pie for 9,75 yesterday") into
//! a structured budget record: an amount, a category, a date and a
//! description.  The pipeline is: tokenize the text, extract the first
//! numeric amount, classify the words against a prioritized category table,
//! resolve a relative-date expression ("2 days ago", "last Monday") into a
//! day offset, and assemble the record.

pub mod categorizer;
pub mod date_parser;
pub mod events;
pub mod handler;
pub mod input;
pub mod numtext;
pub mod sheets;
pub mod text;
pub mod tokenizer;
