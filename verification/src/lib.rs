//! A concordance of a paginated document: for each word, the forms in which it occurs and
//! the pages on which it does.
//!
//! The text of each page is split into tokens. A token is normalized, which gives the
//! lowercase key it is grouped under and the surface form that is kept for display, or
//! discards it; an optional vocabulary restricts the keys. What is accepted is recorded in
//! the index, and the index is rendered as a report with one line for each key.

pub mod builder;
pub mod decimal;
pub mod index;
pub mod lines;
pub mod normalize;
pub mod order;
pub mod report;
pub mod text;
pub mod tokens;
pub mod vocabulary;
pub mod word_set;
