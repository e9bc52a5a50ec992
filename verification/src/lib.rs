//! Extraction of known skill and technology tags from free-text job
//! descriptions.
//!
//! A vocabulary of literal tags is compiled into one case-insensitive,
//! word-bounded matcher; each row's description is cleaned of escaped
//! newlines and scanned, and the tags found are collected per row
//! identifier.

pub mod extract;
pub mod matcher;
pub mod normalize;
pub mod pattern;
pub mod result_map;
pub mod trusted;
pub mod vocabulary;
