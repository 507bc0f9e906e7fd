//! A query engine for exploring JSON data: a dot-notation path language
//! with indices, slices, wildcards and filter predicates, a chainable set
//! of reshaping commands, and a schema-inference engine that summarises
//! the shape of a value.

pub mod clipboard;
pub mod config;
pub mod format;
pub mod history;
pub mod json;
pub mod keys;
pub mod modes;
pub mod num;
pub mod prompts;
pub mod query;
pub mod schema;
pub mod suggestion;
pub mod text;
pub mod transform;
pub mod value;
