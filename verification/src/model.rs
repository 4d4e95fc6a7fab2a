//! The rules that a document can be held to.

pub mod schema;
