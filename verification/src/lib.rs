//! Conversion of line-oriented `key = value` configuration text, with dotted
//! keys for nesting, into a structured document, optionally checked against
//! a schema of expected value types.
//!
//! A line assigns where it is neither a comment nor blank and holds `=`
//! (see [`line`]). The key of an assignment is split on `.` into a path
//! (see [`text`]), its raw value is read as a boolean, an integer or a
//! text (see [`config_from_lines::infer`]), and the value is written at
//! the path into the document built so far (see
//! [`document::Document::set`]). [`config_from_lines()`] converts a whole
//! sequence of lines; [`json_from_conf()`] does the same under a
//! [`Schema`], which lists the keys that may appear and the type of value
//! that each must have.
//!
//! Every contract is stated over [`document::Document`], the mathematical
//! value of a document.

pub mod bindings;
pub mod config_from_lines;
pub mod document;
pub mod equality;
pub mod file_reader;
pub mod json_from_conf;
pub mod line;
pub mod model;
pub mod number;
pub mod text;

pub use config_from_lines::{
    config_from_lines, config_value_from_str, set_config, Config, ConfigValue,
};
pub use file_reader::lines_from_text;
pub use json_from_conf::{json_from_conf, JsonFromConfError};
pub use model::schema::{schema_from_rules, Schema, SchemaError, ValueType};
