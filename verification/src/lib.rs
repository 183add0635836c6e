//! A small loader for configuration text of the form `key = value`.
//!
//! [`get_variable_map`] parses a text into a [`VariableMap`], and
//! [`VariableMap::get_val`] looks a key up in it. A text is read line by
//! line: a line that holds a `=` binds what stands before the first `=` to
//! what stands after it, both trimmed of whitespace, and any other line is
//! skipped. A key that is bound again takes its new value.
//!
//! What a text means is defined in [`syntax`] as the function `parse` on
//! sequences of characters, and the parser is proved to compute it. The
//! module [`laws`] proves what follows for every text.

pub mod chars;
pub mod laws;
pub mod parser;
pub mod syntax;
pub mod trim;
pub mod variable_map;

pub use parser::get_variable_map;
pub use variable_map::VariableMap;
