//! The syntax tree of a program and the tokenizer of quoted string templates.

pub mod format_string;
pub mod grammar;
pub mod str_range;
pub mod tree;
