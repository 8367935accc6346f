//! Execution core of a small embeddable scripting language.
//!
//! - [`parser`]: quoted string templates, the syntax tree, and what a parse
//!   tree becomes.
//! - [`runtime`]: values, scopes, the function registry, and the evaluator
//!   as a machine that is stepped by its driver.
//! - [`builtin`]: functions of the host that compute on values alone.
//! - [`split`] and [`text`]: cutting and joining texts, byte ranges and
//!   decimal numerals.

pub mod builtin;
pub mod parser;
pub mod runtime;
pub mod split;
pub mod text;
