//! A small compiler front end for a language of single functions.
//!
//! [`parser::parse`] turns source text into a syntax tree, and
//! [`types::type_check_function`] checks the tree: it resolves names in a
//! [`scope::Scope`] and unifies the types of declarations, assignments and
//! returns. Each of the two ends with its result or with the first
//! [`error::Error`] that it meets.
//!
//! What the two compute is stated as functions of plain values:
//! [`parser::grammar::parsed`] for the parser and
//! [`types::model::checked`] for the type check. What holds of these
//! functions for every input stands in [`parser::laws`], [`parser::printer`]
//! and [`types::laws`].

pub mod error;
pub mod parser;
pub mod scope;
pub mod types;
