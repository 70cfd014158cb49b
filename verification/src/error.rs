//! The errors of both phases. Each run ends with a result or with exactly one error.

use crate::parser::token::Expected;
use crate::types::Type;
use vstd::prelude::*;

verus! {

/// The kind of statement in which two counts disagreed.
#[derive(Debug, Clone, Copy, PartialEq, Eq, Structural)]
pub enum ArityContext {
    Declaration,
    Assignment,
    Return,
}

/// What ended a parse or a type check.
#[allow(inconsistent_fields)]
#[derive(Debug, PartialEq, Eq)]
pub enum Error {
    /// A token was expected at this line and column and was not there.
    ParseError { line: usize, column: usize, expected: Expected },
    /// The construct is recognised but has no meaning yet.
    UnsupportedConstruct,
    /// The number of identifiers or declared types differs from the number of values.
    ArityMismatch { expected_count: usize, found_count: usize, context: ArityContext },
    /// The name has no binding in scope.
    UndeclaredIdentifier { name: String },
    /// Two different concrete types met in a unification.
    TypeMismatch { expected: Type, found: Type },
    /// A type annotation names a type that does not exist.
    UnknownTypeName { name: String },
}

/// The mathematical value of an [`Error`].
#[allow(inconsistent_fields)]
pub enum ErrorView {
    ParseError { line: int, column: int, expected: Expected },
    UnsupportedConstruct,
    ArityMismatch { expected_count: int, found_count: int, context: ArityContext },
    UndeclaredIdentifier { name: Seq<char> },
    TypeMismatch { expected: Type, found: Type },
    UnknownTypeName { name: Seq<char> },
}

impl ErrorView {
    /// Whether the error is one that the type check gives for a function
    /// whose tuples hold no tuples.
    pub open spec fn is_semantic(self) -> bool {
        self is ArityMismatch || self is UndeclaredIdentifier || self is TypeMismatch
            || self is UnknownTypeName
    }
}

impl View for Error {
    type V = ErrorView;

    open spec fn view(&self) -> ErrorView {
        match self {
            Error::ParseError { line, column, expected } => ErrorView::ParseError {
                line: *line as int,
                column: *column as int,
                expected: *expected,
            },
            Error::UnsupportedConstruct => ErrorView::UnsupportedConstruct,
            Error::ArityMismatch { expected_count, found_count, context } => ErrorView::ArityMismatch {
                expected_count: *expected_count as int,
                found_count: *found_count as int,
                context: *context,
            },
            Error::UndeclaredIdentifier { name } => ErrorView::UndeclaredIdentifier { name: name@ },
            Error::TypeMismatch { expected, found } => ErrorView::TypeMismatch {
                expected: *expected,
                found: *found,
            },
            Error::UnknownTypeName { name } => ErrorView::UnknownTypeName { name: name@ },
        }
    }
}

} // verus!
