//! The fixed symbols of the language and what the parser can report as missing.

use vstd::prelude::*;

verus! {

/// `==` on `str`: two texts are equal exactly when they hold the same
/// characters in the same order.
pub assume_specification[ <str as PartialEq>::eq ](a: &str, b: &str) -> (same: bool)
    ensures
        same == (a@ == b@),
;

/// Whether two borrowed texts hold the same characters.
pub fn same_text(a: &str, b: &str) -> (same: bool)
    ensures
        same == (a@ == b@),
{
    *a == *b
}

/// A fixed symbol of the language.
#[derive(Debug, Clone, Copy, PartialEq, Eq, Structural)]
pub enum Symbol {
    Fn,
    OpenParen,
    CloseParen,
    Arrow,
    OpenBrace,
    CloseBrace,
    Colon,
    Comma,
    Assign,
}

impl Symbol {
    /// The characters that spell the symbol.
    pub open spec fn text(self) -> Seq<char> {
        match self {
            Symbol::Fn => seq!['f', 'n'],
            Symbol::OpenParen => seq!['('],
            Symbol::CloseParen => seq![')'],
            Symbol::Arrow => seq!['-', '>'],
            Symbol::OpenBrace => seq!['{'],
            Symbol::CloseBrace => seq!['}'],
            Symbol::Colon => seq![':'],
            Symbol::Comma => seq![','],
            Symbol::Assign => seq!['='],
        }
    }

    /// The first character of the symbol.
    pub fn first(self) -> (c: char)
        ensures
            c == self.text()[0],
    {
        match self {
            Symbol::Fn => 'f',
            Symbol::OpenParen => '(',
            Symbol::CloseParen => ')',
            Symbol::Arrow => '-',
            Symbol::OpenBrace => '{',
            Symbol::CloseBrace => '}',
            Symbol::Colon => ':',
            Symbol::Comma => ',',
            Symbol::Assign => '=',
        }
    }

    /// The second character of the symbol, where it has one.
    pub fn second(self) -> (c: Option<char>)
        ensures
            match c {
                Some(c) => self.text().len() == 2 && c == self.text()[1],
                None => self.text().len() == 1,
            },
    {
        match self {
            Symbol::Fn => Some('n'),
            Symbol::Arrow => Some('>'),
            _ => None,
        }
    }
}

/// What the parser was looking for where it gave up.
#[derive(Debug, Clone, Copy, PartialEq, Eq, Structural)]
pub enum Expected {
    /// One of the fixed symbols.
    Symbol(Symbol),
    /// An identifier: a name or a type.
    Identifier,
    /// An integer literal or an identifier.
    Expression,
    /// A statement, or the brace that closes the body.
    Statement,
    /// `=` or `:` after the identifiers that start a statement.
    AssignOrDeclare,
}

} // verus!
