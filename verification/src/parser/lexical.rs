//! The lexical rules, stated over the glyphs of the source and a position in them.
//!
//! White space separates tokens and belongs to none. A position at which a
//! token is looked for is a cursor: a position that white space does not
//! follow. The end of a token is the cursor behind it.

use crate::error::ErrorView;
use crate::parser::glyph::{text_of, Class, Glyph};
use crate::parser::token::{Expected, Symbol};
use vstd::prelude::*;

verus! {

/// The length of the longest run of glyphs of a class that starts at `p`.
pub open spec fn run_len(s: Seq<Glyph>, p: int, class: Class) -> nat
    decreases s.len() - p,
{
    if 0 <= p < s.len() && s[p].has_class(class) {
        1 + run_len(s, p + 1, class)
    } else {
        0
    }
}

/// The first position from `p` on that holds no white space.
pub open spec fn skip_ws(s: Seq<Glyph>, p: int) -> int {
    p + run_len(s, p, Class::Whitespace)
}

/// The line of the position `p`, counted from 1: one more than the number of
/// line feeds before it.
pub open spec fn line_at(s: Seq<Glyph>, p: int) -> int
    decreases p,
{
    if p <= 0 {
        1
    } else if s[p - 1].ch == '\n' {
        line_at(s, p - 1) + 1
    } else {
        line_at(s, p - 1)
    }
}

/// The column of the position `p`, counted from 1: one more than the number
/// of glyphs between it and the start of its line.
pub open spec fn column_at(s: Seq<Glyph>, p: int) -> int
    decreases p,
{
    if p <= 0 || s[p - 1].ch == '\n' {
        1
    } else {
        column_at(s, p - 1) + 1
    }
}

/// The error of a parser that looked for `expected` at the cursor `p`.
pub open spec fn failure(s: Seq<Glyph>, p: int, expected: Expected) -> ErrorView {
    ErrorView::ParseError { line: line_at(s, p), column: column_at(s, p), expected }
}

/// Whether the text from `p` on starts with the symbol.
pub open spec fn symbol_at(s: Seq<Glyph>, p: int, symbol: Symbol) -> bool {
    &&& 0 <= p
    &&& p + symbol.text().len() <= s.len()
    &&& text_of(s).subrange(p, p + symbol.text().len()) == symbol.text()
}

/// The cursor behind a symbol that starts at `p`.
pub open spec fn symbol_end(s: Seq<Glyph>, p: int, symbol: Symbol) -> int {
    skip_ws(s, p + symbol.text().len())
}

/// Whether an identifier starts at `p`: whether an alphabetic glyph is there.
pub open spec fn ident_at(s: Seq<Glyph>, p: int) -> bool {
    0 <= p < s.len() && s[p].alphabetic
}

/// The position behind the last glyph of the identifier that starts at `p`:
/// behind the longest run of alphanumeric glyphs.
pub open spec fn ident_stop(s: Seq<Glyph>, p: int) -> int {
    p + run_len(s, p, Class::Alphanumeric)
}

/// The text of the identifier that starts at `p`.
pub open spec fn ident_text(s: Seq<Glyph>, p: int) -> Seq<char> {
    text_of(s).subrange(p, ident_stop(s, p))
}

/// The cursor behind the identifier that starts at `p`.
pub open spec fn ident_end(s: Seq<Glyph>, p: int) -> int {
    skip_ws(s, ident_stop(s, p))
}

/// Whether an integer literal starts at `p`: whether a numeric glyph is there.
pub open spec fn int_at(s: Seq<Glyph>, p: int) -> bool {
    0 <= p < s.len() && s[p].numeric
}

/// The position behind the last glyph of the integer literal that starts at
/// `p`: behind the longest run of numeric glyphs.
pub open spec fn int_stop(s: Seq<Glyph>, p: int) -> int {
    p + run_len(s, p, Class::Numeric)
}

/// The text of the integer literal that starts at `p`.
pub open spec fn int_text(s: Seq<Glyph>, p: int) -> Seq<char> {
    text_of(s).subrange(p, int_stop(s, p))
}

/// The cursor behind the integer literal that starts at `p`.
pub open spec fn int_end(s: Seq<Glyph>, p: int) -> int {
    skip_ws(s, int_stop(s, p))
}

/// A run ends within the text, and no glyph of its class follows it.
pub proof fn lemma_run_len(s: Seq<Glyph>, p: int, class: Class)
    requires
        0 <= p <= s.len(),
    ensures
        p + run_len(s, p, class) <= s.len(),
        run_len(s, p + run_len(s, p, class), class) == 0,
        forall|i: int| p <= i < p + run_len(s, p, class) ==> (#[trigger] s[i]).has_class(class),
    decreases s.len() - p,
{
    if p < s.len() && s[p].has_class(class) {
        lemma_run_len(s, p + 1, class);
    }
}

/// Skipping white space leads to a cursor within the text, where there is
/// no more to skip.
pub proof fn lemma_skip_ws(s: Seq<Glyph>, p: int)
    requires
        0 <= p <= s.len(),
    ensures
        p <= skip_ws(s, p) <= s.len(),
        skip_ws(s, skip_ws(s, p)) == skip_ws(s, p),
{
    lemma_run_len(s, p, Class::Whitespace);
}

/// Lines and columns are at least 1, and together they count no more glyphs
/// than stand before the position.
pub proof fn lemma_line_column(s: Seq<Glyph>, p: int)
    requires
        0 <= p,
    ensures
        1 <= line_at(s, p),
        1 <= column_at(s, p),
        line_at(s, p) + column_at(s, p) <= p + 2,
    decreases p,
{
    if p > 0 {
        lemma_line_column(s, p - 1);
    }
}

/// The column counts from the start of the line: the glyphs that it counts
/// hold no line feed, and before them stands a line feed or nothing.
pub proof fn lemma_column_counts_from_line_start(s: Seq<Glyph>, p: int)
    requires
        0 <= p <= s.len(),
    ensures
        ({
            let start = p - (column_at(s, p) - 1);
            &&& 0 <= start <= p
            &&& start == 0 || s[start - 1].ch == '\n'
            &&& forall|i: int| start <= i < p ==> (#[trigger] s[i]).ch != '\n'
        }),
    decreases p,
{
    if p > 0 && s[p - 1].ch != '\n' {
        lemma_column_counts_from_line_start(s, p - 1);
    }
}

/// A line feed starts a line, and any other glyph leaves the line as it is.
pub proof fn lemma_line_counts_line_feeds(s: Seq<Glyph>, p: int)
    requires
        0 <= p < s.len(),
    ensures
        line_at(s, p + 1) == line_at(s, p) + if s[p].ch == '\n' {
            1int
        } else {
            0int
        },
        column_at(s, p + 1) == if s[p].ch == '\n' {
            1
        } else {
            column_at(s, p) + 1
        },
{
}

/// Whether the error is one of the parser: a construct that is not
/// supported, or a token that is missing at a line and column of the text.
pub open spec fn is_syntactic(s: Seq<Glyph>, e: ErrorView) -> bool {
    match e {
        ErrorView::ParseError { line, column, expected } => 1 <= line && 1 <= column && line
            + column <= s.len() + 2,
        ErrorView::UnsupportedConstruct => true,
        _ => false,
    }
}

/// A token that is missing within the text is missing at a line and column
/// of the text.
pub proof fn lemma_failures_syntactic(s: Seq<Glyph>)
    ensures
        forall|p: int, expected: Expected|
            0 <= p <= s.len() ==> is_syntactic(s, #[trigger] failure(s, p, expected)),
{
    assert forall|p: int, expected: Expected| 0 <= p <= s.len() implies is_syntactic(
        s,
        #[trigger] failure(s, p, expected),
    ) by {
        lemma_line_column(s, p);
    }
}

/// A symbol is one or two characters long.
pub proof fn lemma_symbol_len(symbol: Symbol)
    ensures
        1 <= symbol.text().len() <= 2,
{
}

/// The end of a symbol lies behind its start and within the text.
pub proof fn lemma_symbol_end(s: Seq<Glyph>, p: int, symbol: Symbol)
    requires
        symbol_at(s, p, symbol),
    ensures
        p < symbol_end(s, p, symbol) <= s.len(),
{
    lemma_symbol_len(symbol);
    lemma_skip_ws(s, p + symbol.text().len());
}

/// The end of an identifier lies behind its start and within the text.
pub proof fn lemma_ident_end(s: Seq<Glyph>, p: int)
    requires
        ident_at(s, p),
    ensures
        p < ident_stop(s, p) <= ident_end(s, p) <= s.len(),
{
    lemma_run_len(s, p, Class::Alphanumeric);
    lemma_skip_ws(s, ident_stop(s, p));
}

/// The end of an integer literal lies behind its start and within the text.
pub proof fn lemma_int_end(s: Seq<Glyph>, p: int)
    requires
        int_at(s, p),
    ensures
        p < int_stop(s, p) <= int_end(s, p) <= s.len(),
{
    lemma_run_len(s, p, Class::Numeric);
    lemma_skip_ws(s, int_stop(s, p));
}

} // verus!
