//! The parser: source text to syntax tree.
//!
//! The parser reads the glyphs of the source from left to right, one
//! character at a time, and keeps the line and column of its position. It
//! skips white space before every token, recognises tokens while it descends
//! through the grammar, and gives up at the first token that is missing.
//!
//! Behind the glyphs of the source stands an end marker, so that a look at
//! the next glyph never leaves the buffer, and the line and column behind
//! the last glyph are numbers of the machine.

pub mod ast;
pub mod glyph;
pub mod grammar;
pub mod laws;
pub mod lexical;
pub mod printer;
pub mod token;

use crate::error::Error;
use crate::parser::ast::{
    decls_view, exprs_view, lemma_tuple_view, names_view, statements_view, types_view, Declaration,
    DeclarationView, Expr, ExprView, Function, Statement, StatementView, Type,
};
use crate::parser::glyph::{
    classify_text, glyphs_of, lemma_glyphs_spell_text, text_of, Class, Glyph,
};
use crate::parser::grammar::{
    atom, decl, declared_groups, decls_rest, expr, expr_from, function, idents_rest, initializer,
    lemma_atom, lemma_decl, lemma_parts_rest, lemma_parts_rest_stops, lemma_statement,
    lemma_written_type, params, parsed, parts_rest, return_types, return_word, statement,
    statements_rest, types_rest, untyped, written_type, Precedence,
};
use crate::parser::lexical::{
    column_at, failure, ident_at, ident_end, ident_stop, ident_text, int_at, int_end, int_stop,
    int_text, lemma_ident_end, lemma_line_column, lemma_run_len, lemma_skip_ws, lemma_symbol_end,
    lemma_symbol_len, line_at, run_len, skip_ws, symbol_at, symbol_end,
};
use crate::parser::token::{same_text, Expected, Symbol};
use vstd::prelude::*;

verus! {

/// The state of a parse: the source, its glyphs with an end marker behind
/// them, and the position in them with its line and column.
struct Parser<'a> {
    source: &'a str,
    glyphs: Vec<Glyph>,
    pos: usize,
    line: usize,
    column: usize,
}

impl<'a> Parser<'a> {
    /// The glyphs of the source: those before the end marker.
    spec fn text(&self) -> Seq<Glyph> {
        self.glyphs@.drop_last()
    }

    /// The glyphs end with the marker and spell the source before it, the
    /// position lies within them, and the line and column are those of the
    /// position.
    spec fn inv(&self) -> bool {
        &&& 0 < self.glyphs@.len() <= usize::MAX
        &&& self.glyphs@.last() == Glyph::end()
        &&& text_of(self.text()) == self.source@
        &&& self.pos <= self.text().len()
        &&& self.line == line_at(self.text(), self.pos as int)
        &&& self.column == column_at(self.text(), self.pos as int)
    }

    /// The parser is in order and reads the same source as `before`.
    spec fn continues(&self, before: &Self) -> bool {
        &&& self.inv()
        &&& self.source == before.source
        &&& self.glyphs@ == before.glyphs@
    }

    /// The position at which the next token is looked for: behind the white
    /// space that follows the position.
    spec fn cursor(&self) -> int {
        skip_ws(self.text(), self.pos as int)
    }

    proof fn lemma_cursor(&self)
        requires
            self.inv(),
        ensures
            self.pos <= self.cursor() <= self.text().len(),
            skip_ws(self.text(), self.cursor()) == self.cursor(),
    {
        lemma_skip_ws(self.text(), self.pos as int);
    }

    /// The error of a token that is missing at the position.
    fn error(&self, expected: Expected) -> (e: Error)
        requires
            self.inv(),
        ensures
            e@ == failure(self.text(), self.pos as int, expected),
    {
        Error::ParseError { line: self.line, column: self.column, expected }
    }

    /// Moves over one character, if there is one, and counts it: a line
    /// feed starts a new line at column 1, any other character is one column.
    fn consume_char(&mut self)
        requires
            old(self).inv(),
        ensures
            final(self).continues(old(self)),
            final(self).pos == if old(self).pos < old(self).text().len() {
                old(self).pos + 1
            } else {
                old(self).pos as int
            },
    {
        if self.pos + 1 < self.glyphs.len() {
            proof {
                lemma_line_column(self.text(), self.pos as int);
            }
            if self.glyphs[self.pos].ch == '\n' {
                self.line += 1;
                self.column = 1;
            } else {
                self.column += 1;
            }
            self.pos += 1;
        }
    }

    /// The character at the position, if there is one.
    fn peek_char(&self) -> (glyph: Option<Glyph>)
        requires
            self.inv(),
        ensures
            glyph == if self.pos < self.text().len() {
                Some(self.text()[self.pos as int])
            } else {
                None
            },
    {
        if self.pos + 1 < self.glyphs.len() {
            Some(self.glyphs[self.pos])
        } else {
            None
        }
    }

    /// Whether a character of the class stands at the position.
    fn peek_class(&self, class: Class) -> (yes: bool)
        requires
            self.inv(),
        ensures
            yes == (self.pos < self.text().len() && self.text()[self.pos as int].has_class(class)),
    {
        // At the end of the text stands the marker, which has no class.
        self.glyphs[self.pos].belongs(class)
    }

    /// Moves over the longest run of characters of the class.
    fn consume_run(&mut self, class: Class)
        requires
            old(self).inv(),
        ensures
            final(self).continues(old(self)),
            final(self).pos == old(self).pos + run_len(old(self).text(), old(self).pos as int, class),
    {
        while self.peek_class(class)
            invariant
                self.continues(old(self)),
                old(self).pos <= self.pos,
                self.pos + run_len(self.text(), self.pos as int, class) == old(self).pos + run_len(
                    old(self).text(),
                    old(self).pos as int,
                    class,
                ),
            decreases self.text().len() - self.pos,
        {
            self.consume_char();
        }
    }

    /// Moves over white space.
    fn consume_whitespace(&mut self)
        requires
            old(self).inv(),
        ensures
            final(self).continues(old(self)),
            final(self).pos == old(self).cursor(),
            final(self).cursor() == old(self).cursor(),
    {
        proof {
            old(self).lemma_cursor();
        }
        self.consume_run(Class::Whitespace);
    }

    /// Whether the symbol comes next. White space before it is skipped.
    fn peek_symbol(&mut self, symbol: Symbol) -> (yes: bool)
        requires
            old(self).inv(),
        ensures
            final(self).continues(old(self)),
            final(self).pos == old(self).cursor(),
            final(self).cursor() == old(self).cursor(),
            yes == symbol_at(old(self).text(), old(self).cursor(), symbol),
    {
        self.consume_whitespace();
        let ghost text = text_of(self.text());
        let ghost word = symbol.text();
        let ghost p = self.pos as int;
        proof {
            lemma_symbol_len(symbol);
        }
        let first: char = symbol.first();
        // The marker at the end of the text is no character of a symbol.
        if self.glyphs[self.pos].ch == first {
            match symbol.second() {
                None => {
                    assert(text.subrange(p, p + 1) =~= word);
                    true
                },
                Some(second) => {
                    if self.glyphs[self.pos + 1].ch == second {
                        assert(text.subrange(p, p + 2) =~= word);
                        true
                    } else {
                        assert(p + 2 <= text.len() ==> text.subrange(p, p + 2)[1] == text[p + 1]);
                        false
                    }
                },
            }
        } else {
            assert(p + word.len() <= text.len() ==> text.subrange(p, p + word.len())[0] == text[p]);
            false
        }
    }

    /// Moves over the symbol if it comes next. White space before it is
    /// skipped either way.
    fn try_consume_symbol(&mut self, symbol: Symbol) -> (yes: bool)
        requires
            old(self).inv(),
        ensures
            final(self).continues(old(self)),
            yes == symbol_at(old(self).text(), old(self).cursor(), symbol),
            final(self).pos == if yes {
                old(self).cursor() + symbol.text().len()
            } else {
                old(self).cursor()
            },
            final(self).cursor() == if yes {
                symbol_end(old(self).text(), old(self).cursor(), symbol)
            } else {
                old(self).cursor()
            },
    {
        if self.peek_symbol(symbol) {
            self.consume_char();
            if symbol.second().is_some() {
                self.consume_char();
            }
            true
        } else {
            false
        }
    }

    /// Moves over the symbol, which must come next.
    fn consume_symbol(&mut self, symbol: Symbol) -> (result: Result<(), Error>)
        requires
            old(self).inv(),
        ensures
            final(self).continues(old(self)),
            match result {
                Ok(()) => symbol_at(old(self).text(), old(self).cursor(), symbol)
                    && final(self).cursor() == symbol_end(
                    old(self).text(),
                    old(self).cursor(),
                    symbol,
                ),
                Err(e) => !symbol_at(old(self).text(), old(self).cursor(), symbol) && e@
                    == failure(old(self).text(), old(self).cursor(), Expected::Symbol(symbol)),
            },
    {
        if self.try_consume_symbol(symbol) {
            Ok(())
        } else {
            Err(self.error(Expected::Symbol(symbol)))
        }
    }

    /// The text between two positions of the source.
    fn slice(&self, from: usize, to: usize) -> (text: &'a str)
        requires
            self.inv(),
            from <= to <= self.text().len(),
        ensures
            text@ == text_of(self.text()).subrange(from as int, to as int),
    {
        self.source.substring_char(from, to)
    }

    /// Moves over the identifier that comes next, if one does: an alphabetic
    /// character and the alphanumeric characters that follow it.
    fn consume_ident(&mut self) -> (ident: Option<&'a str>)
        requires
            old(self).inv(),
        ensures
            final(self).continues(old(self)),
            match ident {
                Some(text) => {
                    &&& ident_at(old(self).text(), old(self).cursor())
                    &&& text@ == ident_text(old(self).text(), old(self).cursor())
                    &&& final(self).pos == ident_stop(old(self).text(), old(self).cursor())
                    &&& final(self).cursor() == ident_end(old(self).text(), old(self).cursor())
                },
                None => {
                    &&& !ident_at(old(self).text(), old(self).cursor())
                    &&& final(self).pos == old(self).cursor()
                    &&& final(self).cursor() == old(self).cursor()
                },
            },
    {
        self.consume_whitespace();
        let starts: bool = match self.peek_char() {
            Some(glyph) => glyph.alphabetic,
            None => false,
        };
        if starts {
            let start: usize = self.pos;
            proof {
                lemma_ident_end(self.text(), start as int);
            }
            self.consume_run(Class::Alphanumeric);
            Some(self.slice(start, self.pos))
        } else {
            None
        }
    }

    /// Moves over the integer literal that comes next, if one does: one or
    /// more numeric characters.
    fn consume_int(&mut self) -> (literal: Option<&'a str>)
        requires
            old(self).inv(),
        ensures
            final(self).continues(old(self)),
            match literal {
                Some(text) => {
                    &&& int_at(old(self).text(), old(self).cursor())
                    &&& text@ == int_text(old(self).text(), old(self).cursor())
                    &&& final(self).pos == int_stop(old(self).text(), old(self).cursor())
                    &&& final(self).cursor() == int_end(old(self).text(), old(self).cursor())
                },
                None => {
                    &&& !int_at(old(self).text(), old(self).cursor())
                    &&& final(self).pos == old(self).cursor()
                    &&& final(self).cursor() == old(self).cursor()
                },
            },
    {
        self.consume_whitespace();
        let start: usize = self.pos;
        proof {
            lemma_run_len(self.text(), start as int, Class::Numeric);
        }
        self.consume_run(Class::Numeric);
        if self.pos > start {
            Some(self.slice(start, self.pos))
        } else {
            None
        }
    }

    /// Reads the identifiers that follow `first`, each behind a comma.
    fn parse_idents(&mut self, first: &'a str) -> (result: Result<Vec<&'a str>, Error>)
        requires
            old(self).inv(),
        ensures
            final(self).continues(old(self)),
            match idents_rest(old(self).text(), old(self).cursor(), seq![first@]) {
                Ok((idents, end)) => {
                    &&& result matches Ok(found)
                    &&& names_view(found@) == idents
                    &&& final(self).cursor() == end
                },
                Err(e) => result matches Err(x) && x@ == e,
            },
    {
        let ghost s = self.text();
        let mut idents: Vec<&'a str> = Vec::new();
        idents.push(first);
        assert(names_view(idents@) =~= seq![first@]);
        loop
            invariant
                self.continues(old(self)),
                s == self.text(),
                idents_rest(s, old(self).cursor(), seq![first@]) == idents_rest(
                    s,
                    self.cursor(),
                    names_view(idents@),
                ),
            decreases self.text().len() - self.cursor(),
        {
            let ghost p = self.cursor();
            proof {
                self.lemma_cursor();
            }
            if !self.try_consume_symbol(Symbol::Comma) {
                return Ok(idents);
            }
            proof {
                lemma_symbol_end(s, p, Symbol::Comma);
            }
            match self.consume_ident() {
                Some(ident) => {
                    proof {
                        lemma_ident_end(s, symbol_end(s, p, Symbol::Comma));
                        assert(names_view(idents@.push(ident)) =~= names_view(idents@).push(ident@));
                    }
                    idents.push(ident);
                },
                None => {
                    return Err(self.error(Expected::Identifier));
                },
            }
        }
    }

    /// Reads a written type.
    fn parse_type(&mut self) -> (result: Result<Type<'a>, Error>)
        requires
            old(self).inv(),
        ensures
            final(self).continues(old(self)),
            match written_type(old(self).text(), old(self).cursor()) {
                Ok((name, end)) => {
                    &&& result matches Ok(found)
                    &&& found@ == name
                    &&& final(self).cursor() == end
                },
                Err(e) => result matches Err(x) && x@ == e,
            },
    {
        match self.consume_ident() {
            Some(ident) => Ok(Type { ident }),
            None => Err(self.error(Expected::Identifier)),
        }
    }

    /// Reads an integer literal or, where there is none, an identifier.
    fn parse_atom(&mut self) -> (result: Result<Expr<'a>, Error>)
        requires
            old(self).inv(),
        ensures
            final(self).continues(old(self)),
            match atom(old(self).text(), old(self).cursor()) {
                Ok((value, end)) => {
                    &&& result matches Ok(found)
                    &&& found@ == value
                    &&& final(self).cursor() == end
                },
                Err(e) => result matches Err(x) && x@ == e,
            },
    {
        match self.consume_int() {
            Some(literal) => Ok(Expr::IntLiteral(literal)),
            None => match self.consume_ident() {
                Some(ident) => Ok(Expr::Ident(ident)),
                None => Err(self.error(Expected::Expression)),
            },
        }
    }

    /// Where a comma comes next and the precedence admits a tuple, makes a
    /// tuple of `left` and the expressions that follow, each behind a comma,
    /// and says that it did.
    fn parse_tuple(&mut self, left: &mut Expr<'a>, prec: Precedence) -> (result: Result<bool, Error>)
        requires
            old(self).inv(),
        ensures
            final(self).continues(old(self)),
            if prec.level() >= Precedence::Tuple.level() && symbol_at(
                old(self).text(),
                old(self).cursor(),
                Symbol::Comma,
            ) {
                match parts_rest(old(self).text(), old(self).cursor(), seq![old(left)@]) {
                    Ok((parts, end)) => {
                        &&& result matches Ok(built)
                        &&& built
                        &&& final(left)@ == ExprView::Tuple(parts)
                        &&& final(self).cursor() == end
                    },
                    Err(e) => result matches Err(x) && x@ == e,
                }
            } else {
                &&& result matches Ok(built)
                &&& !built
                &&& *final(left) == *old(left)
                &&& final(self).cursor() == old(self).cursor()
            },
        decreases prec.level(), 0nat,
    {
        if self.peek_symbol(Symbol::Comma) && prec.rank() >= Precedence::Tuple.rank() {
            let ghost s = self.text();
            let mut first = Expr::Tuple(Vec::new());
            core::mem::swap(left, &mut first);
            let mut tuple: Vec<Expr<'a>> = Vec::new();
            tuple.push(first);
            assert(exprs_view(tuple@) =~= seq![old(left)@]);
            loop
                invariant
                    self.continues(old(self)),
                    s == self.text(),
                    prec.level() >= Precedence::Tuple.level(),
                    symbol_at(s, old(self).cursor(), Symbol::Comma),
                    parts_rest(s, old(self).cursor(), seq![old(left)@]) == parts_rest(
                        s,
                        self.cursor(),
                        exprs_view(tuple@),
                    ),
                decreases self.text().len() - self.cursor(),
            {
                let ghost p = self.cursor();
                proof {
                    self.lemma_cursor();
                }
                if !self.try_consume_symbol(Symbol::Comma) {
                    proof {
                        lemma_tuple_view(tuple);
                    }
                    *left = Expr::Tuple(tuple);
                    return Ok(true);
                }
                proof {
                    lemma_symbol_end(s, p, Symbol::Comma);
                    lemma_atom(s, symbol_end(s, p, Symbol::Comma));
                }
                match self.parse_expr(Precedence::Expr) {
                    Ok(part) => {
                        assert(exprs_view(tuple@.push(part)) =~= exprs_view(tuple@).push(part@));
                        tuple.push(part);
                    },
                    Err(e) => {
                        return Err(e);
                    },
                }
            }
        } else {
            Ok(false)
        }
    }

    /// Reads an expression: an atom, and with the precedence of a tuple the
    /// atoms that follow it, each behind a comma.
    fn parse_expr(&mut self, prec: Precedence) -> (result: Result<Expr<'a>, Error>)
        requires
            old(self).inv(),
        ensures
            final(self).continues(old(self)),
            match expr(old(self).text(), old(self).cursor(), prec) {
                Ok((value, end)) => {
                    &&& result matches Ok(found)
                    &&& found@ == value
                    &&& final(self).cursor() == end
                },
                Err(e) => result matches Err(x) && x@ == e,
            },
        decreases prec.level(), 1nat,
    {
        let ghost s = self.text();
        proof {
            self.lemma_cursor();
            lemma_atom(s, self.cursor());
        }
        let mut left = self.parse_atom()?;
        loop
            invariant
                self.continues(old(self)),
                s == self.text(),
                expr(s, old(self).cursor(), prec) == expr_from(s, self.cursor(), left@, prec),
            decreases self.text().len() - self.cursor(),
        {
            let ghost p = self.cursor();
            let ghost first = left@;
            proof {
                self.lemma_cursor();
                lemma_parts_rest_stops(s, p, seq![first]);
                lemma_parts_rest(s, p, seq![first]);
            }
            match self.parse_tuple(&mut left, prec) {
                Ok(built) => {
                    if !built {
                        return Ok(left);
                    }
                },
                Err(e) => {
                    return Err(e);
                },
            }
        }
    }

    /// Reads a group of identifiers with their type.
    fn parse_decl(&mut self) -> (result: Result<Declaration<'a>, Error>)
        requires
            old(self).inv(),
        ensures
            final(self).continues(old(self)),
            match decl(old(self).text(), old(self).cursor()) {
                Ok((group, end)) => {
                    &&& result matches Ok(found)
                    &&& found@ == group
                    &&& final(self).cursor() == end
                },
                Err(e) => result matches Err(x) && x@ == e,
            },
    {
        let ident = match self.consume_ident() {
            Some(ident) => ident,
            None => {
                return Err(self.error(Expected::Identifier));
            },
        };
        let idents = self.parse_idents(ident)?;
        self.consume_symbol(Symbol::Colon)?;
        let ty = self.parse_type()?;
        Ok(Declaration { idents, ty: Some(ty) })
    }

    /// Reads the groups that follow `first`, each behind a comma.
    fn parse_decls(&mut self, first: Declaration<'a>) -> (result: Result<Vec<Declaration<'a>>, Error>)
        requires
            old(self).inv(),
        ensures
            final(self).continues(old(self)),
            match decls_rest(old(self).text(), old(self).cursor(), seq![first@]) {
                Ok((groups, end)) => {
                    &&& result matches Ok(found)
                    &&& decls_view(found@) == groups
                    &&& final(self).cursor() == end
                },
                Err(e) => result matches Err(x) && x@ == e,
            },
    {
        let ghost s = self.text();
        let mut decls: Vec<Declaration<'a>> = Vec::new();
        decls.push(first);
        assert(decls_view(decls@) =~= seq![first@]);
        loop
            invariant
                self.continues(old(self)),
                s == self.text(),
                decls_rest(s, old(self).cursor(), seq![first@]) == decls_rest(
                    s,
                    self.cursor(),
                    decls_view(decls@),
                ),
            decreases self.text().len() - self.cursor(),
        {
            let ghost p = self.cursor();
            proof {
                self.lemma_cursor();
            }
            if !self.try_consume_symbol(Symbol::Comma) {
                return Ok(decls);
            }
            proof {
                lemma_symbol_end(s, p, Symbol::Comma);
                lemma_decl(s, symbol_end(s, p, Symbol::Comma));
            }
            match self.parse_decl() {
                Ok(group) => {
                    assert(decls_view(decls@.push(group)) =~= decls_view(decls@).push(group@));
                    decls.push(group);
                },
                Err(e) => {
                    return Err(e);
                },
            }
        }
    }

    /// Reads the types that follow `first`, each behind a comma.
    fn parse_types(&mut self, first: Type<'a>) -> (result: Result<Vec<Type<'a>>, Error>)
        requires
            old(self).inv(),
        ensures
            final(self).continues(old(self)),
            match types_rest(old(self).text(), old(self).cursor(), seq![first@]) {
                Ok((types, end)) => {
                    &&& result matches Ok(found)
                    &&& types_view(found@) == types
                    &&& final(self).cursor() == end
                },
                Err(e) => result matches Err(x) && x@ == e,
            },
    {
        let ghost s = self.text();
        let mut types: Vec<Type<'a>> = Vec::new();
        types.push(first);
        assert(types_view(types@) =~= seq![first@]);
        loop
            invariant
                self.continues(old(self)),
                s == self.text(),
                types_rest(s, old(self).cursor(), seq![first@]) == types_rest(
                    s,
                    self.cursor(),
                    types_view(types@),
                ),
            decreases self.text().len() - self.cursor(),
        {
            let ghost p = self.cursor();
            proof {
                self.lemma_cursor();
            }
            if !self.try_consume_symbol(Symbol::Comma) {
                return Ok(types);
            }
            proof {
                lemma_symbol_end(s, p, Symbol::Comma);
                lemma_written_type(s, symbol_end(s, p, Symbol::Comma));
            }
            match self.parse_type() {
                Ok(ty) => {
                    assert(types_view(types@.push(ty)) =~= types_view(types@).push(ty@));
                    types.push(ty);
                },
                Err(e) => {
                    return Err(e);
                },
            }
        }
    }

    /// Reads the declared return types: those behind an arrow, or none.
    fn parse_return_types(&mut self) -> (result: Result<Vec<Type<'a>>, Error>)
        requires
            old(self).inv(),
        ensures
            final(self).continues(old(self)),
            match return_types(old(self).text(), old(self).cursor()) {
                Ok((types, end)) => {
                    &&& result matches Ok(found)
                    &&& types_view(found@) == types
                    &&& final(self).cursor() == end
                },
                Err(e) => result matches Err(x) && x@ == e,
            },
    {
        if self.try_consume_symbol(Symbol::Arrow) {
            let first = self.parse_type()?;
            self.parse_types(first)
        } else {
            let types: Vec<Type<'a>> = Vec::new();
            assert(types_view(types@) =~= Seq::<Seq<char>>::empty());
            Ok(types)
        }
    }

    /// Reads the parameters up to and with the closing parenthesis.
    fn parse_params(&mut self) -> (result: Result<Vec<Declaration<'a>>, Error>)
        requires
            old(self).inv(),
        ensures
            final(self).continues(old(self)),
            match params(old(self).text(), old(self).cursor()) {
                Ok((groups, end)) => {
                    &&& result matches Ok(found)
                    &&& decls_view(found@) == groups
                    &&& final(self).cursor() == end
                },
                Err(e) => result matches Err(x) && x@ == e,
            },
    {
        if self.try_consume_symbol(Symbol::CloseParen) {
            let groups: Vec<Declaration<'a>> = Vec::new();
            assert(decls_view(groups@) =~= Seq::<DeclarationView>::empty());
            Ok(groups)
        } else {
            let first = self.parse_decl()?;
            let groups = self.parse_decls(first)?;
            self.consume_symbol(Symbol::CloseParen)?;
            Ok(groups)
        }
    }

    /// Reads the groups of a declaration statement behind its first colon.
    fn parse_declared(&mut self, idents: Vec<&'a str>) -> (result: Result<Vec<Declaration<'a>>, Error>)
        requires
            old(self).inv(),
        ensures
            final(self).continues(old(self)),
            match declared_groups(old(self).text(), old(self).cursor(), names_view(idents@)) {
                Ok((groups, end)) => {
                    &&& result matches Ok(found)
                    &&& decls_view(found@) == groups
                    &&& final(self).cursor() == end
                },
                Err(e) => result matches Err(x) && x@ == e,
            },
    {
        if self.peek_symbol(Symbol::Assign) {
            return Ok(untyped_groups(&idents));
        }
        match self.consume_ident() {
            Some(ident) => self.parse_decls(Declaration { idents, ty: Some(Type { ident }) }),
            None => Ok(untyped_groups(&idents)),
        }
    }

    /// Reads the expression behind `=`, where `=` comes next.
    fn parse_initializer(&mut self) -> (result: Result<Option<Expr<'a>>, Error>)
        requires
            old(self).inv(),
        ensures
            final(self).continues(old(self)),
            match initializer(old(self).text(), old(self).cursor()) {
                Ok((value, end)) => {
                    &&& result matches Ok(found)
                    &&& match value {
                        Some(value) => found matches Some(expr) && expr@ == value,
                        None => found is None,
                    }
                    &&& final(self).cursor() == end
                },
                Err(e) => result matches Err(x) && x@ == e,
            },
    {
        if self.try_consume_symbol(Symbol::Assign) {
            Ok(Some(self.parse_expr(Precedence::Tuple)?))
        } else {
            Ok(None)
        }
    }

    /// Reads a statement.
    fn parse_statement(&mut self) -> (result: Result<Statement<'a>, Error>)
        requires
            old(self).inv(),
        ensures
            final(self).continues(old(self)),
            match statement(old(self).text(), old(self).cursor()) {
                Ok((value, end)) => {
                    &&& result matches Ok(found)
                    &&& found@ == value
                    &&& final(self).cursor() == end
                },
                Err(e) => result matches Err(x) && x@ == e,
            },
    {
        let ident = match self.consume_ident() {
            Some(ident) => ident,
            None => {
                return Err(self.error(Expected::Statement));
            },
        };
        if self.try_consume_symbol(Symbol::OpenParen) {
            return Err(Error::UnsupportedConstruct);
        }
        proof {
            reveal_strlit("return");
            assert("return"@ =~= return_word());
        }
        if same_text(ident, "return") {
            let value = self.parse_expr(Precedence::Tuple)?;
            return Ok(Statement::Return(value));
        }
        let idents = self.parse_idents(ident)?;
        if self.try_consume_symbol(Symbol::Assign) {
            let value = self.parse_expr(Precedence::Tuple)?;
            return Ok(Statement::Assignment { idents, expr: value });
        }
        if self.try_consume_symbol(Symbol::Colon) {
            let decls = self.parse_declared(idents)?;
            let value = self.parse_initializer()?;
            return Ok(Statement::Declaration { decls, expr: value });
        }
        Err(self.error(Expected::AssignOrDeclare))
    }

    /// Reads the statements up to and with the brace that closes the body.
    fn parse_statements(&mut self) -> (result: Result<Vec<Statement<'a>>, Error>)
        requires
            old(self).inv(),
        ensures
            final(self).continues(old(self)),
            match statements_rest(old(self).text(), old(self).cursor(), Seq::empty()) {
                Ok((statements, end)) => {
                    &&& result matches Ok(found)
                    &&& statements_view(found@) == statements
                    &&& final(self).cursor() == end
                },
                Err(e) => result matches Err(x) && x@ == e,
            },
    {
        let ghost s = self.text();
        let mut statements: Vec<Statement<'a>> = Vec::new();
        assert(statements_view(statements@) =~= Seq::<StatementView>::empty());
        loop
            invariant
                self.continues(old(self)),
                s == self.text(),
                statements_rest(s, old(self).cursor(), Seq::empty()) == statements_rest(
                    s,
                    self.cursor(),
                    statements_view(statements@),
                ),
            decreases self.text().len() - self.cursor(),
        {
            let ghost p = self.cursor();
            proof {
                self.lemma_cursor();
                lemma_statement(s, p);
            }
            if self.try_consume_symbol(Symbol::CloseBrace) {
                return Ok(statements);
            }
            match self.parse_statement() {
                Ok(next) => {
                    assert(statements_view(statements@.push(next)) =~= statements_view(
                        statements@,
                    ).push(next@));
                    statements.push(next);
                },
                Err(e) => {
                    return Err(e);
                },
            }
        }
    }

    /// Reads a function.
    fn parse_function(&mut self) -> (result: Result<Function<'a>, Error>)
        requires
            old(self).inv(),
        ensures
            final(self).continues(old(self)),
            match function(old(self).text(), old(self).cursor()) {
                Ok((value, end)) => {
                    &&& result matches Ok(found)
                    &&& found@ == value
                    &&& final(self).cursor() == end
                },
                Err(e) => result matches Err(x) && x@ == e,
            },
    {
        self.consume_symbol(Symbol::Fn)?;
        let name = match self.consume_ident() {
            Some(name) => name,
            None => {
                return Err(self.error(Expected::Identifier));
            },
        };
        self.consume_symbol(Symbol::OpenParen)?;
        let params = self.parse_params()?;
        let rets = self.parse_return_types()?;
        self.consume_symbol(Symbol::OpenBrace)?;
        let statements = self.parse_statements()?;
        Ok(Function { name, params, rets, statements })
    }
}

/// The groups of identifiers that are declared without a type: one for each.
fn untyped_groups<'a>(idents: &Vec<&'a str>) -> (groups: Vec<Declaration<'a>>)
    ensures
        decls_view(groups@) == untyped(names_view(idents@)),
{
    let mut groups: Vec<Declaration<'a>> = Vec::new();
    let mut i: usize = 0;
    while i < idents.len()
        invariant
            i <= idents.len(),
            decls_view(groups@) == untyped(names_view(idents@).take(i as int)),
        decreases idents.len() - i,
    {
        let mut single: Vec<&'a str> = Vec::new();
        single.push(idents[i]);
        let group = Declaration { idents: single, ty: None };
        proof {
            assert(names_view(single@) =~= seq![idents[i as int]@]);
            assert(decls_view(groups@.push(group)) =~= decls_view(groups@).push(group@));
            assert(untyped(names_view(idents@).take(i + 1)) =~= untyped(
                names_view(idents@).take(i as int),
            ).push(group@));
        }
        groups.push(group);
        i += 1;
    }
    assert(names_view(idents@).take(i as int) =~= names_view(idents@));
    groups
}

/// Parses a source of which the glyphs are given: `glyphs` holds the
/// characters of `source` in order, each with the classes by which the
/// lexical rules are to group it.
///
/// The result is the function that the grammar reads from the glyphs, or the
/// error of the first token that is missing. Every text of the tree is a
/// slice of `source`.
pub fn parse_glyphs<'a>(source: &'a str, glyphs: Vec<Glyph>) -> (result: Result<
    Function<'a>,
    Error,
>)
    requires
        text_of(glyphs@) == source@,
    ensures
        match parsed(glyphs@) {
            Ok(function) => result matches Ok(found) && found@ == function,
            Err(e) => result matches Err(x) && x@ == e,
        },
{
    let ghost text = glyphs@;
    let mut glyphs = glyphs;
    glyphs.push(Glyph::end_marker());
    assert(glyphs@.drop_last() =~= text);
    assert(glyphs@.len() == glyphs.len());
    let mut parser = Parser { source, glyphs, pos: 0, line: 1, column: 1 };
    parser.parse_function()
}

/// Parses the source of one function.
///
/// The result is the function that the grammar reads from the characters of
/// the source, each taken with its Unicode classes, or the error of the first
/// token that is missing.
pub fn parse<'a>(source: &'a str) -> (result: Result<Function<'a>, Error>)
    ensures
        match parsed(glyphs_of(source@)) {
            Ok(function) => result matches Ok(found) && found@ == function,
            Err(e) => result matches Err(x) && x@ == e,
        },
{
    let glyphs = classify_text(source);
    proof {
        lemma_glyphs_spell_text(source@);
    }
    parse_glyphs(source, glyphs)
}

} // verus!
