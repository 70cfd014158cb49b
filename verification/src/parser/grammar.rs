//! The grammar, stated over the glyphs of the source.
//!
//! Every rule is a function from a cursor to what is read there and the
//! cursor behind it, or to the error of the first token that is missing.
//!
//! ```text
//! function   := "fn" ident "(" (decl ("," decl)*)? ")" ("->" type ("," type)*)? "{" statement* "}"
//! decl       := ident ("," ident)* ":" type
//! type       := ident
//! statement  := "return" expr
//!             | ident ("," ident)* "=" expr
//!             | ident ("," ident)* ":" (type ("," decl)*)? ("=" expr)?
//! expr       := atom ("," atom)*
//! atom       := int | ident
//! ```

use crate::error::ErrorView;
use crate::parser::ast::{DeclarationView, ExprView, FunctionView, StatementView};
use crate::parser::glyph::Glyph;
use crate::parser::lexical::{
    failure, ident_at, ident_end, ident_text, int_at, int_end, int_text, is_syntactic,
    lemma_failures_syntactic, lemma_ident_end, lemma_int_end, lemma_symbol_end, skip_ws, symbol_at,
    symbol_end,
};
use crate::parser::token::{Expected, Symbol};
use vstd::prelude::*;

verus! {

/// How much an expression may take in: a single value, or values that
/// commas join to a tuple.
#[derive(Debug, Clone, Copy, PartialEq, Eq, Structural)]
pub enum Precedence {
    Expr,
    Tuple,
}

impl Precedence {
    /// The place of the precedence among the others, lowest first.
    pub open spec fn level(self) -> nat {
        match self {
            Precedence::Expr => 0,
            Precedence::Tuple => 1,
        }
    }

    /// The place of the precedence among the others, lowest first.
    pub fn rank(self) -> (rank: u8)
        ensures
            rank == self.level(),
    {
        match self {
            Precedence::Expr => 0,
            Precedence::Tuple => 1,
        }
    }
}

/// The word that starts a return statement.
pub open spec fn return_word() -> Seq<char> {
    seq!['r', 'e', 't', 'u', 'r', 'n']
}

/// The identifiers that follow a first one, each behind a comma, added to `acc`.
pub open spec fn idents_rest(s: Seq<Glyph>, p: int, acc: Seq<Seq<char>>) -> Result<
    (Seq<Seq<char>>, int),
    ErrorView,
>
    decreases s.len() - p,
{
    if symbol_at(s, p, Symbol::Comma) {
        let q = symbol_end(s, p, Symbol::Comma);
        if ident_at(s, q) {
            proof {
                lemma_symbol_end(s, p, Symbol::Comma);
                lemma_ident_end(s, q);
            }
            idents_rest(s, ident_end(s, q), acc.push(ident_text(s, q)))
        } else {
            Err(failure(s, q, Expected::Identifier))
        }
    } else {
        Ok((acc, p))
    }
}

/// A written type: an identifier.
pub open spec fn written_type(s: Seq<Glyph>, p: int) -> Result<(Seq<char>, int), ErrorView> {
    if ident_at(s, p) {
        Ok((ident_text(s, p), ident_end(s, p)))
    } else {
        Err(failure(s, p, Expected::Identifier))
    }
}

/// The types that follow a first one, each behind a comma, added to `acc`.
pub open spec fn types_rest(s: Seq<Glyph>, p: int, acc: Seq<Seq<char>>) -> Result<
    (Seq<Seq<char>>, int),
    ErrorView,
>
    decreases s.len() - p,
{
    if symbol_at(s, p, Symbol::Comma) {
        let q = symbol_end(s, p, Symbol::Comma);
        if ident_at(s, q) {
            proof {
                lemma_symbol_end(s, p, Symbol::Comma);
                lemma_ident_end(s, q);
            }
            types_rest(s, ident_end(s, q), acc.push(ident_text(s, q)))
        } else {
            Err(failure(s, q, Expected::Identifier))
        }
    } else {
        Ok((acc, p))
    }
}

/// An expression that stands for one value: an integer literal or, where
/// there is none, an identifier.
pub open spec fn atom(s: Seq<Glyph>, p: int) -> Result<(ExprView, int), ErrorView> {
    if int_at(s, p) {
        Ok((ExprView::IntLiteral(int_text(s, p)), int_end(s, p)))
    } else if ident_at(s, p) {
        Ok((ExprView::Ident(ident_text(s, p)), ident_end(s, p)))
    } else {
        Err(failure(s, p, Expected::Expression))
    }
}

/// The parts of a tuple that follow its first part, each behind a comma,
/// added to `acc`.
pub open spec fn parts_rest(s: Seq<Glyph>, p: int, acc: Seq<ExprView>) -> Result<
    (Seq<ExprView>, int),
    ErrorView,
>
    decreases s.len() - p,
{
    if symbol_at(s, p, Symbol::Comma) {
        match atom(s, symbol_end(s, p, Symbol::Comma)) {
            Err(e) => Err(e),
            Ok((part, q)) => {
                proof {
                    lemma_symbol_end(s, p, Symbol::Comma);
                    lemma_atom(s, symbol_end(s, p, Symbol::Comma));
                }
                parts_rest(s, q, acc.push(part))
            },
        }
    } else {
        Ok((acc, p))
    }
}

/// What an expression becomes behind its first atom. With the precedence of
/// a tuple, a comma makes a tuple of the atom and the atoms that follow; with
/// that of a single value, the comma is left where it is.
pub open spec fn expr_from(s: Seq<Glyph>, p: int, first: ExprView, min: Precedence) -> Result<
    (ExprView, int),
    ErrorView,
> {
    if min.level() >= Precedence::Tuple.level() && symbol_at(s, p, Symbol::Comma) {
        match parts_rest(s, p, seq![first]) {
            Err(e) => Err(e),
            Ok((parts, q)) => Ok((ExprView::Tuple(parts), q)),
        }
    } else {
        Ok((first, p))
    }
}

/// An expression: an atom, and what becomes of it.
pub open spec fn expr(s: Seq<Glyph>, p: int, min: Precedence) -> Result<(ExprView, int), ErrorView> {
    match atom(s, p) {
        Err(e) => Err(e),
        Ok((first, q)) => expr_from(s, q, first, min),
    }
}

/// A group of identifiers with their type: `a, b: int`.
pub open spec fn decl(s: Seq<Glyph>, p: int) -> Result<(DeclarationView, int), ErrorView> {
    if !ident_at(s, p) {
        Err(failure(s, p, Expected::Identifier))
    } else {
        match idents_rest(s, ident_end(s, p), seq![ident_text(s, p)]) {
            Err(e) => Err(e),
            Ok((idents, q)) => if !symbol_at(s, q, Symbol::Colon) {
                Err(failure(s, q, Expected::Symbol(Symbol::Colon)))
            } else {
                match written_type(s, symbol_end(s, q, Symbol::Colon)) {
                    Err(e) => Err(e),
                    Ok((ty, r)) => Ok((DeclarationView { idents, ty: Some(ty) }, r)),
                }
            },
        }
    }
}

/// The groups that follow a first one, each behind a comma, added to `acc`.
pub open spec fn decls_rest(s: Seq<Glyph>, p: int, acc: Seq<DeclarationView>) -> Result<
    (Seq<DeclarationView>, int),
    ErrorView,
>
    decreases s.len() - p,
{
    if symbol_at(s, p, Symbol::Comma) {
        match decl(s, symbol_end(s, p, Symbol::Comma)) {
            Err(e) => Err(e),
            Ok((group, q)) => {
                proof {
                    lemma_symbol_end(s, p, Symbol::Comma);
                    lemma_decl(s, symbol_end(s, p, Symbol::Comma));
                }
                decls_rest(s, q, acc.push(group))
            },
        }
    } else {
        Ok((acc, p))
    }
}

/// The groups of identifiers that are declared without a type: one for each.
pub open spec fn untyped(idents: Seq<Seq<char>>) -> Seq<DeclarationView> {
    idents.map_values(|name: Seq<char>| DeclarationView { idents: seq![name], ty: None })
}

/// The groups of a declaration statement, read behind its first colon.
/// Where a type follows, the identifiers before the colon have it, and more
/// groups may follow. Where `=` or no identifier follows, there is no type,
/// and every identifier is a group of its own.
pub open spec fn declared_groups(s: Seq<Glyph>, p: int, idents: Seq<Seq<char>>) -> Result<
    (Seq<DeclarationView>, int),
    ErrorView,
> {
    if symbol_at(s, p, Symbol::Assign) || !ident_at(s, p) {
        Ok((untyped(idents), p))
    } else {
        decls_rest(
            s,
            ident_end(s, p),
            seq![DeclarationView { idents, ty: Some(ident_text(s, p)) }],
        )
    }
}

/// The value that a statement may end with: an expression behind `=`.
pub open spec fn initializer(s: Seq<Glyph>, p: int) -> Result<(Option<ExprView>, int), ErrorView> {
    if symbol_at(s, p, Symbol::Assign) {
        match expr(s, symbol_end(s, p, Symbol::Assign), Precedence::Tuple) {
            Err(e) => Err(e),
            Ok((value, q)) => Ok((Some(value), q)),
        }
    } else {
        Ok((None, p))
    }
}

/// What follows the identifiers of an assignment or a declaration.
pub open spec fn statement_tail(s: Seq<Glyph>, p: int, idents: Seq<Seq<char>>) -> Result<
    (StatementView, int),
    ErrorView,
> {
    if symbol_at(s, p, Symbol::Assign) {
        match expr(s, symbol_end(s, p, Symbol::Assign), Precedence::Tuple) {
            Err(e) => Err(e),
            Ok((value, q)) => Ok((StatementView::Assignment { idents, expr: value }, q)),
        }
    } else if symbol_at(s, p, Symbol::Colon) {
        match declared_groups(s, symbol_end(s, p, Symbol::Colon), idents) {
            Err(e) => Err(e),
            Ok((decls, q)) => match initializer(s, q) {
                Err(e) => Err(e),
                Ok((value, r)) => Ok((StatementView::Declaration { decls, expr: value }, r)),
            },
        }
    } else {
        Err(failure(s, p, Expected::AssignOrDeclare))
    }
}

/// A statement. It starts with an identifier. A parenthesis behind it makes
/// a call, which has no meaning yet; the word `return` starts a return
/// statement; any other identifier starts an assignment or a declaration.
pub open spec fn statement(s: Seq<Glyph>, p: int) -> Result<(StatementView, int), ErrorView> {
    if !ident_at(s, p) {
        Err(failure(s, p, Expected::Statement))
    } else if symbol_at(s, ident_end(s, p), Symbol::OpenParen) {
        Err(ErrorView::UnsupportedConstruct)
    } else if ident_text(s, p) == return_word() {
        match expr(s, ident_end(s, p), Precedence::Tuple) {
            Err(e) => Err(e),
            Ok((value, q)) => Ok((StatementView::Return(value), q)),
        }
    } else {
        match idents_rest(s, ident_end(s, p), seq![ident_text(s, p)]) {
            Err(e) => Err(e),
            Ok((idents, q)) => statement_tail(s, q, idents),
        }
    }
}

/// The statements up to the brace that closes the body, added to `acc`.
pub open spec fn statements_rest(s: Seq<Glyph>, p: int, acc: Seq<StatementView>) -> Result<
    (Seq<StatementView>, int),
    ErrorView,
>
    decreases s.len() - p,
{
    if symbol_at(s, p, Symbol::CloseBrace) {
        Ok((acc, symbol_end(s, p, Symbol::CloseBrace)))
    } else {
        match statement(s, p) {
            Err(e) => Err(e),
            Ok((next, q)) => {
                proof {
                    lemma_statement(s, p);
                }
                statements_rest(s, q, acc.push(next))
            },
        }
    }
}

/// The parameters, read behind the opening parenthesis, up to and with the
/// closing one. There may be none.
pub open spec fn params(s: Seq<Glyph>, p: int) -> Result<(Seq<DeclarationView>, int), ErrorView> {
    if symbol_at(s, p, Symbol::CloseParen) {
        Ok((Seq::empty(), symbol_end(s, p, Symbol::CloseParen)))
    } else {
        match decl(s, p) {
            Err(e) => Err(e),
            Ok((first, q)) => match decls_rest(s, q, seq![first]) {
                Err(e) => Err(e),
                Ok((groups, r)) => if symbol_at(s, r, Symbol::CloseParen) {
                    Ok((groups, symbol_end(s, r, Symbol::CloseParen)))
                } else {
                    Err(failure(s, r, Expected::Symbol(Symbol::CloseParen)))
                },
            },
        }
    }
}

/// The declared return types: those behind an arrow, or none.
pub open spec fn return_types(s: Seq<Glyph>, p: int) -> Result<(Seq<Seq<char>>, int), ErrorView> {
    if symbol_at(s, p, Symbol::Arrow) {
        match written_type(s, symbol_end(s, p, Symbol::Arrow)) {
            Err(e) => Err(e),
            Ok((first, q)) => types_rest(s, q, seq![first]),
        }
    } else {
        Ok((Seq::empty(), p))
    }
}

/// A function.
pub open spec fn function(s: Seq<Glyph>, p: int) -> Result<(FunctionView, int), ErrorView> {
    if !symbol_at(s, p, Symbol::Fn) {
        Err(failure(s, p, Expected::Symbol(Symbol::Fn)))
    } else if !ident_at(s, symbol_end(s, p, Symbol::Fn)) {
        Err(failure(s, symbol_end(s, p, Symbol::Fn), Expected::Identifier))
    } else {
        let at_name = symbol_end(s, p, Symbol::Fn);
        let behind_name = ident_end(s, at_name);
        if !symbol_at(s, behind_name, Symbol::OpenParen) {
            Err(failure(s, behind_name, Expected::Symbol(Symbol::OpenParen)))
        } else {
            match params(s, symbol_end(s, behind_name, Symbol::OpenParen)) {
                Err(e) => Err(e),
                Ok((params, q)) => match return_types(s, q) {
                    Err(e) => Err(e),
                    Ok((rets, r)) => if !symbol_at(s, r, Symbol::OpenBrace) {
                        Err(failure(s, r, Expected::Symbol(Symbol::OpenBrace)))
                    } else {
                        match statements_rest(
                            s,
                            symbol_end(s, r, Symbol::OpenBrace),
                            Seq::empty(),
                        ) {
                            Err(e) => Err(e),
                            Ok((statements, end)) => Ok(
                                (
                                    FunctionView {
                                        name: ident_text(s, at_name),
                                        params,
                                        rets,
                                        statements,
                                    },
                                    end,
                                ),
                            ),
                        }
                    },
                },
            }
        }
    }
}

/// The function that a source describes, or the error of the first token
/// that is missing. What follows the function is not read.
pub open spec fn parsed(s: Seq<Glyph>) -> Result<FunctionView, ErrorView> {
    match function(s, skip_ws(s, 0)) {
        Err(e) => Err(e),
        Ok((function, _)) => Ok(function),
    }
}

/// A list of identifiers ends at a cursor within the text, not before its start.
pub proof fn lemma_idents_rest(s: Seq<Glyph>, p: int, acc: Seq<Seq<char>>)
    requires
        0 <= p <= s.len(),
    ensures
        match idents_rest(s, p, acc) {
            Ok((_, q)) => p <= q <= s.len(),
            Err(e) => is_syntactic(s, e),
        },
    decreases s.len() - p,
{
    lemma_failures_syntactic(s);
    if symbol_at(s, p, Symbol::Comma) {
        let q = symbol_end(s, p, Symbol::Comma);
        lemma_symbol_end(s, p, Symbol::Comma);
        if ident_at(s, q) {
            lemma_ident_end(s, q);
            lemma_idents_rest(s, ident_end(s, q), acc.push(ident_text(s, q)));
        }
    }
}

/// A type ends at a cursor within the text, behind its start.
pub proof fn lemma_written_type(s: Seq<Glyph>, p: int)
    requires
        0 <= p <= s.len(),
    ensures
        match written_type(s, p) {
            Ok((_, q)) => p < q <= s.len(),
            Err(e) => is_syntactic(s, e),
        },
{
    lemma_failures_syntactic(s);
    if ident_at(s, p) {
        lemma_ident_end(s, p);
    }
}

/// A list of types ends at a cursor within the text, not before its start.
pub proof fn lemma_types_rest(s: Seq<Glyph>, p: int, acc: Seq<Seq<char>>)
    requires
        0 <= p <= s.len(),
    ensures
        match types_rest(s, p, acc) {
            Ok((_, q)) => p <= q <= s.len(),
            Err(e) => is_syntactic(s, e),
        },
    decreases s.len() - p,
{
    lemma_failures_syntactic(s);
    if symbol_at(s, p, Symbol::Comma) {
        let q = symbol_end(s, p, Symbol::Comma);
        lemma_symbol_end(s, p, Symbol::Comma);
        if ident_at(s, q) {
            lemma_ident_end(s, q);
            lemma_types_rest(s, ident_end(s, q), acc.push(ident_text(s, q)));
        }
    }
}

/// An atom ends at a cursor within the text, behind its start.
pub proof fn lemma_atom(s: Seq<Glyph>, p: int)
    requires
        0 <= p <= s.len(),
    ensures
        match atom(s, p) {
            Ok((_, q)) => p < q <= s.len(),
            Err(e) => is_syntactic(s, e),
        },
{
    lemma_failures_syntactic(s);
    if int_at(s, p) {
        lemma_int_end(s, p);
    } else if ident_at(s, p) {
        lemma_ident_end(s, p);
    }
}

/// The parts of a tuple end at a cursor within the text, not before their start.
pub proof fn lemma_parts_rest(s: Seq<Glyph>, p: int, acc: Seq<ExprView>)
    requires
        0 <= p <= s.len(),
    ensures
        match parts_rest(s, p, acc) {
            Ok((_, q)) => p <= q <= s.len(),
            Err(e) => is_syntactic(s, e),
        },
    decreases s.len() - p,
{
    lemma_failures_syntactic(s);
    if symbol_at(s, p, Symbol::Comma) {
        let q = symbol_end(s, p, Symbol::Comma);
        lemma_symbol_end(s, p, Symbol::Comma);
        lemma_atom(s, q);
        if let Ok((part, r)) = atom(s, q) {
            lemma_parts_rest(s, r, acc.push(part));
        }
    }
}

/// The parts of a tuple end where no comma follows, and behind their start
/// where they start with one.
pub proof fn lemma_parts_rest_stops(s: Seq<Glyph>, p: int, acc: Seq<ExprView>)
    requires
        0 <= p <= s.len(),
    ensures
        parts_rest(s, p, acc) matches Ok((parts, q)) ==> {
            &&& !symbol_at(s, q, Symbol::Comma)
            &&& symbol_at(s, p, Symbol::Comma) ==> p < q && parts.len() > acc.len()
            &&& parts.len() >= acc.len()
        },
    decreases s.len() - p,
{
    if symbol_at(s, p, Symbol::Comma) {
        let q = symbol_end(s, p, Symbol::Comma);
        lemma_symbol_end(s, p, Symbol::Comma);
        lemma_atom(s, q);
        if let Ok((part, r)) = atom(s, q) {
            lemma_parts_rest_stops(s, r, acc.push(part));
            lemma_parts_rest(s, r, acc.push(part));
        }
    }
}

/// An expression ends at a cursor within the text, behind its start.
pub proof fn lemma_expr(s: Seq<Glyph>, p: int, min: Precedence)
    requires
        0 <= p <= s.len(),
    ensures
        match expr(s, p, min) {
            Ok((_, q)) => p < q <= s.len(),
            Err(e) => is_syntactic(s, e),
        },
{
    lemma_failures_syntactic(s);
    lemma_atom(s, p);
    if let Ok((first, q)) = atom(s, p) {
        lemma_parts_rest(s, q, seq![first]);
    }
}

/// A group of identifiers ends at a cursor within the text, behind its start.
pub proof fn lemma_decl(s: Seq<Glyph>, p: int)
    requires
        0 <= p <= s.len(),
    ensures
        match decl(s, p) {
            Ok((_, q)) => p < q <= s.len(),
            Err(e) => is_syntactic(s, e),
        },
{
    lemma_failures_syntactic(s);
    if ident_at(s, p) {
        lemma_ident_end(s, p);
        lemma_idents_rest(s, ident_end(s, p), seq![ident_text(s, p)]);
        if let Ok((idents, q)) = idents_rest(s, ident_end(s, p), seq![ident_text(s, p)]) {
            if symbol_at(s, q, Symbol::Colon) {
                lemma_symbol_end(s, q, Symbol::Colon);
                lemma_written_type(s, symbol_end(s, q, Symbol::Colon));
            }
        }
    }
}

/// A list of groups ends at a cursor within the text, not before its start.
pub proof fn lemma_decls_rest(s: Seq<Glyph>, p: int, acc: Seq<DeclarationView>)
    requires
        0 <= p <= s.len(),
    ensures
        match decls_rest(s, p, acc) {
            Ok((_, q)) => p <= q <= s.len(),
            Err(e) => is_syntactic(s, e),
        },
    decreases s.len() - p,
{
    lemma_failures_syntactic(s);
    if symbol_at(s, p, Symbol::Comma) {
        let q = symbol_end(s, p, Symbol::Comma);
        lemma_symbol_end(s, p, Symbol::Comma);
        lemma_decl(s, q);
        if let Ok((group, r)) = decl(s, q) {
            lemma_decls_rest(s, r, acc.push(group));
        }
    }
}

/// The tail of a statement ends at a cursor within the text, behind its start.
pub proof fn lemma_statement_tail(s: Seq<Glyph>, p: int, idents: Seq<Seq<char>>)
    requires
        0 <= p <= s.len(),
    ensures
        match statement_tail(s, p, idents) {
            Ok((_, q)) => p < q <= s.len(),
            Err(e) => is_syntactic(s, e),
        },
{
    lemma_failures_syntactic(s);
    if symbol_at(s, p, Symbol::Assign) {
        lemma_symbol_end(s, p, Symbol::Assign);
        lemma_expr(s, symbol_end(s, p, Symbol::Assign), Precedence::Tuple);
    } else if symbol_at(s, p, Symbol::Colon) {
        let c = symbol_end(s, p, Symbol::Colon);
        lemma_symbol_end(s, p, Symbol::Colon);
        if !symbol_at(s, c, Symbol::Assign) && ident_at(s, c) {
            lemma_ident_end(s, c);
            lemma_decls_rest(
                s,
                ident_end(s, c),
                seq![DeclarationView { idents, ty: Some(ident_text(s, c)) }],
            );
        }
        if let Ok((decls, q)) = declared_groups(s, c, idents) {
            if symbol_at(s, q, Symbol::Assign) {
                lemma_symbol_end(s, q, Symbol::Assign);
                lemma_expr(s, symbol_end(s, q, Symbol::Assign), Precedence::Tuple);
            }
        }
    }
}

/// A statement ends at a cursor within the text, behind its start.
pub proof fn lemma_statement(s: Seq<Glyph>, p: int)
    requires
        0 <= p <= s.len(),
    ensures
        match statement(s, p) {
            Ok((_, q)) => p < q <= s.len(),
            Err(e) => is_syntactic(s, e),
        },
{
    lemma_failures_syntactic(s);
    if ident_at(s, p) {
        lemma_ident_end(s, p);
        lemma_expr(s, ident_end(s, p), Precedence::Tuple);
        lemma_idents_rest(s, ident_end(s, p), seq![ident_text(s, p)]);
        if let Ok((idents, q)) = idents_rest(s, ident_end(s, p), seq![ident_text(s, p)]) {
            lemma_statement_tail(s, q, idents);
        }
    }
}

/// The parameters end at a cursor within the text.
pub proof fn lemma_params(s: Seq<Glyph>, p: int)
    requires
        0 <= p <= s.len(),
    ensures
        match params(s, p) {
            Ok((_, q)) => p < q <= s.len(),
            Err(e) => is_syntactic(s, e),
        },
{
    lemma_failures_syntactic(s);
    if symbol_at(s, p, Symbol::CloseParen) {
        lemma_symbol_end(s, p, Symbol::CloseParen);
    } else {
        lemma_decl(s, p);
        if let Ok((first, q)) = decl(s, p) {
            lemma_decls_rest(s, q, seq![first]);
            if let Ok((groups, r)) = decls_rest(s, q, seq![first]) {
                if symbol_at(s, r, Symbol::CloseParen) {
                    lemma_symbol_end(s, r, Symbol::CloseParen);
                }
            }
        }
    }
}

/// The declared return types end at a cursor within the text.
pub proof fn lemma_return_types(s: Seq<Glyph>, p: int)
    requires
        0 <= p <= s.len(),
    ensures
        match return_types(s, p) {
            Ok((_, q)) => p <= q <= s.len(),
            Err(e) => is_syntactic(s, e),
        },
{
    lemma_failures_syntactic(s);
    if symbol_at(s, p, Symbol::Arrow) {
        lemma_symbol_end(s, p, Symbol::Arrow);
        lemma_written_type(s, symbol_end(s, p, Symbol::Arrow));
        if let Ok((first, q)) = written_type(s, symbol_end(s, p, Symbol::Arrow)) {
            lemma_types_rest(s, q, seq![first]);
        }
    }
}

} // verus!
