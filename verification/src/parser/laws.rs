//! What holds of every source that the grammar reads.

use crate::parser::ast::{DeclarationView, ExprView, StatementView};
use crate::parser::glyph::Glyph;
use crate::parser::grammar::{
    atom, decl, declared_groups, decls_rest, expr, function, idents_rest, lemma_atom, lemma_decl,
    lemma_decls_rest, lemma_idents_rest, lemma_params, lemma_parts_rest_stops, lemma_return_types,
    lemma_statement, params, parsed, parts_rest, return_types, statement, statements_rest,
    Precedence,
};
use crate::parser::lexical::{
    ident_at, ident_end, ident_text, is_syntactic, lemma_failures_syntactic, lemma_ident_end,
    lemma_skip_ws, lemma_symbol_end, skip_ws, symbol_at, symbol_end,
};
use crate::parser::token::Symbol;
use vstd::prelude::*;

verus! {

/// The parts that are read behind atoms are atoms.
pub proof fn lemma_parts_rest_atoms(s: Seq<Glyph>, p: int, acc: Seq<ExprView>)
    requires
        0 <= p <= s.len(),
        forall|i: int| 0 <= i < acc.len() ==> (#[trigger] acc[i]).is_atom(),
    ensures
        parts_rest(s, p, acc) matches Ok((parts, _)) ==> forall|i: int|
            0 <= i < parts.len() ==> (#[trigger] parts[i]).is_atom(),
    decreases s.len() - p,
{
    if symbol_at(s, p, Symbol::Comma) {
        let q = symbol_end(s, p, Symbol::Comma);
        lemma_symbol_end(s, p, Symbol::Comma);
        lemma_atom(s, q);
        if let Ok((part, r)) = atom(s, q) {
            lemma_parts_rest_atoms(s, r, acc.push(part));
        }
    }
}

/// An expression that is read is an atom or a tuple of two atoms or more.
pub proof fn lemma_expr_flat(s: Seq<Glyph>, p: int, min: Precedence)
    requires
        0 <= p <= s.len(),
    ensures
        expr(s, p, min) matches Ok((value, _)) ==> {
            &&& value.is_flat()
            &&& value matches ExprView::Tuple(parts) ==> parts.len() >= 2
            &&& min == Precedence::Expr ==> value.is_atom()
        },
{
    lemma_atom(s, p);
    if let Ok((first, q)) = atom(s, p) {
        lemma_parts_rest_atoms(s, q, seq![first]);
        lemma_parts_rest_stops(s, q, seq![first]);
    }
}

/// The groups that are read behind groups with types have types.
pub proof fn lemma_decls_rest_typed(s: Seq<Glyph>, p: int, acc: Seq<DeclarationView>)
    requires
        0 <= p <= s.len(),
        forall|i: int| 0 <= i < acc.len() ==> (#[trigger] acc[i]).ty is Some,
    ensures
        decls_rest(s, p, acc) matches Ok((groups, _)) ==> forall|i: int|
            0 <= i < groups.len() ==> (#[trigger] groups[i]).ty is Some,
    decreases s.len() - p,
{
    if symbol_at(s, p, Symbol::Comma) {
        let q = symbol_end(s, p, Symbol::Comma);
        lemma_symbol_end(s, p, Symbol::Comma);
        lemma_decl(s, q);
        if let Ok((group, r)) = decl(s, q) {
            lemma_decls_rest_typed(s, r, acc.push(group));
        }
    }
}

/// The parameters that are read have types.
pub proof fn lemma_params_typed(s: Seq<Glyph>, p: int)
    requires
        0 <= p <= s.len(),
    ensures
        params(s, p) matches Ok((groups, _)) ==> forall|i: int|
            0 <= i < groups.len() ==> (#[trigger] groups[i]).ty is Some,
{
    if !symbol_at(s, p, Symbol::CloseParen) {
        lemma_decl(s, p);
        if let Ok((first, q)) = decl(s, p) {
            lemma_decls_rest_typed(s, q, seq![first]);
        }
    }
}

/// A statement that is read is flat.
pub proof fn lemma_statement_flat(s: Seq<Glyph>, p: int)
    requires
        0 <= p <= s.len(),
    ensures
        statement(s, p) matches Ok((value, _)) ==> value.is_flat(),
{
    if ident_at(s, p) {
        let q = ident_end(s, p);
        lemma_ident_end(s, p);
        lemma_expr_flat(s, q, Precedence::Tuple);
        lemma_idents_rest(s, q, seq![ident_text(s, p)]);
        if let Ok((idents, r)) = idents_rest(s, q, seq![ident_text(s, p)]) {
            if symbol_at(s, r, Symbol::Assign) {
                lemma_symbol_end(s, r, Symbol::Assign);
                lemma_expr_flat(s, symbol_end(s, r, Symbol::Assign), Precedence::Tuple);
            } else if symbol_at(s, r, Symbol::Colon) {
                let c = symbol_end(s, r, Symbol::Colon);
                lemma_symbol_end(s, r, Symbol::Colon);
                if !symbol_at(s, c, Symbol::Assign) && ident_at(s, c) {
                    lemma_ident_end(s, c);
                    lemma_decls_rest(
                        s,
                        ident_end(s, c),
                        seq![DeclarationView { idents, ty: Some(ident_text(s, c)) }],
                    );
                }
                if let Ok((decls, d)) = declared_groups(s, c, idents) {
                    if symbol_at(s, d, Symbol::Assign) {
                        lemma_symbol_end(s, d, Symbol::Assign);
                        lemma_expr_flat(s, symbol_end(s, d, Symbol::Assign), Precedence::Tuple);
                    }
                }
            }
        }
    }
}

/// The statements that are read behind flat statements are flat, and they
/// end at a cursor within the text, behind their start.
pub proof fn lemma_statements_rest(s: Seq<Glyph>, p: int, acc: Seq<StatementView>)
    requires
        0 <= p <= s.len(),
        forall|i: int| 0 <= i < acc.len() ==> (#[trigger] acc[i]).is_flat(),
    ensures
        match statements_rest(s, p, acc) {
            Ok((statements, q)) => {
                &&& p < q <= s.len()
                &&& forall|i: int|
                    0 <= i < statements.len() ==> (#[trigger] statements[i]).is_flat()
            },
            Err(e) => is_syntactic(s, e),
        },
    decreases s.len() - p,
{
    if symbol_at(s, p, Symbol::CloseBrace) {
        lemma_symbol_end(s, p, Symbol::CloseBrace);
    } else {
        lemma_statement(s, p);
        lemma_statement_flat(s, p);
        if let Ok((next, q)) = statement(s, p) {
            lemma_statements_rest(s, q, acc.push(next));
        }
    }
}

/// A function that is read is flat, its parameters have types, and it ends
/// at a cursor within the text.
pub proof fn lemma_function(s: Seq<Glyph>, p: int)
    requires
        0 <= p <= s.len(),
    ensures
        match function(s, p) {
            Ok((function, q)) => p < q <= s.len() && function.is_flat() && function.has_typed_params(),
            Err(e) => is_syntactic(s, e),
        },
{
    lemma_failures_syntactic(s);
    if symbol_at(s, p, Symbol::Fn) {
        let at_name = symbol_end(s, p, Symbol::Fn);
        lemma_symbol_end(s, p, Symbol::Fn);
        if ident_at(s, at_name) {
            let behind_name = ident_end(s, at_name);
            lemma_ident_end(s, at_name);
            if symbol_at(s, behind_name, Symbol::OpenParen) {
                let at_params = symbol_end(s, behind_name, Symbol::OpenParen);
                lemma_symbol_end(s, behind_name, Symbol::OpenParen);
                lemma_params(s, at_params);
                lemma_params_typed(s, at_params);
                if let Ok((_, q)) = params(s, at_params) {
                    lemma_return_types(s, q);
                    if let Ok((_, r)) = return_types(s, q) {
                        if symbol_at(s, r, Symbol::OpenBrace) {
                            lemma_symbol_end(s, r, Symbol::OpenBrace);
                            lemma_statements_rest(
                                s,
                                symbol_end(s, r, Symbol::OpenBrace),
                                Seq::empty(),
                            );
                        }
                    }
                }
            }
        }
    }
}

/// In a function that is read from a source, no tuple stands inside a tuple
/// and every parameter has a type. Where the parser fails, a construct is
/// not supported, or a token is missing at a line and a column of the source.
pub proof fn lemma_parsed(s: Seq<Glyph>)
    ensures
        match parsed(s) {
            Ok(function) => function.is_flat() && function.has_typed_params(),
            Err(e) => is_syntactic(s, e),
        },
{
    lemma_skip_ws(s, 0);
    lemma_function(s, skip_ws(s, 0));
}

} // verus!
