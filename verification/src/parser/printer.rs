//! A way to write a syntax tree down, and the proof that the grammar reads
//! back what was written.
//!
//! The text is written token by token with one space behind each token. The
//! characters of the symbols belong to no class; those of names and numbers
//! have the classes that a classifier gives them.

use crate::error::ErrorView;
use crate::parser::ast::{DeclarationView, ExprView, FunctionView, StatementView};
use crate::parser::glyph::{text_of, Class, Glyph};
use crate::parser::grammar::{
    atom, decl, declared_groups, decls_rest, expr, function, idents_rest, initializer, params,
    parsed, parts_rest, return_types, return_word, statement, statement_tail, statements_rest,
    types_rest, untyped, Precedence,
};
use crate::parser::lexical::{
    ident_at, ident_end, ident_text, int_at, int_end, int_text, run_len, skip_ws, symbol_at,
    symbol_end,
};
use crate::parser::token::Symbol;
use vstd::prelude::*;

verus! {

/// The space that is written behind every token.
pub open spec fn space() -> Glyph {
    Glyph { ch: ' ', alphabetic: false, numeric: false, whitespace: true }
}

/// A character that belongs to no class.
pub open spec fn plain(ch: char) -> Glyph {
    Glyph { ch, alphabetic: false, numeric: false, whitespace: false }
}

/// A character that is alphabetic and nothing else.
pub open spec fn letter(ch: char) -> Glyph {
    Glyph { ch, alphabetic: true, numeric: false, whitespace: false }
}

/// Whether a symbol other than the keyword starts with the character.
pub open spec fn starts_symbol(ch: char) -> bool {
    ch == '(' || ch == ')' || ch == '-' || ch == '{' || ch == '}' || ch == ':' || ch == ','
        || ch == '='
}

/// Whether the classifier keeps the characters that it classifies.
pub open spec fn is_faithful(cls: spec_fn(char) -> Glyph) -> bool {
    forall|ch: char| (#[trigger] cls(ch)).ch == ch
}

/// Whether the text reads as an identifier: an alphabetic character that is
/// no number, no white space and no start of a symbol, and alphanumeric
/// characters behind it.
pub open spec fn is_name(text: Seq<char>, cls: spec_fn(char) -> Glyph) -> bool {
    &&& text.len() > 0
    &&& cls(text[0]).alphabetic
    &&& !cls(text[0]).numeric
    &&& !cls(text[0]).whitespace
    &&& !starts_symbol(text[0])
    &&& forall|i: int| 0 <= i < text.len() ==> (#[trigger] cls(text[i])).has_class(Class::Alphanumeric)
}

/// Whether the text reads as an integer literal: numeric characters, the
/// first of which is no white space and no start of a symbol.
pub open spec fn is_number(text: Seq<char>, cls: spec_fn(char) -> Glyph) -> bool {
    &&& text.len() > 0
    &&& !cls(text[0]).whitespace
    &&& !starts_symbol(text[0])
    &&& forall|i: int| 0 <= i < text.len() ==> (#[trigger] cls(text[i])).numeric
}

/// A symbol as it is written: its characters and a space.
pub open spec fn tok(symbol: Symbol) -> Seq<Glyph> {
    symbol.text().map_values(|ch: char| plain(ch)).push(space())
}

/// A name or a number as it is written: its characters and a space.
pub open spec fn word(text: Seq<char>, cls: spec_fn(char) -> Glyph) -> Seq<Glyph> {
    text.map_values(cls).push(space())
}

/// The keyword of a return statement as it is written.
pub open spec fn return_keyword() -> Seq<Glyph> {
    word(return_word(), |ch: char| letter(ch))
}

/// Whether the glyphs `t` stand in `s` from the position `p` on.
pub open spec fn stands_at(s: Seq<Glyph>, p: int, t: Seq<Glyph>) -> bool {
    0 <= p && p + t.len() <= s.len() && s.subrange(p, p + t.len()) == t
}

/// Whether a token or the end of the text stands at `p`, and no white space.
pub open spec fn is_boundary(s: Seq<Glyph>, p: int) -> bool {
    0 <= p <= s.len() && (p < s.len() ==> !s[p].whitespace)
}

/// Whether a token that no comma, no `=` and no parenthesis starts, or the
/// end of the text, stands at `p`.
pub open spec fn is_break(s: Seq<Glyph>, p: int) -> bool {
    &&& is_boundary(s, p)
    &&& !symbol_at(s, p, Symbol::Comma)
    &&& !symbol_at(s, p, Symbol::Assign)
    &&& !symbol_at(s, p, Symbol::OpenParen)
}

/// Glyphs that stand one behind the other stand each at its place.
pub proof fn lemma_stands_split(s: Seq<Glyph>, p: int, a: Seq<Glyph>, b: Seq<Glyph>)
    requires
        stands_at(s, p, a + b),
    ensures
        stands_at(s, p, a),
        stands_at(s, p + a.len(), b),
{
    let whole = s.subrange(p, p + (a + b).len());
    assert(s.subrange(p, p + a.len()) =~= whole.subrange(0, a.len() as int));
    assert(whole.subrange(0, a.len() as int) =~= a);
    assert(s.subrange(p + a.len(), p + a.len() + b.len()) =~= whole.subrange(
        a.len() as int,
        (a + b).len() as int,
    ));
    assert(whole.subrange(a.len() as int, (a + b).len() as int) =~= b);
}

/// A glyph of glyphs that stand in a text is a glyph of the text.
pub proof fn lemma_stands_index(s: Seq<Glyph>, p: int, t: Seq<Glyph>, i: int)
    requires
        stands_at(s, p, t),
        0 <= i < t.len(),
    ensures
        s[p + i] == t[i],
{
    assert(s.subrange(p, p + t.len())[i] == s[p + i]);
}

/// A run of glyphs of a class that a glyph of another class or the end of
/// the text follows is the longest.
pub proof fn lemma_run_exact(s: Seq<Glyph>, p: int, q: int, class: Class)
    requires
        0 <= p <= q <= s.len(),
        forall|i: int| p <= i < q ==> (#[trigger] s[i]).has_class(class),
        q < s.len() ==> !s[q].has_class(class),
    ensures
        run_len(s, p, class) == q - p,
    decreases q - p,
{
    if p < q {
        assert(s[p].has_class(class));
        lemma_run_exact(s, p + 1, q, class);
    }
}

/// The one space behind a token leads to the next token.
pub proof fn lemma_skip_space(s: Seq<Glyph>, q: int)
    requires
        0 <= q < s.len(),
        s[q] == space(),
        is_boundary(s, q + 1),
    ensures
        skip_ws(s, q) == q + 1,
{
    assert forall|i: int| q <= i < q + 1 implies (#[trigger] s[i]).has_class(Class::Whitespace) by {}
    lemma_run_exact(s, q, q + 1, Class::Whitespace);
}

/// A glyph that is no white space and starts no symbol starts a token that
/// is no symbol but the keyword.
pub proof fn lemma_word_start(s: Seq<Glyph>, p: int)
    requires
        0 <= p < s.len(),
        !s[p].whitespace,
        !starts_symbol(s[p].ch),
    ensures
        is_boundary(s, p),
        forall|symbol: Symbol| symbol != Symbol::Fn ==> !#[trigger] symbol_at(s, p, symbol),
        is_break(s, p),
{
    assert forall|symbol: Symbol| symbol != Symbol::Fn implies !#[trigger] symbol_at(
        s,
        p,
        symbol,
    ) by {
        if symbol_at(s, p, symbol) {
            assert(text_of(s).subrange(p, p + symbol.text().len())[0] == text_of(s)[p]);
            assert(symbol.text()[0] == s[p].ch);
        }
    }
}

/// A symbol that is written is read as that symbol and as nothing else.
pub proof fn lemma_symbol_token(s: Seq<Glyph>, p: int, symbol: Symbol)
    requires
        stands_at(s, p, tok(symbol)),
        is_boundary(s, p + tok(symbol).len()),
    ensures
        symbol_at(s, p, symbol),
        symbol_end(s, p, symbol) == p + tok(symbol).len(),
        forall|other: Symbol| other != symbol ==> !#[trigger] symbol_at(s, p, other),
        !ident_at(s, p),
        !int_at(s, p),
        is_boundary(s, p),
{
    let n = symbol.text().len() as int;
    let t = tok(symbol);
    assert(t.len() == n + 1);
    assert forall|i: int| 0 <= i < n implies #[trigger] text_of(s).subrange(p, p + n)[i]
        == symbol.text()[i] by {
        lemma_stands_index(s, p, t, i);
    }
    assert(text_of(s).subrange(p, p + n) =~= symbol.text());
    lemma_stands_index(s, p, t, n);
    lemma_skip_space(s, p + n);
    lemma_stands_index(s, p, t, 0);
    assert(s[p] == plain(symbol.text()[0]));
    assert forall|other: Symbol| other != symbol implies !#[trigger] symbol_at(s, p, other) by {
        if symbol_at(s, p, other) {
            assert(text_of(s).subrange(p, p + other.text().len())[0] == text_of(s)[p]);
            assert(other.text()[0] == symbol.text()[0]);
        }
    }
}

/// A name that is written is read as an identifier with that text.
pub proof fn lemma_name_token(s: Seq<Glyph>, p: int, text: Seq<char>, cls: spec_fn(char) -> Glyph)
    requires
        is_faithful(cls),
        is_name(text, cls),
        stands_at(s, p, word(text, cls)),
        is_boundary(s, p + text.len() + 1),
    ensures
        ident_at(s, p),
        !int_at(s, p),
        ident_text(s, p) == text,
        ident_end(s, p) == p + text.len() + 1,
        forall|symbol: Symbol| symbol != Symbol::Fn ==> !#[trigger] symbol_at(s, p, symbol),
        is_break(s, p),
{
    let n = text.len() as int;
    let t = word(text, cls);
    assert forall|i: int| p <= i < p + n implies (#[trigger] s[i]).has_class(
        Class::Alphanumeric,
    ) by {
        lemma_stands_index(s, p, t, i - p);
        assert(cls(text[i - p]).has_class(Class::Alphanumeric));
    }
    lemma_stands_index(s, p, t, n);
    lemma_run_exact(s, p, p + n, Class::Alphanumeric);
    lemma_skip_space(s, p + n);
    lemma_stands_index(s, p, t, 0);
    assert(s[p] == cls(text[0]));
    assert forall|i: int| 0 <= i < n implies #[trigger] text_of(s).subrange(p, p + n)[i]
        == text[i] by {
        lemma_stands_index(s, p, t, i);
    }
    assert(text_of(s).subrange(p, p + n) =~= text);
    lemma_word_start(s, p);
}

/// A number that is written is read as an integer literal with that text.
pub proof fn lemma_number_token(s: Seq<Glyph>, p: int, text: Seq<char>, cls: spec_fn(char) -> Glyph)
    requires
        is_faithful(cls),
        is_number(text, cls),
        stands_at(s, p, word(text, cls)),
        is_boundary(s, p + text.len() + 1),
    ensures
        int_at(s, p),
        int_text(s, p) == text,
        int_end(s, p) == p + text.len() + 1,
        forall|symbol: Symbol| symbol != Symbol::Fn ==> !#[trigger] symbol_at(s, p, symbol),
        is_break(s, p),
{
    let n = text.len() as int;
    let t = word(text, cls);
    assert forall|i: int| p <= i < p + n implies (#[trigger] s[i]).has_class(Class::Numeric) by {
        lemma_stands_index(s, p, t, i - p);
        assert(cls(text[i - p]).numeric);
    }
    lemma_stands_index(s, p, t, n);
    lemma_run_exact(s, p, p + n, Class::Numeric);
    lemma_skip_space(s, p + n);
    lemma_stands_index(s, p, t, 0);
    assert(s[p] == cls(text[0]));
    assert forall|i: int| 0 <= i < n implies #[trigger] text_of(s).subrange(p, p + n)[i]
        == text[i] by {
        lemma_stands_index(s, p, t, i);
    }
    assert(text_of(s).subrange(p, p + n) =~= text);
    lemma_word_start(s, p);
}

/// Whether a token that no comma starts, or the end of the text, stands at `p`.
pub open spec fn is_stop(s: Seq<Glyph>, p: int) -> bool {
    is_boundary(s, p) && !symbol_at(s, p, Symbol::Comma)
}

/// Whether every one of the texts reads as an identifier.
pub open spec fn are_names(names: Seq<Seq<char>>, cls: spec_fn(char) -> Glyph) -> bool {
    forall|i: int| 0 <= i < names.len() ==> is_name(#[trigger] names[i], cls)
}

/// The names of a list behind its first, as they are written: each behind a comma.
pub open spec fn names_tail(names: Seq<Seq<char>>, cls: spec_fn(char) -> Glyph) -> Seq<Glyph>
    decreases names.len(),
{
    if names.len() == 0 {
        Seq::empty()
    } else {
        tok(Symbol::Comma) + word(names[0], cls) + names_tail(names.drop_first(), cls)
    }
}

/// Names that are written behind commas are read as those names.
pub proof fn lemma_names_tail_reads(
    s: Seq<Glyph>,
    p: int,
    names: Seq<Seq<char>>,
    acc: Seq<Seq<char>>,
    cls: spec_fn(char) -> Glyph,
)
    requires
        is_faithful(cls),
        are_names(names, cls),
        stands_at(s, p, names_tail(names, cls)),
        is_stop(s, p + names_tail(names, cls).len()),
    ensures
        idents_rest(s, p, acc) == Ok::<(Seq<Seq<char>>, int), ErrorView>(
            (acc + names, p + names_tail(names, cls).len()),
        ),
        types_rest(s, p, acc) == Ok::<(Seq<Seq<char>>, int), ErrorView>(
            (acc + names, p + names_tail(names, cls).len()),
        ),
        is_boundary(s, p),
        !symbol_at(s, p + names_tail(names, cls).len(), Symbol::OpenParen) ==> !symbol_at(
            s,
            p,
            Symbol::OpenParen,
        ),
    decreases names.len(),
{
    if names.len() == 0 {
        assert(acc + names =~= acc);
    } else {
        let rest = names.drop_first();
        let a = tok(Symbol::Comma);
        let b = word(names[0], cls);
        let c = names_tail(rest, cls);
        lemma_stands_split(s, p, a + b, c);
        lemma_stands_split(s, p, a, b);
        assert(are_names(rest, cls)) by {
            assert forall|i: int| 0 <= i < rest.len() implies is_name(#[trigger] rest[i], cls) by {
                assert(rest[i] == names[i + 1]);
            }
        }
        lemma_names_tail_reads(s, p + a.len() + b.len(), rest, acc.push(names[0]), cls);
        lemma_name_token(s, p + a.len(), names[0], cls);
        lemma_symbol_token(s, p, Symbol::Comma);
        assert(acc.push(names[0]) + rest =~= acc + names);
    }
}

/// An atom as it is written.
pub open spec fn atom_glyphs(value: ExprView, cls: spec_fn(char) -> Glyph) -> Seq<Glyph> {
    match value {
        ExprView::IntLiteral(text) => word(text, cls),
        ExprView::Ident(text) => word(text, cls),
        ExprView::Tuple(_) => Seq::empty(),
    }
}

/// Whether the expression is an atom that can be written and read back.
pub open spec fn is_printable_atom(value: ExprView, cls: spec_fn(char) -> Glyph) -> bool {
    match value {
        ExprView::IntLiteral(text) => is_number(text, cls),
        ExprView::Ident(text) => is_name(text, cls),
        ExprView::Tuple(_) => false,
    }
}

/// Whether every one of the expressions is an atom that can be written.
pub open spec fn are_printable_atoms(parts: Seq<ExprView>, cls: spec_fn(char) -> Glyph) -> bool {
    forall|i: int| 0 <= i < parts.len() ==> is_printable_atom(#[trigger] parts[i], cls)
}

/// An atom that is written is read as that atom.
pub proof fn lemma_atom_reads(s: Seq<Glyph>, p: int, value: ExprView, cls: spec_fn(char) -> Glyph)
    requires
        is_faithful(cls),
        is_printable_atom(value, cls),
        stands_at(s, p, atom_glyphs(value, cls)),
        is_boundary(s, p + atom_glyphs(value, cls).len()),
    ensures
        atom(s, p) == Ok::<(ExprView, int), ErrorView>((value, p + atom_glyphs(value, cls).len())),
        is_break(s, p),
        !symbol_at(s, p, Symbol::CloseBrace),
{
    match value {
        ExprView::IntLiteral(text) => {
            lemma_number_token(s, p, text, cls);
        },
        ExprView::Ident(text) => {
            lemma_name_token(s, p, text, cls);
        },
        ExprView::Tuple(_) => {},
    }
}

/// The parts of a tuple behind its first, as they are written: each behind a comma.
pub open spec fn parts_tail(parts: Seq<ExprView>, cls: spec_fn(char) -> Glyph) -> Seq<Glyph>
    decreases parts.len(),
{
    if parts.len() == 0 {
        Seq::empty()
    } else {
        tok(Symbol::Comma) + atom_glyphs(parts[0], cls) + parts_tail(parts.drop_first(), cls)
    }
}

/// Atoms that are written behind commas are read as those atoms.
pub proof fn lemma_parts_tail_reads(
    s: Seq<Glyph>,
    p: int,
    parts: Seq<ExprView>,
    acc: Seq<ExprView>,
    cls: spec_fn(char) -> Glyph,
)
    requires
        is_faithful(cls),
        are_printable_atoms(parts, cls),
        stands_at(s, p, parts_tail(parts, cls)),
        is_stop(s, p + parts_tail(parts, cls).len()),
    ensures
        parts_rest(s, p, acc) == Ok::<(Seq<ExprView>, int), ErrorView>(
            (acc + parts, p + parts_tail(parts, cls).len()),
        ),
        is_boundary(s, p),
        parts.len() > 0 ==> symbol_at(s, p, Symbol::Comma),
    decreases parts.len(),
{
    if parts.len() == 0 {
        assert(acc + parts =~= acc);
    } else {
        let rest = parts.drop_first();
        let a = tok(Symbol::Comma);
        let b = atom_glyphs(parts[0], cls);
        let c = parts_tail(rest, cls);
        lemma_stands_split(s, p, a + b, c);
        lemma_stands_split(s, p, a, b);
        assert(are_printable_atoms(rest, cls)) by {
            assert forall|i: int| 0 <= i < rest.len() implies is_printable_atom(
                #[trigger] rest[i],
                cls,
            ) by {
                assert(rest[i] == parts[i + 1]);
            }
        }
        lemma_parts_tail_reads(s, p + a.len() + b.len(), rest, acc.push(parts[0]), cls);
        lemma_atom_reads(s, p + a.len(), parts[0], cls);
        lemma_symbol_token(s, p, Symbol::Comma);
        assert(acc.push(parts[0]) + rest =~= acc + parts);
    }
}

/// An expression as it is written: its atoms with commas between them.
pub open spec fn expr_glyphs(value: ExprView, cls: spec_fn(char) -> Glyph) -> Seq<Glyph> {
    match value {
        ExprView::Tuple(parts) => if parts.len() == 0 {
            Seq::empty()
        } else {
            atom_glyphs(parts[0], cls) + parts_tail(parts.drop_first(), cls)
        },
        _ => atom_glyphs(value, cls),
    }
}

/// Whether the expression can be written and read back: an atom, or a tuple
/// of two atoms or more.
pub open spec fn is_printable_expr(value: ExprView, cls: spec_fn(char) -> Glyph) -> bool {
    match value {
        ExprView::Tuple(parts) => parts.len() >= 2 && are_printable_atoms(parts, cls),
        _ => is_printable_atom(value, cls),
    }
}

/// An expression that is written is read as that expression.
pub proof fn lemma_expr_reads(s: Seq<Glyph>, p: int, value: ExprView, cls: spec_fn(char) -> Glyph)
    requires
        is_faithful(cls),
        is_printable_expr(value, cls),
        stands_at(s, p, expr_glyphs(value, cls)),
        is_stop(s, p + expr_glyphs(value, cls).len()),
    ensures
        expr(s, p, Precedence::Tuple) == Ok::<(ExprView, int), ErrorView>(
            (value, p + expr_glyphs(value, cls).len()),
        ),
        is_break(s, p),
        !symbol_at(s, p, Symbol::CloseBrace),
{
    match value {
        ExprView::Tuple(parts) => {
            let rest = parts.drop_first();
            let a = atom_glyphs(parts[0], cls);
            let b = parts_tail(rest, cls);
            lemma_stands_split(s, p, a, b);
            assert(are_printable_atoms(rest, cls)) by {
                assert forall|i: int| 0 <= i < rest.len() implies is_printable_atom(
                    #[trigger] rest[i],
                    cls,
                ) by {
                    assert(rest[i] == parts[i + 1]);
                }
            }
            lemma_parts_tail_reads(s, p + a.len(), rest, seq![parts[0]], cls);
            lemma_atom_reads(s, p, parts[0], cls);
            assert(seq![parts[0]] + rest =~= parts);
        },
        _ => {
            lemma_atom_reads(s, p, value, cls);
        },
    }
}

/// A group of identifiers with their type as it is written.
pub open spec fn decl_glyphs(group: DeclarationView, cls: spec_fn(char) -> Glyph) -> Seq<Glyph> {
    word(group.idents[0], cls) + names_tail(group.idents.drop_first(), cls) + tok(Symbol::Colon)
        + word(group.ty->Some_0, cls)
}

/// Whether the group can be written and read back: it has an identifier and
/// a type, and they read as identifiers.
pub open spec fn is_printable_decl(group: DeclarationView, cls: spec_fn(char) -> Glyph) -> bool {
    &&& group.idents.len() >= 1
    &&& are_names(group.idents, cls)
    &&& group.ty matches Some(ty) && is_name(ty, cls)
}

/// Whether every one of the groups can be written and read back.
pub open spec fn are_printable_decls(groups: Seq<DeclarationView>, cls: spec_fn(char) -> Glyph) -> bool {
    forall|i: int| 0 <= i < groups.len() ==> is_printable_decl(#[trigger] groups[i], cls)
}

/// A group that is written is read as that group.
pub proof fn lemma_decl_reads(s: Seq<Glyph>, p: int, group: DeclarationView, cls: spec_fn(char) -> Glyph)
    requires
        is_faithful(cls),
        is_printable_decl(group, cls),
        stands_at(s, p, decl_glyphs(group, cls)),
        is_boundary(s, p + decl_glyphs(group, cls).len()),
    ensures
        decl(s, p) == Ok::<(DeclarationView, int), ErrorView>(
            (group, p + decl_glyphs(group, cls).len()),
        ),
        is_break(s, p),
        !symbol_at(s, p, Symbol::CloseParen),
{
    let first = group.idents[0];
    let rest = group.idents.drop_first();
    let ty = group.ty->Some_0;
    let a = word(first, cls);
    let b = names_tail(rest, cls);
    let c = tok(Symbol::Colon);
    let d = word(ty, cls);
    lemma_stands_split(s, p, a + b + c, d);
    lemma_stands_split(s, p, a + b, c);
    lemma_stands_split(s, p, a, b);
    let q = p + a.len() + b.len();
    lemma_name_token(s, q + c.len(), ty, cls);
    lemma_symbol_token(s, q, Symbol::Colon);
    assert(are_names(rest, cls)) by {
        assert forall|i: int| 0 <= i < rest.len() implies is_name(#[trigger] rest[i], cls) by {
            assert(rest[i] == group.idents[i + 1]);
        }
    }
    lemma_names_tail_reads(s, p + a.len(), rest, seq![first], cls);
    lemma_name_token(s, p, first, cls);
    assert(seq![first] + rest =~= group.idents);
}

/// The groups of a list behind its first, as they are written: each behind a comma.
pub open spec fn decls_tail(groups: Seq<DeclarationView>, cls: spec_fn(char) -> Glyph) -> Seq<Glyph>
    decreases groups.len(),
{
    if groups.len() == 0 {
        Seq::empty()
    } else {
        tok(Symbol::Comma) + decl_glyphs(groups[0], cls) + decls_tail(groups.drop_first(), cls)
    }
}

/// Groups that are written behind commas are read as those groups.
pub proof fn lemma_decls_tail_reads(
    s: Seq<Glyph>,
    p: int,
    groups: Seq<DeclarationView>,
    acc: Seq<DeclarationView>,
    cls: spec_fn(char) -> Glyph,
)
    requires
        is_faithful(cls),
        are_printable_decls(groups, cls),
        stands_at(s, p, decls_tail(groups, cls)),
        is_stop(s, p + decls_tail(groups, cls).len()),
    ensures
        decls_rest(s, p, acc) == Ok::<(Seq<DeclarationView>, int), ErrorView>(
            (acc + groups, p + decls_tail(groups, cls).len()),
        ),
        is_boundary(s, p),
    decreases groups.len(),
{
    if groups.len() == 0 {
        assert(acc + groups =~= acc);
    } else {
        let rest = groups.drop_first();
        let a = tok(Symbol::Comma);
        let b = decl_glyphs(groups[0], cls);
        let c = decls_tail(rest, cls);
        lemma_stands_split(s, p, a + b, c);
        lemma_stands_split(s, p, a, b);
        assert(are_printable_decls(rest, cls)) by {
            assert forall|i: int| 0 <= i < rest.len() implies is_printable_decl(
                #[trigger] rest[i],
                cls,
            ) by {
                assert(rest[i] == groups[i + 1]);
            }
        }
        lemma_decls_tail_reads(s, p + a.len() + b.len(), rest, acc.push(groups[0]), cls);
        lemma_decl_reads(s, p + a.len(), groups[0], cls);
        lemma_symbol_token(s, p, Symbol::Comma);
        assert(acc.push(groups[0]) + rest =~= acc + groups);
    }
}

/// The identifiers of groups that hold one identifier each.
pub open spec fn single_names(groups: Seq<DeclarationView>) -> Seq<Seq<char>> {
    groups.map_values(|group: DeclarationView| group.idents[0])
}

/// The value that a statement ends with, as it is written: behind `=`.
pub open spec fn initializer_glyphs(value: Option<ExprView>, cls: spec_fn(char) -> Glyph) -> Seq<
    Glyph,
> {
    match value {
        Some(value) => tok(Symbol::Assign) + expr_glyphs(value, cls),
        None => Seq::empty(),
    }
}

/// A statement as it is written.
pub open spec fn statement_glyphs(statement: StatementView, cls: spec_fn(char) -> Glyph) -> Seq<
    Glyph,
> {
    match statement {
        StatementView::Return(value) => return_keyword() + expr_glyphs(value, cls),
        StatementView::Assignment { idents, expr } => word(idents[0], cls) + names_tail(
            idents.drop_first(),
            cls,
        ) + tok(Symbol::Assign) + expr_glyphs(expr, cls),
        StatementView::Declaration { decls, expr } => if decls[0].ty is Some {
            decl_glyphs(decls[0], cls) + decls_tail(decls.drop_first(), cls) + initializer_glyphs(
                expr,
                cls,
            )
        } else {
            word(single_names(decls)[0], cls) + names_tail(single_names(decls).drop_first(), cls)
                + tok(Symbol::Colon) + initializer_glyphs(expr, cls)
        },
    }
}

/// Whether the statement can be written and read back. Its first
/// identifier is not the word `return`. A declaration has types for all of
/// its groups, or it has a value and no types, and then every group holds
/// one identifier.
pub open spec fn is_printable_statement(statement: StatementView, cls: spec_fn(char) -> Glyph) -> bool {
    match statement {
        StatementView::Return(value) => is_printable_expr(value, cls),
        StatementView::Assignment { idents, expr } => {
            &&& idents.len() >= 1
            &&& are_names(idents, cls)
            &&& idents[0] != return_word()
            &&& is_printable_expr(expr, cls)
        },
        StatementView::Declaration { decls, expr } => {
            &&& decls.len() >= 1
            &&& expr matches Some(value) ==> is_printable_expr(value, cls)
            &&& if decls[0].ty is Some {
                are_printable_decls(decls, cls) && decls[0].idents[0] != return_word()
            } else {
                &&& expr is Some
                &&& decls == untyped(single_names(decls))
                &&& are_names(single_names(decls), cls)
                &&& single_names(decls)[0] != return_word()
            }
        },
    }
}

/// The keyword of a return statement reads as an identifier.
pub proof fn lemma_return_keyword()
    ensures
        is_faithful(|ch: char| letter(ch)),
        is_name(return_word(), |ch: char| letter(ch)),
{
    let cls = |ch: char| letter(ch);
    assert forall|ch: char| (#[trigger] cls(ch)).ch == ch by {}
    assert(return_word().len() == 6);
    assert(return_word()[0] == 'r');
    assert forall|i: int| 0 <= i < return_word().len() implies (#[trigger] cls(
        return_word()[i],
    )).has_class(Class::Alphanumeric) by {}
}

/// The value of a statement that is written is read as that value.
pub proof fn lemma_initializer_reads(
    s: Seq<Glyph>,
    p: int,
    value: Option<ExprView>,
    cls: spec_fn(char) -> Glyph,
)
    requires
        is_faithful(cls),
        value matches Some(e) ==> is_printable_expr(e, cls),
        stands_at(s, p, initializer_glyphs(value, cls)),
        is_break(s, p + initializer_glyphs(value, cls).len()),
    ensures
        initializer(s, p) == Ok::<(Option<ExprView>, int), ErrorView>(
            (value, p + initializer_glyphs(value, cls).len()),
        ),
        is_stop(s, p),
        value is Some ==> symbol_at(s, p, Symbol::Assign),
{
    match value {
        Some(e) => {
            let a = tok(Symbol::Assign);
            let b = expr_glyphs(e, cls);
            lemma_stands_split(s, p, a, b);
            lemma_expr_reads(s, p + a.len(), e, cls);
            lemma_symbol_token(s, p, Symbol::Assign);
        },
        None => {},
    }
}

/// A return statement that is written is read as that statement.
proof fn lemma_return_reads(
    s: Seq<Glyph>,
    p: int,
    value: StatementView,
    cls: spec_fn(char) -> Glyph,
)
    requires
        is_faithful(cls),
        is_printable_statement(value, cls),
        value is Return,
        stands_at(s, p, statement_glyphs(value, cls)),
        is_break(s, p + statement_glyphs(value, cls).len()),
    ensures
        statement(s, p) == Ok::<(StatementView, int), ErrorView>(
            (value, p + statement_glyphs(value, cls).len()),
        ),
        is_break(s, p),
        !symbol_at(s, p, Symbol::CloseBrace),
{
    let e = value->Return_0;
    let a = return_keyword();
    let b = expr_glyphs(e, cls);
    lemma_stands_split(s, p, a, b);
    lemma_expr_reads(s, p + a.len(), e, cls);
    lemma_return_keyword();
    lemma_name_token(s, p, return_word(), |ch: char| letter(ch));
}

/// An assignment that is written is read as that assignment.
proof fn lemma_assignment_reads(
    s: Seq<Glyph>,
    p: int,
    value: StatementView,
    cls: spec_fn(char) -> Glyph,
)
    requires
        is_faithful(cls),
        is_printable_statement(value, cls),
        value is Assignment,
        stands_at(s, p, statement_glyphs(value, cls)),
        is_break(s, p + statement_glyphs(value, cls).len()),
    ensures
        statement(s, p) == Ok::<(StatementView, int), ErrorView>(
            (value, p + statement_glyphs(value, cls).len()),
        ),
        is_break(s, p),
        !symbol_at(s, p, Symbol::CloseBrace),
{
    let idents = value->Assignment_idents;
    let expr = value->Assignment_expr;
    let first = idents[0];
    let rest = idents.drop_first();
    let a = word(first, cls);
    let b = names_tail(rest, cls);
    let c = tok(Symbol::Assign);
    let d = expr_glyphs(expr, cls);
    lemma_stands_split(s, p, a + b + c, d);
    lemma_stands_split(s, p, a + b, c);
    lemma_stands_split(s, p, a, b);
    let q = p + a.len() + b.len();
    lemma_expr_reads(s, q + c.len(), expr, cls);
    lemma_symbol_token(s, q, Symbol::Assign);
    assert(are_names(rest, cls)) by {
        assert forall|i: int| 0 <= i < rest.len() implies is_name(#[trigger] rest[i], cls) by {
            assert(rest[i] == idents[i + 1]);
        }
    }
    lemma_names_tail_reads(s, p + a.len(), rest, seq![first], cls);
    lemma_name_token(s, p, first, cls);
    assert(seq![first] + rest =~= idents);
    assert(idents_rest(s, p + a.len(), seq![first]) == Ok::<(Seq<Seq<char>>, int), ErrorView>(
        (idents, q),
    ));
    assert(statement_tail(s, q, idents) == Ok::<(StatementView, int), ErrorView>(
        (value, p + statement_glyphs(value, cls).len()),
    ));
}

/// A declaration with types that is written is read as that declaration.
proof fn lemma_typed_declaration_reads(
    s: Seq<Glyph>,
    p: int,
    value: StatementView,
    cls: spec_fn(char) -> Glyph,
)
    requires
        is_faithful(cls),
        is_printable_statement(value, cls),
        value matches StatementView::Declaration { decls, expr } && decls[0].ty is Some,
        stands_at(s, p, statement_glyphs(value, cls)),
        is_break(s, p + statement_glyphs(value, cls).len()),
    ensures
        statement(s, p) == Ok::<(StatementView, int), ErrorView>(
            (value, p + statement_glyphs(value, cls).len()),
        ),
        is_break(s, p),
        !symbol_at(s, p, Symbol::CloseBrace),
{
    let decls = value->Declaration_decls;
    let expr = value->Declaration_expr;
    let group = decls[0];
    let more = decls.drop_first();
    let first = group.idents[0];
    let rest = group.idents.drop_first();
    let ty = group.ty->Some_0;
    let a = word(first, cls);
    let b = names_tail(rest, cls);
    let c = tok(Symbol::Colon);
    let d = word(ty, cls);
    let e = decls_tail(more, cls);
    let f = initializer_glyphs(expr, cls);
    assert(decl_glyphs(group, cls) == a + b + c + d);
    lemma_stands_split(s, p, a + b + c + d + e, f);
    lemma_stands_split(s, p, a + b + c + d, e);
    lemma_stands_split(s, p, a + b + c, d);
    lemma_stands_split(s, p, a + b, c);
    lemma_stands_split(s, p, a, b);
    let q = p + a.len() + b.len();
    let r = q + c.len() + d.len();
    let end = r + e.len() + f.len();
    lemma_initializer_reads(s, r + e.len(), expr, cls);
    assert(are_printable_decls(more, cls)) by {
        assert forall|i: int| 0 <= i < more.len() implies is_printable_decl(
            #[trigger] more[i],
            cls,
        ) by {
            assert(more[i] == decls[i + 1]);
        }
    }
    assert(is_printable_decl(group, cls));
    lemma_decls_tail_reads(s, r, more, seq![group], cls);
    lemma_name_token(s, q + c.len(), ty, cls);
    lemma_symbol_token(s, q, Symbol::Colon);
    assert(are_names(rest, cls)) by {
        assert forall|i: int| 0 <= i < rest.len() implies is_name(#[trigger] rest[i], cls) by {
            assert(rest[i] == group.idents[i + 1]);
        }
    }
    lemma_names_tail_reads(s, p + a.len(), rest, seq![first], cls);
    lemma_name_token(s, p, first, cls);
    assert(seq![first] + rest =~= group.idents);
    assert(DeclarationView { idents: group.idents, ty: Some(ty) } == group);
    assert(seq![group] + more =~= decls);
    assert(idents_rest(s, p + a.len(), seq![first]) == Ok::<(Seq<Seq<char>>, int), ErrorView>(
        (group.idents, q),
    ));
    assert(declared_groups(s, q + c.len(), group.idents) == Ok::<
        (Seq<DeclarationView>, int),
        ErrorView,
    >((decls, r + e.len())));
    assert(statement_tail(s, q, group.idents) == Ok::<(StatementView, int), ErrorView>(
        (value, end),
    ));
}

/// A declaration without types that is written is read as that declaration.
proof fn lemma_untyped_declaration_reads(
    s: Seq<Glyph>,
    p: int,
    value: StatementView,
    cls: spec_fn(char) -> Glyph,
)
    requires
        is_faithful(cls),
        is_printable_statement(value, cls),
        value matches StatementView::Declaration { decls, expr } && decls[0].ty is None,
        stands_at(s, p, statement_glyphs(value, cls)),
        is_break(s, p + statement_glyphs(value, cls).len()),
    ensures
        statement(s, p) == Ok::<(StatementView, int), ErrorView>(
            (value, p + statement_glyphs(value, cls).len()),
        ),
        is_break(s, p),
        !symbol_at(s, p, Symbol::CloseBrace),
{
    let decls = value->Declaration_decls;
    let expr = value->Declaration_expr;
    let names = single_names(decls);
    let first = names[0];
    let rest = names.drop_first();
    let a = word(first, cls);
    let b = names_tail(rest, cls);
    let c = tok(Symbol::Colon);
    let d = initializer_glyphs(expr, cls);
    lemma_stands_split(s, p, a + b + c, d);
    lemma_stands_split(s, p, a + b, c);
    lemma_stands_split(s, p, a, b);
    let q = p + a.len() + b.len();
    let end = q + c.len() + d.len();
    lemma_initializer_reads(s, q + c.len(), expr, cls);
    lemma_symbol_token(s, q, Symbol::Colon);
    assert(are_names(rest, cls)) by {
        assert forall|i: int| 0 <= i < rest.len() implies is_name(#[trigger] rest[i], cls) by {
            assert(rest[i] == names[i + 1]);
        }
    }
    lemma_names_tail_reads(s, p + a.len(), rest, seq![first], cls);
    lemma_name_token(s, p, first, cls);
    assert(seq![first] + rest =~= names);
    assert(idents_rest(s, p + a.len(), seq![first]) == Ok::<(Seq<Seq<char>>, int), ErrorView>(
        (names, q),
    ));
    assert(declared_groups(s, q + c.len(), names) == Ok::<(Seq<DeclarationView>, int), ErrorView>(
        (decls, q + c.len()),
    ));
    assert(statement_tail(s, q, names) == Ok::<(StatementView, int), ErrorView>((value, end)));
}

/// A statement that is written is read as that statement.
pub proof fn lemma_statement_reads(
    s: Seq<Glyph>,
    p: int,
    value: StatementView,
    cls: spec_fn(char) -> Glyph,
)
    requires
        is_faithful(cls),
        is_printable_statement(value, cls),
        stands_at(s, p, statement_glyphs(value, cls)),
        is_break(s, p + statement_glyphs(value, cls).len()),
    ensures
        statement(s, p) == Ok::<(StatementView, int), ErrorView>(
            (value, p + statement_glyphs(value, cls).len()),
        ),
        is_break(s, p),
        !symbol_at(s, p, Symbol::CloseBrace),
{
    match value {
        StatementView::Return(_) => {
            lemma_return_reads(s, p, value, cls);
        },
        StatementView::Assignment { idents, expr } => {
            lemma_assignment_reads(s, p, value, cls);
        },
        StatementView::Declaration { decls, expr } => {
            if decls[0].ty is Some {
                lemma_typed_declaration_reads(s, p, value, cls);
            } else {
                lemma_untyped_declaration_reads(s, p, value, cls);
            }
        },
    }
}

/// Whether every one of the statements can be written and read back.
pub open spec fn are_printable_statements(
    statements: Seq<StatementView>,
    cls: spec_fn(char) -> Glyph,
) -> bool {
    forall|i: int|
        0 <= i < statements.len() ==> is_printable_statement(#[trigger] statements[i], cls)
}

/// The statements of a body as they are written, with the brace that closes it.
pub open spec fn statements_glyphs(statements: Seq<StatementView>, cls: spec_fn(char) -> Glyph) -> Seq<
    Glyph,
>
    decreases statements.len(),
{
    if statements.len() == 0 {
        tok(Symbol::CloseBrace)
    } else {
        statement_glyphs(statements[0], cls) + statements_glyphs(statements.drop_first(), cls)
    }
}

/// Statements that are written are read as those statements.
pub proof fn lemma_statements_read(
    s: Seq<Glyph>,
    p: int,
    statements: Seq<StatementView>,
    acc: Seq<StatementView>,
    cls: spec_fn(char) -> Glyph,
)
    requires
        is_faithful(cls),
        are_printable_statements(statements, cls),
        stands_at(s, p, statements_glyphs(statements, cls)),
        is_boundary(s, p + statements_glyphs(statements, cls).len()),
    ensures
        statements_rest(s, p, acc) == Ok::<(Seq<StatementView>, int), ErrorView>(
            (acc + statements, p + statements_glyphs(statements, cls).len()),
        ),
        is_break(s, p),
    decreases statements.len(),
{
    if statements.len() == 0 {
        lemma_symbol_token(s, p, Symbol::CloseBrace);
        assert(acc + statements =~= acc);
    } else {
        let rest = statements.drop_first();
        let a = statement_glyphs(statements[0], cls);
        let b = statements_glyphs(rest, cls);
        lemma_stands_split(s, p, a, b);
        assert(are_printable_statements(rest, cls)) by {
            assert forall|i: int| 0 <= i < rest.len() implies is_printable_statement(
                #[trigger] rest[i],
                cls,
            ) by {
                assert(rest[i] == statements[i + 1]);
            }
        }
        lemma_statements_read(s, p + a.len(), rest, acc.push(statements[0]), cls);
        lemma_statement_reads(s, p, statements[0], cls);
        assert(acc.push(statements[0]) + rest =~= acc + statements);
    }
}

/// The parameters as they are written, with the parenthesis that closes them.
pub open spec fn params_glyphs(groups: Seq<DeclarationView>, cls: spec_fn(char) -> Glyph) -> Seq<
    Glyph,
> {
    if groups.len() == 0 {
        tok(Symbol::CloseParen)
    } else {
        decl_glyphs(groups[0], cls) + decls_tail(groups.drop_first(), cls) + tok(
            Symbol::CloseParen,
        )
    }
}

/// Parameters that are written are read as those parameters.
pub proof fn lemma_params_read(
    s: Seq<Glyph>,
    p: int,
    groups: Seq<DeclarationView>,
    cls: spec_fn(char) -> Glyph,
)
    requires
        is_faithful(cls),
        are_printable_decls(groups, cls),
        stands_at(s, p, params_glyphs(groups, cls)),
        is_boundary(s, p + params_glyphs(groups, cls).len()),
    ensures
        params(s, p) == Ok::<(Seq<DeclarationView>, int), ErrorView>(
            (groups, p + params_glyphs(groups, cls).len()),
        ),
        is_boundary(s, p),
{
    if groups.len() == 0 {
        lemma_symbol_token(s, p, Symbol::CloseParen);
        assert(groups =~= Seq::<DeclarationView>::empty());
    } else {
        let rest = groups.drop_first();
        let a = decl_glyphs(groups[0], cls);
        let b = decls_tail(rest, cls);
        let c = tok(Symbol::CloseParen);
        lemma_stands_split(s, p, a + b, c);
        lemma_stands_split(s, p, a, b);
        let q = p + a.len() + b.len();
        lemma_symbol_token(s, q, Symbol::CloseParen);
        assert(are_printable_decls(rest, cls)) by {
            assert forall|i: int| 0 <= i < rest.len() implies is_printable_decl(
                #[trigger] rest[i],
                cls,
            ) by {
                assert(rest[i] == groups[i + 1]);
            }
        }
        lemma_decls_tail_reads(s, p + a.len(), rest, seq![groups[0]], cls);
        lemma_decl_reads(s, p, groups[0], cls);
        assert(seq![groups[0]] + rest =~= groups);
    }
}

/// The declared return types as they are written: behind an arrow, or not at all.
pub open spec fn rets_glyphs(rets: Seq<Seq<char>>, cls: spec_fn(char) -> Glyph) -> Seq<Glyph> {
    if rets.len() == 0 {
        Seq::empty()
    } else {
        tok(Symbol::Arrow) + word(rets[0], cls) + names_tail(rets.drop_first(), cls)
    }
}

/// Return types that are written are read as those types.
pub proof fn lemma_rets_read(s: Seq<Glyph>, p: int, rets: Seq<Seq<char>>, cls: spec_fn(char) -> Glyph)
    requires
        is_faithful(cls),
        are_names(rets, cls),
        stands_at(s, p, rets_glyphs(rets, cls)),
        is_stop(s, p + rets_glyphs(rets, cls).len()),
        !symbol_at(s, p + rets_glyphs(rets, cls).len(), Symbol::Arrow),
    ensures
        return_types(s, p) == Ok::<(Seq<Seq<char>>, int), ErrorView>(
            (rets, p + rets_glyphs(rets, cls).len()),
        ),
        is_boundary(s, p),
{
    if rets.len() == 0 {
        assert(rets =~= Seq::<Seq<char>>::empty());
    } else {
        let rest = rets.drop_first();
        let a = tok(Symbol::Arrow);
        let b = word(rets[0], cls);
        let c = names_tail(rest, cls);
        lemma_stands_split(s, p, a + b, c);
        lemma_stands_split(s, p, a, b);
        assert(are_names(rest, cls)) by {
            assert forall|i: int| 0 <= i < rest.len() implies is_name(#[trigger] rest[i], cls) by {
                assert(rest[i] == rets[i + 1]);
            }
        }
        lemma_names_tail_reads(s, p + a.len() + b.len(), rest, seq![rets[0]], cls);
        lemma_name_token(s, p + a.len(), rets[0], cls);
        lemma_symbol_token(s, p, Symbol::Arrow);
        assert(seq![rets[0]] + rest =~= rets);
    }
}

/// A function as it is written.
pub open spec fn function_glyphs(function: FunctionView, cls: spec_fn(char) -> Glyph) -> Seq<Glyph> {
    tok(Symbol::Fn) + word(function.name, cls) + tok(Symbol::OpenParen) + params_glyphs(
        function.params,
        cls,
    ) + rets_glyphs(function.rets, cls) + tok(Symbol::OpenBrace) + statements_glyphs(
        function.statements,
        cls,
    )
}

/// Whether the function can be written and read back: its names and types
/// read as identifiers, its numbers as integer literals, and its statements
/// have the forms that the grammar reads.
pub open spec fn is_printable(function: FunctionView, cls: spec_fn(char) -> Glyph) -> bool {
    &&& is_name(function.name, cls)
    &&& are_printable_decls(function.params, cls)
    &&& are_names(function.rets, cls)
    &&& are_printable_statements(function.statements, cls)
}

/// A function that is written is read as that function.
proof fn lemma_function_reads(s: Seq<Glyph>, function: FunctionView, cls: spec_fn(char) -> Glyph)
    requires
        is_faithful(cls),
        is_printable(function, cls),
        stands_at(s, 0, function_glyphs(function, cls)),
        s.len() == function_glyphs(function, cls).len(),
    ensures
        self::function(s, 0) == Ok::<(FunctionView, int), ErrorView>((function, s.len() as int)),
        is_boundary(s, 0),
{
    let a = tok(Symbol::Fn);
    let b = word(function.name, cls);
    let c = tok(Symbol::OpenParen);
    let d = params_glyphs(function.params, cls);
    let e = rets_glyphs(function.rets, cls);
    let f = tok(Symbol::OpenBrace);
    let g = statements_glyphs(function.statements, cls);
    lemma_stands_split(s, 0, a + b + c + d + e + f, g);
    lemma_stands_split(s, 0, a + b + c + d + e, f);
    lemma_stands_split(s, 0, a + b + c + d, e);
    lemma_stands_split(s, 0, a + b + c, d);
    lemma_stands_split(s, 0, a + b, c);
    lemma_stands_split(s, 0, a, b);
    let at_name = a.len() as int;
    let at_paren = at_name + b.len();
    let at_params = at_paren + c.len();
    let at_rets = at_params + d.len();
    let at_brace = at_rets + e.len();
    let at_body = at_brace + f.len();
    lemma_statements_read(s, at_body, function.statements, Seq::empty(), cls);
    assert(Seq::<StatementView>::empty() + function.statements =~= function.statements);
    assert(statements_rest(s, at_body, Seq::empty()) == Ok::<
        (Seq<StatementView>, int),
        ErrorView,
    >((function.statements, s.len() as int)));
    lemma_symbol_token(s, at_brace, Symbol::OpenBrace);
    assert(symbol_at(s, at_brace, Symbol::OpenBrace) && symbol_end(s, at_brace, Symbol::OpenBrace)
        == at_body);
    lemma_rets_read(s, at_rets, function.rets, cls);
    lemma_params_read(s, at_params, function.params, cls);
    lemma_symbol_token(s, at_paren, Symbol::OpenParen);
    assert(symbol_at(s, at_paren, Symbol::OpenParen) && symbol_end(s, at_paren, Symbol::OpenParen)
        == at_params);
    lemma_name_token(s, at_name, function.name, cls);
    assert(ident_at(s, at_name) && ident_end(s, at_name) == at_paren && ident_text(s, at_name)
        == function.name);
    lemma_symbol_token(s, 0, Symbol::Fn);
    assert(symbol_at(s, 0, Symbol::Fn) && symbol_end(s, 0, Symbol::Fn) == at_name);
}

/// The grammar reads back what is written: a function that can be written
/// is the function that the parser finds in its text.
pub proof fn lemma_round_trip(function: FunctionView, cls: spec_fn(char) -> Glyph)
    requires
        is_faithful(cls),
        is_printable(function, cls),
    ensures
        parsed(function_glyphs(function, cls)) == Ok::<FunctionView, ErrorView>(function),
{
    let s = function_glyphs(function, cls);
    assert(s.subrange(0, s.len() as int) =~= s);
    lemma_function_reads(s, function, cls);
    assert(skip_ws(s, 0) == 0);
}

} // verus!
