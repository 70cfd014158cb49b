//! The syntax tree. Every node borrows its text from the source.

use vstd::prelude::*;

verus! {

/// A type as it is written in the source: a single name.
#[derive(Debug, Clone, Copy, PartialEq, Eq)]
pub struct Type<'a> {
    pub ident: &'a str,
}

/// A group of identifiers that share one optional type annotation.
#[derive(Debug, PartialEq, Eq)]
pub struct Declaration<'a> {
    pub idents: Vec<&'a str>,
    pub ty: Option<Type<'a>>,
}

/// An expression. A tuple is the outermost expression of a statement that
/// supplies several values; a tuple inside a tuple has no meaning.
#[derive(Debug, PartialEq, Eq)]
pub enum Expr<'a> {
    IntLiteral(&'a str),
    Tuple(Vec<Expr<'a>>),
    Ident(&'a str),
}

/// A statement of a function body.
#[allow(inconsistent_fields)]
#[derive(Debug, PartialEq, Eq)]
pub enum Statement<'a> {
    Assignment { idents: Vec<&'a str>, expr: Expr<'a> },
    Declaration { decls: Vec<Declaration<'a>>, expr: Option<Expr<'a>> },
    Return(Expr<'a>),
}

/// A function: its name, parameters, declared return types and body.
#[derive(Debug, PartialEq, Eq)]
pub struct Function<'a> {
    pub name: &'a str,
    pub params: Vec<Declaration<'a>>,
    pub rets: Vec<Type<'a>>,
    pub statements: Vec<Statement<'a>>,
}

/// The mathematical value of a [`Declaration`].
pub struct DeclarationView {
    pub idents: Seq<Seq<char>>,
    pub ty: Option<Seq<char>>,
}

/// The mathematical value of an [`Expr`].
pub enum ExprView {
    IntLiteral(Seq<char>),
    Tuple(Seq<ExprView>),
    Ident(Seq<char>),
}

/// The mathematical value of a [`Statement`].
#[allow(inconsistent_fields)]
pub enum StatementView {
    Assignment { idents: Seq<Seq<char>>, expr: ExprView },
    Declaration { decls: Seq<DeclarationView>, expr: Option<ExprView> },
    Return(ExprView),
}

/// The mathematical value of a [`Function`].
pub struct FunctionView {
    pub name: Seq<char>,
    pub params: Seq<DeclarationView>,
    pub rets: Seq<Seq<char>>,
    pub statements: Seq<StatementView>,
}

impl ExprView {
    /// Whether the expression stands for one value.
    pub open spec fn is_atom(self) -> bool {
        !(self is Tuple)
    }

    /// Whether no tuple stands inside a tuple.
    pub open spec fn is_flat(self) -> bool {
        match self {
            ExprView::Tuple(parts) => forall|i: int|
                0 <= i < parts.len() ==> (#[trigger] parts[i]).is_atom(),
            _ => true,
        }
    }
}

/// Whether one of the groups holds the identifier.
pub open spec fn groups_declare(decls: Seq<DeclarationView>, name: Seq<char>) -> bool {
    exists|i: int, j: int|
        0 <= i < decls.len() && 0 <= j < decls[i].idents.len() && #[trigger] decls[i].idents[j]
            == name
}

impl StatementView {
    /// Whether the statement declares the identifier.
    pub open spec fn declares(self, name: Seq<char>) -> bool {
        self matches StatementView::Declaration { decls, expr } && groups_declare(decls, name)
    }

    /// Whether every identifier that the statement declares has a type or a
    /// value to take its type from.
    pub open spec fn is_closed(self) -> bool {
        match self {
            StatementView::Declaration { decls, expr } => expr is Some || forall|i: int|
                0 <= i < decls.len() ==> (#[trigger] decls[i]).ty is Some,
            _ => true,
        }
    }

    /// Whether the expression of the statement is flat.
    pub open spec fn is_flat(self) -> bool {
        match self {
            StatementView::Assignment { idents, expr } => expr.is_flat(),
            StatementView::Declaration { decls, expr } => expr matches Some(value) ==> value.is_flat(),
            StatementView::Return(expr) => expr.is_flat(),
        }
    }
}

impl FunctionView {
    /// Whether the identifier is a parameter or is declared by a statement.
    pub open spec fn declares(self, name: Seq<char>) -> bool {
        groups_declare(self.params, name) || exists|k: int|
            0 <= k < self.statements.len() && (#[trigger] self.statements[k]).declares(name)
    }

    /// Whether every parameter has a type.
    pub open spec fn has_typed_params(self) -> bool {
        forall|i: int| 0 <= i < self.params.len() ==> (#[trigger] self.params[i]).ty is Some
    }

    /// Whether every parameter has a type and every statement is closed.
    pub open spec fn is_closed(self) -> bool {
        &&& self.has_typed_params()
        &&& forall|i: int|
            0 <= i < self.statements.len() ==> (#[trigger] self.statements[i]).is_closed()
    }

    /// Whether the expression of every statement is flat.
    pub open spec fn is_flat(self) -> bool {
        forall|i: int| 0 <= i < self.statements.len() ==> (#[trigger] self.statements[i]).is_flat()
    }
}

/// The texts of a list of borrowed names.
pub open spec fn names_view(names: Seq<&str>) -> Seq<Seq<char>> {
    names.map_values(|name: &str| name@)
}

/// The names of a list of written types.
pub open spec fn types_view(types: Seq<Type>) -> Seq<Seq<char>> {
    types.map_values(|ty: Type| ty@)
}

/// The mathematical values of a list of groups.
pub open spec fn decls_view(decls: Seq<Declaration>) -> Seq<DeclarationView> {
    decls.map_values(|decl: Declaration| decl@)
}

/// The mathematical values of a list of expressions.
pub open spec fn exprs_view(exprs: Seq<Expr>) -> Seq<ExprView> {
    exprs.map_values(|expr: Expr| expr@)
}

/// The mathematical values of a list of statements.
pub open spec fn statements_view(statements: Seq<Statement>) -> Seq<StatementView> {
    statements.map_values(|statement: Statement| statement@)
}

impl<'a> View for Type<'a> {
    type V = Seq<char>;

    open spec fn view(&self) -> Seq<char> {
        self.ident@
    }
}

impl<'a> View for Declaration<'a> {
    type V = DeclarationView;

    open spec fn view(&self) -> DeclarationView {
        DeclarationView {
            idents: names_view(self.idents@),
            ty: match self.ty {
                Some(ty) => Some(ty@),
                None => None,
            },
        }
    }
}

impl<'a> View for Expr<'a> {
    type V = ExprView;

    open spec fn view(&self) -> ExprView
        decreases self,
    {
        match self {
            Expr::IntLiteral(text) => ExprView::IntLiteral(text@),
            Expr::Ident(name) => ExprView::Ident(name@),
            Expr::Tuple(parts) => ExprView::Tuple(
                Seq::new(
                    parts.len() as nat,
                    |i: int|
                        if 0 <= i < parts.len() {
                            parts[i].view()
                        } else {
                            ExprView::Tuple(Seq::empty())
                        },
                ),
            ),
        }
    }
}

impl<'a> View for Statement<'a> {
    type V = StatementView;

    open spec fn view(&self) -> StatementView {
        match self {
            Statement::Assignment { idents, expr } => StatementView::Assignment {
                idents: names_view(idents@),
                expr: expr@,
            },
            Statement::Declaration { decls, expr } => StatementView::Declaration {
                decls: decls_view(decls@),
                expr: match expr {
                    Some(expr) => Some(expr@),
                    None => None,
                },
            },
            Statement::Return(expr) => StatementView::Return(expr@),
        }
    }
}

impl<'a> View for Function<'a> {
    type V = FunctionView;

    open spec fn view(&self) -> FunctionView {
        FunctionView {
            name: self.name@,
            params: decls_view(self.params@),
            rets: types_view(self.rets@),
            statements: statements_view(self.statements@),
        }
    }
}

/// The value of a tuple is the tuple of its parts' values.
pub proof fn lemma_tuple_view(parts: Vec<Expr>)
    ensures
        Expr::Tuple(parts)@ == ExprView::Tuple(exprs_view(parts@)),
{
    assert(Expr::Tuple(parts)@->Tuple_0 =~= exprs_view(parts@));
}

} // verus!
