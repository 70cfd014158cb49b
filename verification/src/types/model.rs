//! The type check as a function of the syntax tree: what a statement makes
//! of a scope, and what the statements of a function make of the empty one.

use crate::error::{ArityContext, ErrorView};
use crate::parser::ast::{DeclarationView, ExprView, FunctionView, StatementView};
use crate::scope::ScopeView;
use crate::types::{converted, Type};
use vstd::prelude::*;

verus! {

/// The slot of an expression that stands for one value, and the scope after
/// it: a literal gets a new slot that holds `Int`, an identifier has the slot
/// that it is bound to, and a tuple has no slot of its own.
pub open spec fn slot_of(expr: ExprView, scope: ScopeView) -> Result<(int, ScopeView), ErrorView> {
    match expr {
        ExprView::IntLiteral(_) => Ok((scope.slots.len() as int, scope.with_slot(Type::Int))),
        ExprView::Ident(name) => match scope.lookup(name) {
            Some(slot) => Ok((slot, scope)),
            None => Err(ErrorView::UndeclaredIdentifier { name }),
        },
        ExprView::Tuple(_) => Err(ErrorView::UnsupportedConstruct),
    }
}

/// The slots of the parts of a tuple, from left to right, up to the first
/// part that has none.
pub open spec fn slots_of_parts(parts: Seq<ExprView>, scope: ScopeView) -> Result<
    (Seq<int>, ScopeView),
    ErrorView,
>
    decreases parts.len(),
{
    if parts.len() == 0 {
        Ok((Seq::empty(), scope))
    } else {
        match slots_of_parts(parts.drop_last(), scope) {
            Err(e) => Err(e),
            Ok((slots, mid)) => match slot_of(parts.last(), mid) {
                Err(e) => Err(e),
                Ok((slot, after)) => Ok((slots.push(slot), after)),
            },
        }
    }
}

/// The slots of the values that an expression supplies: one for each part of
/// a tuple, one for anything else.
pub open spec fn slots_of(expr: ExprView, scope: ScopeView) -> Result<
    (Seq<int>, ScopeView),
    ErrorView,
> {
    match expr {
        ExprView::Tuple(parts) => slots_of_parts(parts, scope),
        _ => match slot_of(expr, scope) {
            Err(e) => Err(e),
            Ok((slot, after)) => Ok((seq![slot], after)),
        },
    }
}

/// The mathematical value of a [`Target`].
pub struct TargetView {
    pub name: Seq<char>,
    pub ty: Option<Seq<char>>,
}

/// The identifiers of one group, each with the group's annotation.
pub open spec fn group_targets(decl: DeclarationView) -> Seq<TargetView> {
    decl.idents.map_values(|name: Seq<char>| TargetView { name, ty: decl.ty })
}

/// The identifiers of all groups, in the order in which they are written.
pub open spec fn declared(decls: Seq<DeclarationView>) -> Seq<TargetView>
    decreases decls.len(),
{
    if decls.len() == 0 {
        Seq::empty()
    } else {
        declared(decls.drop_last()) + group_targets(decls.last())
    }
}

/// The type that a new slot starts with: the annotation's, or `Unknown`.
pub open spec fn seed(ty: Option<Seq<char>>) -> Result<Type, ErrorView> {
    match ty {
        Some(name) => converted(name),
        None => Ok(Type::Unknown),
    }
}

/// The scope after one identifier is declared: it gets a new slot, is bound
/// to it, and the slot is unified with that of the initial value, if any.
pub open spec fn declare(target: TargetView, init: Option<int>, scope: ScopeView) -> Result<
    ScopeView,
    ErrorView,
> {
    match seed(target.ty) {
        Err(e) => Err(e),
        Ok(ty) => {
            let slot = scope.slots.len() as int;
            let bound = scope.with_slot(ty).bind(target.name, slot);
            match init {
                Some(value) => bound.unify(slot, value),
                None => Ok(bound),
            }
        },
    }
}

/// The scope after the identifiers are declared in order, the n-th with the
/// n-th initial value.
pub open spec fn declare_all(
    targets: Seq<TargetView>,
    inits: Option<Seq<int>>,
    scope: ScopeView,
) -> Result<ScopeView, ErrorView>
    decreases targets.len(),
{
    if targets.len() == 0 {
        Ok(scope)
    } else {
        match declare_all(targets.drop_last(), inits, scope) {
            Err(e) => Err(e),
            Ok(mid) => declare(
                targets.last(),
                match inits {
                    Some(values) => Some(values[targets.len() - 1]),
                    None => None,
                },
                mid,
            ),
        }
    }
}

/// The slots that the names are bound to, up to the first name that is not bound.
pub open spec fn lookup_all(names: Seq<Seq<char>>, scope: ScopeView) -> Result<Seq<int>, ErrorView>
    decreases names.len(),
{
    if names.len() == 0 {
        Ok(Seq::empty())
    } else {
        match lookup_all(names.drop_last(), scope) {
            Err(e) => Err(e),
            Ok(slots) => match scope.lookup(names.last()) {
                Some(slot) => Ok(slots.push(slot)),
                None => Err(ErrorView::UndeclaredIdentifier { name: names.last() }),
            },
        }
    }
}

/// The scope after each slot on the left is unified with the slot at the
/// same place on the right, in order.
pub open spec fn unify_all(left: Seq<int>, right: Seq<int>, scope: ScopeView) -> Result<
    ScopeView,
    ErrorView,
>
    decreases left.len(),
{
    if left.len() == 0 {
        Ok(scope)
    } else {
        match unify_all(left.drop_last(), right, scope) {
            Err(e) => Err(e),
            Ok(mid) => mid.unify(left.last(), right[left.len() - 1]),
        }
    }
}

/// The scope after each slot is unified with the declared return type at the
/// same place, in order.
pub open spec fn unify_returns(values: Seq<int>, rets: Seq<Seq<char>>, scope: ScopeView) -> Result<
    ScopeView,
    ErrorView,
>
    decreases values.len(),
{
    if values.len() == 0 {
        Ok(scope)
    } else {
        match unify_returns(values.drop_last(), rets, scope) {
            Err(e) => Err(e),
            Ok(mid) => match converted(rets[values.len() - 1]) {
                Err(e) => Err(e),
                Ok(ty) => mid.unify_with(values.last(), ty),
            },
        }
    }
}

/// The error of two counts that differ.
pub open spec fn arity_mismatch(expected: nat, found: nat, context: ArityContext) -> ErrorView {
    ErrorView::ArityMismatch { expected_count: expected as int, found_count: found as int, context }
}

/// The scope after a declaration statement.
pub open spec fn after_declaration(
    decls: Seq<DeclarationView>,
    expr: Option<ExprView>,
    scope: ScopeView,
) -> Result<ScopeView, ErrorView> {
    match expr {
        None => declare_all(declared(decls), None, scope),
        Some(expr) => match slots_of(expr, scope) {
            Err(e) => Err(e),
            Ok((inits, mid)) => if inits.len() != declared(decls).len() {
                Err(arity_mismatch(declared(decls).len(), inits.len(), ArityContext::Declaration))
            } else {
                declare_all(declared(decls), Some(inits), mid)
            },
        },
    }
}

/// The scope after an assignment.
pub open spec fn after_assignment(idents: Seq<Seq<char>>, expr: ExprView, scope: ScopeView) -> Result<
    ScopeView,
    ErrorView,
> {
    match lookup_all(idents, scope) {
        Err(e) => Err(e),
        Ok(targets) => match slots_of(expr, scope) {
            Err(e) => Err(e),
            Ok((values, mid)) => if values.len() != idents.len() {
                Err(arity_mismatch(idents.len(), values.len(), ArityContext::Assignment))
            } else {
                unify_all(targets, values, mid)
            },
        },
    }
}

/// The scope after a return statement of a function that declares `rets`.
pub open spec fn after_return(expr: ExprView, rets: Seq<Seq<char>>, scope: ScopeView) -> Result<
    ScopeView,
    ErrorView,
> {
    match slots_of(expr, scope) {
        Err(e) => Err(e),
        Ok((values, mid)) => if values.len() != rets.len() {
            Err(arity_mismatch(rets.len(), values.len(), ArityContext::Return))
        } else {
            unify_returns(values, rets, mid)
        },
    }
}

/// The scope after one statement of a function that declares `rets`.
pub open spec fn after_statement(statement: StatementView, rets: Seq<Seq<char>>, scope: ScopeView) -> Result<
    ScopeView,
    ErrorView,
> {
    match statement {
        StatementView::Declaration { decls, expr } => after_declaration(decls, expr, scope),
        StatementView::Assignment { idents, expr } => after_assignment(idents, expr, scope),
        StatementView::Return(expr) => after_return(expr, rets, scope),
    }
}

/// The scope after the statements are checked in order, up to the first that fails.
pub open spec fn after_statements(
    statements: Seq<StatementView>,
    rets: Seq<Seq<char>>,
    scope: ScopeView,
) -> Result<ScopeView, ErrorView>
    decreases statements.len(),
{
    if statements.len() == 0 {
        Ok(scope)
    } else {
        match after_statements(statements.drop_last(), rets, scope) {
            Err(e) => Err(e),
            Ok(mid) => after_statement(statements.last(), rets, mid),
        }
    }
}

/// The scope in which a function leaves its names: the parameters are
/// declared in an empty scope, then the statements are checked in order.
pub open spec fn checked(function: FunctionView) -> Result<ScopeView, ErrorView> {
    match declare_all(declared(function.params), None, ScopeView::empty()) {
        Err(e) => Err(e),
        Ok(scope) => after_statements(function.statements, function.rets, scope),
    }
}

/// A part without a slot ends the walk over the parts with its error.
pub proof fn lemma_slots_of_parts_error(parts: Seq<ExprView>, k: int, scope: ScopeView)
    requires
        0 <= k <= parts.len(),
    ensures
        slots_of_parts(parts.take(k), scope) is Err ==> slots_of_parts(parts, scope)
            == slots_of_parts(parts.take(k), scope),
    decreases parts.len() - k,
{
    if k == parts.len() {
        assert(parts.take(k) =~= parts);
    } else {
        assert(parts.take(k + 1).drop_last() =~= parts.take(k));
        lemma_slots_of_parts_error(parts, k + 1, scope);
    }
}

/// The identifiers of all prefixes of the groups make up those of the groups.
pub proof fn lemma_declared_step(decls: Seq<DeclarationView>, i: int)
    requires
        0 <= i < decls.len(),
    ensures
        declared(decls.take(i + 1)) == declared(decls.take(i)) + group_targets(decls[i]),
{
    assert(decls.take(i + 1).drop_last() =~= decls.take(i));
}

/// An identifier that cannot be declared ends the declarations with its error.
pub proof fn lemma_declare_all_error(
    targets: Seq<TargetView>,
    k: int,
    inits: Option<Seq<int>>,
    scope: ScopeView,
)
    requires
        0 <= k <= targets.len(),
    ensures
        declare_all(targets.take(k), inits, scope) is Err ==> declare_all(targets, inits, scope)
            == declare_all(targets.take(k), inits, scope),
    decreases targets.len() - k,
{
    if k == targets.len() {
        assert(targets.take(k) =~= targets);
    } else {
        assert(targets.take(k + 1).drop_last() =~= targets.take(k));
        lemma_declare_all_error(targets, k + 1, inits, scope);
    }
}

/// A name that is not bound ends the lookups with its error.
pub proof fn lemma_lookup_all_error(names: Seq<Seq<char>>, k: int, scope: ScopeView)
    requires
        0 <= k <= names.len(),
    ensures
        lookup_all(names.take(k), scope) is Err ==> lookup_all(names, scope) == lookup_all(
            names.take(k),
            scope,
        ),
    decreases names.len() - k,
{
    if k == names.len() {
        assert(names.take(k) =~= names);
    } else {
        assert(names.take(k + 1).drop_last() =~= names.take(k));
        lemma_lookup_all_error(names, k + 1, scope);
    }
}

/// A mismatch ends the unifications with its error.
pub proof fn lemma_unify_all_error(left: Seq<int>, k: int, right: Seq<int>, scope: ScopeView)
    requires
        0 <= k <= left.len(),
    ensures
        unify_all(left.take(k), right, scope) is Err ==> unify_all(left, right, scope) == unify_all(
            left.take(k),
            right,
            scope,
        ),
    decreases left.len() - k,
{
    if k == left.len() {
        assert(left.take(k) =~= left);
    } else {
        assert(left.take(k + 1).drop_last() =~= left.take(k));
        lemma_unify_all_error(left, k + 1, right, scope);
    }
}

/// A mismatch or an unknown type name ends the unifications with its error.
pub proof fn lemma_unify_returns_error(
    values: Seq<int>,
    k: int,
    rets: Seq<Seq<char>>,
    scope: ScopeView,
)
    requires
        0 <= k <= values.len(),
    ensures
        unify_returns(values.take(k), rets, scope) is Err ==> unify_returns(values, rets, scope)
            == unify_returns(values.take(k), rets, scope),
    decreases values.len() - k,
{
    if k == values.len() {
        assert(values.take(k) =~= values);
    } else {
        assert(values.take(k + 1).drop_last() =~= values.take(k));
        lemma_unify_returns_error(values, k + 1, rets, scope);
    }
}

/// A statement that fails ends the check with its error.
pub proof fn lemma_check_statements_error(
    statements: Seq<StatementView>,
    k: int,
    rets: Seq<Seq<char>>,
    scope: ScopeView,
)
    requires
        0 <= k <= statements.len(),
    ensures
        after_statements(statements.take(k), rets, scope) is Err ==> after_statements(
            statements,
            rets,
            scope,
        ) == after_statements(statements.take(k), rets, scope),
    decreases statements.len() - k,
{
    if k == statements.len() {
        assert(statements.take(k) =~= statements);
    } else {
        assert(statements.take(k + 1).drop_last() =~= statements.take(k));
        lemma_check_statements_error(statements, k + 1, rets, scope);
    }
}

} // verus!
