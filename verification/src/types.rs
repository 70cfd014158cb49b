//! Semantic types, unification, and the type check of a function.

use crate::error::{ArityContext, Error, ErrorView};
use crate::parser::ast;
use crate::parser::ast::{
    decls_view, exprs_view, lemma_tuple_view, names_view, statements_view, types_view, Declaration,
    DeclarationView, Expr, ExprView, Function, Statement, StatementView,
};
use crate::parser::token::same_text;
use crate::scope::{lemma_unify_well_formed, lemma_unify_with_well_formed, Scope, ScopeView};
use crate::types::model::{
    after_assignment, after_declaration, after_return, after_statement, after_statements, checked,
    declare_all, declared, group_targets, lemma_check_statements_error, lemma_declare_all_error,
    lemma_declared_step, lemma_lookup_all_error, lemma_slots_of_parts_error,
    lemma_unify_all_error, lemma_unify_returns_error, lookup_all, slot_of, slots_of,
    slots_of_parts, unify_all, unify_returns, TargetView,
};
use vstd::prelude::*;

pub mod laws;
pub mod model;

verus! {

/// A semantic type: concrete, or not resolved yet.
#[derive(Debug, Clone, Copy, PartialEq, Eq, Structural)]
pub enum Type {
    Int,
    Unknown,
}

impl Type {
    /// Whether the type is resolved.
    pub open spec fn is_concrete(self) -> bool {
        self != Type::Unknown
    }
}

/// What two types become when they are unified: a side that is unknown takes
/// the other side's type, two equal concrete types stay, and two different
/// concrete types have no unification.
pub open spec fn unified(a: Type, b: Type) -> Option<(Type, Type)> {
    if b == Type::Unknown {
        Some((a, a))
    } else if a == Type::Unknown {
        Some((b, b))
    } else if a == b {
        Some((a, b))
    } else {
        None
    }
}

/// Unifies two types in place. On a mismatch neither side changes and the
/// error reports `a` as expected and `b` as found.
pub fn unify_types(a: &mut Type, b: &mut Type) -> (result: Result<(), Error>)
    ensures
        match unified(*old(a), *old(b)) {
            Some((x, y)) => result is Ok && *final(a) == x && *final(b) == y,
            None => {
                &&& result matches Err(e)
                &&& e@ == (ErrorView::TypeMismatch { expected: *old(a), found: *old(b) })
                &&& *final(a) == *old(a)
                &&& *final(b) == *old(b)
            },
        },
{
    let x: Type = *a;
    let y: Type = *b;
    if y == Type::Unknown {
        *b = x;
        Ok(())
    } else if x == Type::Unknown {
        *a = y;
        Ok(())
    } else if x == y {
        Ok(())
    } else {
        Err(Error::TypeMismatch { expected: x, found: y })
    }
}

/// Unifying twice is unifying once: the types that a unification leaves unify
/// again, and stay as they are.
pub proof fn lemma_unify_idempotent(a: Type, b: Type)
    ensures
        unified(a, b) matches Some(once) ==> unified(once.0, once.1) == Some(once),
{
}

/// Unification does not depend on the order of its sides, but for the side
/// that a mismatch reports as expected.
pub proof fn lemma_unify_symmetric(a: Type, b: Type)
    ensures
        unified(a, b) is Some <==> unified(b, a) is Some,
        unified(a, b) matches Some(ab) ==> unified(b, a) == Some((ab.1, ab.0)),
{
}

/// Two unknown types unify and stay unknown.
pub proof fn lemma_unify_unknowns()
    ensures
        unified(Type::Unknown, Type::Unknown) == Some((Type::Unknown, Type::Unknown)),
{
}

/// An unknown side takes the concrete type of the other, and two different
/// concrete types do not unify.
pub proof fn lemma_unify_concrete(a: Type, b: Type)
    requires
        a.is_concrete(),
    ensures
        b == Type::Unknown ==> unified(a, b) == Some((a, a)) && unified(b, a) == Some((a, a)),
        b.is_concrete() && a != b ==> unified(a, b) is None,
        b == a ==> unified(a, b) == Some((a, a)),
{
}

/// While `Int` is the only concrete type, no two types are different
/// concrete types, and every unification succeeds.
pub proof fn lemma_unify_succeeds(a: Type, b: Type)
    ensures
        unified(a, b) is Some,
{
}

/// The name of the one type that the language knows.
pub open spec fn int_name() -> Seq<char> {
    seq!['i', 'n', 't']
}

/// The semantic type that a written type names, where it names one.
pub open spec fn converted(name: Seq<char>) -> Result<Type, ErrorView> {
    if name == int_name() {
        Ok(Type::Int)
    } else {
        Err(ErrorView::UnknownTypeName { name })
    }
}

/// Converts a written type to the semantic type that it names.
pub fn convert_type(ty: &ast::Type) -> (result: Result<Type, Error>)
    ensures
        match converted(ty@) {
            Ok(t) => result == Ok::<Type, Error>(t),
            Err(e) => result matches Err(x) && x@ == e,
        },
{
    proof {
        reveal_strlit("int");
        assert("int"@ =~= int_name());
    }
    if same_text(ty.ident, "int") {
        Ok(Type::Int)
    } else {
        Err(Error::UnknownTypeName { name: ty.ident.to_owned() })
    }
}

/// One declared identifier with the annotation of its group.
pub struct Target<'a> {
    pub name: &'a str,
    pub ty: Option<ast::Type<'a>>,
}

impl<'a> View for Target<'a> {
    type V = TargetView;

    open spec fn view(&self) -> TargetView {
        TargetView {
            name: self.name@,
            ty: match self.ty {
                Some(ty) => Some(ty@),
                None => None,
            },
        }
    }
}

/// The mathematical values of a list of targets.
pub open spec fn targets_view(targets: Seq<Target>) -> Seq<TargetView> {
    targets.map_values(|target: Target| target@)
}

/// The slot of an expression that stands for one value.
pub fn type_of_expr<'a>(expr: &Expr<'a>, scope: &mut Scope<'a>) -> (result: Result<usize, Error>)
    requires
        old(scope)@.well_formed(),
    ensures
        final(scope)@.well_formed(),
        match slot_of(expr@, old(scope)@) {
            Ok((slot, after)) => {
                &&& result matches Ok(found)
                &&& found as int == slot
                &&& final(scope)@ == after
                &&& after.has_slot(slot)
            },
            Err(e) => result matches Err(x) && x@ == e && final(scope)@ == old(scope)@,
        },
{
    match expr {
        Expr::IntLiteral(_) => Ok(scope.fresh_slot(Type::Int)),
        Expr::Ident(name) => match scope.get(name) {
            Some(slot) => Ok(slot),
            None => Err(Error::UndeclaredIdentifier { name: (*name).to_owned() }),
        },
        Expr::Tuple(parts) => {
            proof {
                lemma_tuple_view(*parts);
            }
            Err(Error::UnsupportedConstruct)
        },
    }
}

/// The indices of slots as the model has them.
pub open spec fn slot_seq(slots: Seq<usize>) -> Seq<int> {
    slots.map_values(|slot: usize| slot as int)
}

/// Every one of the slots exists in the scope.
pub open spec fn all_slots(scope: ScopeView, slots: Seq<usize>) -> bool {
    forall|k: int| 0 <= k < slots.len() ==> scope.has_slot(#[trigger] slots[k] as int)
}

/// The slots of the values that an expression supplies, from left to right.
pub fn types_of_expr<'a>(expr: &Expr<'a>, scope: &mut Scope<'a>) -> (result: Result<
    Vec<usize>,
    Error,
>)
    requires
        old(scope)@.well_formed(),
    ensures
        final(scope)@.well_formed(),
        final(scope)@.slots.len() >= old(scope)@.slots.len(),
        match slots_of(expr@, old(scope)@) {
            Ok((slots, after)) => {
                &&& result matches Ok(found)
                &&& slot_seq(found@) == slots
                &&& final(scope)@ == after
                &&& all_slots(after, found@)
            },
            Err(e) => result matches Err(x) && x@ == e,
        },
{
    match expr {
        Expr::Tuple(parts) => {
            proof {
                lemma_tuple_view(*parts);
            }
            let ghost views = exprs_view(parts@);
            let mut slots: Vec<usize> = Vec::new();
            let mut i: usize = 0;
            assert(views.take(0) =~= Seq::<ExprView>::empty());
            assert(slot_seq(slots@) =~= Seq::<int>::empty());
            while i < parts.len()
                invariant
                    i <= parts.len(),
                    views == exprs_view(parts@),
                    expr@ == ExprView::Tuple(views),
                    scope@.well_formed(),
                    scope@.slots.len() >= old(scope)@.slots.len(),
                    slots_of_parts(views.take(i as int), old(scope)@) == Ok::<
                        (Seq<int>, ScopeView),
                        ErrorView,
                    >((slot_seq(slots@), scope@)),
                    all_slots(scope@, slots@),
                decreases parts.len() - i,
            {
                assert(views.take(i + 1).drop_last() =~= views.take(i as int));
                assert(views.take(i + 1).last() == parts[i as int]@);
                let ghost before = scope@;
                match type_of_expr(&parts[i], scope) {
                    Ok(slot) => {
                        assert(slot_seq(slots@.push(slot)) =~= slot_seq(slots@).push(slot as int));
                        assert(scope@.slots.len() >= before.slots.len());
                        slots.push(slot);
                    },
                    Err(e) => {
                        proof {
                            lemma_slots_of_parts_error(views, i + 1, old(scope)@);
                        }
                        return Err(e);
                    },
                }
                i += 1;
            }
            assert(views.take(i as int) =~= views);
            Ok(slots)
        },
        _ => {
            assert(!(expr@ is Tuple));
            let slot: usize = type_of_expr(expr, scope)?;
            let mut slots: Vec<usize> = Vec::new();
            slots.push(slot);
            assert(slot_seq(slots@) =~= seq![slot as int]);
            Ok(slots)
        },
    }
}

/// The declared identifiers of the groups, each with its group's annotation,
/// in the order in which they are written.
pub fn flatten<'a>(decls: &Vec<Declaration<'a>>) -> (targets: Vec<Target<'a>>)
    ensures
        targets_view(targets@) == declared(decls_view(decls@)),
{
    let ghost views = decls_view(decls@);
    let mut targets: Vec<Target<'a>> = Vec::new();
    let mut i: usize = 0;
    assert(views.take(0) =~= Seq::<DeclarationView>::empty());
    assert(targets_view(targets@) =~= Seq::<TargetView>::empty());
    while i < decls.len()
        invariant
            i <= decls.len(),
            views == decls_view(decls@),
            targets_view(targets@) == declared(views.take(i as int)),
        decreases decls.len() - i,
    {
        let decl = &decls[i];
        let ghost group = group_targets(decl@);
        let ghost done = targets_view(targets@);
        let mut j: usize = 0;
        assert(done + group.take(0) =~= done);
        while j < decl.idents.len()
            invariant
                j <= decl.idents.len(),
                group == group_targets(decl@),
                targets_view(targets@) == done + group.take(j as int),
            decreases decl.idents.len() - j,
        {
            let target = Target { name: decl.idents[j], ty: decl.ty };
            assert(target@ == group[j as int]);
            assert(targets_view(targets@.push(target)) =~= targets_view(targets@).push(target@));
            assert(done + group.take(j + 1) =~= (done + group.take(j as int)).push(group[j as int]));
            targets.push(target);
            j += 1;
        }
        proof {
            assert(group.take(j as int) =~= group);
            assert(views[i as int] == decl@);
            lemma_declared_step(views, i as int);
        }
        i += 1;
    }
    assert(views.take(i as int) =~= views);
    targets
}

/// The initial values as the model has them.
pub open spec fn inits_view(inits: Option<&Vec<usize>>) -> Option<Seq<int>> {
    match inits {
        Some(values) => Some(slot_seq(values@)),
        None => None,
    }
}

/// Declares the identifiers in order: each gets a new slot that starts with
/// its annotation's type, is bound to it, and is unified with the initial
/// value at its place, where there are initial values.
pub fn declare_targets<'a>(
    targets: &Vec<Target<'a>>,
    inits: Option<&Vec<usize>>,
    scope: &mut Scope<'a>,
) -> (result: Result<(), Error>)
    requires
        old(scope)@.well_formed(),
        inits matches Some(values) ==> values.len() == targets.len() && all_slots(
            old(scope)@,
            values@,
        ),
    ensures
        final(scope)@.well_formed(),
        match declare_all(targets_view(targets@), inits_view(inits), old(scope)@) {
            Ok(after) => result is Ok && final(scope)@ == after,
            Err(e) => result matches Err(x) && x@ == e,
        },
{
    let ghost views = targets_view(targets@);
    let ghost values = inits_view(inits);
    let mut k: usize = 0;
    assert(views.take(0) =~= Seq::<TargetView>::empty());
    while k < targets.len()
        invariant
            k <= targets.len(),
            views == targets_view(targets@),
            values == inits_view(inits),
            scope@.well_formed(),
            scope@.slots.len() >= old(scope)@.slots.len(),
            inits matches Some(values) ==> values.len() == targets.len() && all_slots(
                old(scope)@,
                values@,
            ),
            declare_all(views.take(k as int), values, old(scope)@) == Ok::<ScopeView, ErrorView>(
                scope@,
            ),
        decreases targets.len() - k,
    {
        let target = &targets[k];
        proof {
            assert(views.take(k + 1).drop_last() =~= views.take(k as int));
            assert(views.take(k + 1).last() == target@);
            lemma_declare_all_error(views, k + 1, values, old(scope)@);
        }
        let ty: Type = match target.ty {
            Some(written) => match convert_type(&written) {
                Ok(ty) => ty,
                Err(e) => {
                    return Err(e);
                },
            },
            None => Type::Unknown,
        };
        let ghost before = scope@;
        let slot: usize = scope.fresh_slot(ty);
        scope.insert(target.name, slot);
        if let Some(values) = inits {
            proof {
                lemma_unify_well_formed(scope@, slot as int, values[k as int] as int);
            }
            match scope.unify(slot, values[k]) {
                Ok(()) => {},
                Err(e) => {
                    return Err(e);
                },
            }
        }
        k += 1;
    }
    assert(views.take(k as int) =~= views);
    Ok(())
}

/// Checks a declaration statement: the initial values are found first, their
/// number must be that of the declared identifiers, and then the identifiers
/// are declared in order.
pub fn check_declaration<'a>(
    decls: &Vec<Declaration<'a>>,
    expr: &Option<Expr<'a>>,
    scope: &mut Scope<'a>,
) -> (result: Result<(), Error>)
    requires
        old(scope)@.well_formed(),
    ensures
        final(scope)@.well_formed(),
        match after_declaration(
            decls_view(decls@),
            match expr {
                Some(expr) => Some(expr@),
                None => None,
            },
            old(scope)@,
        ) {
            Ok(after) => result is Ok && final(scope)@ == after,
            Err(e) => result matches Err(x) && x@ == e,
        },
{
    let targets = flatten(decls);
    assert(targets_view(targets@).len() == targets.len());
    match expr {
        None => declare_targets(&targets, None, scope),
        Some(expr) => {
            let inits = types_of_expr(expr, scope)?;
            assert(slot_seq(inits@).len() == inits.len());
            if inits.len() != targets.len() {
                return Err(
                    Error::ArityMismatch {
                        expected_count: targets.len(),
                        found_count: inits.len(),
                        context: ArityContext::Declaration,
                    },
                );
            }
            declare_targets(&targets, Some(&inits), scope)
        },
    }
}

/// Checks an assignment: every target must be bound, the values are found,
/// their number must be that of the targets, and then each target's slot is
/// unified with the value at its place.
pub fn check_assignment<'a>(idents: &Vec<&'a str>, expr: &Expr<'a>, scope: &mut Scope<'a>) -> (result:
    Result<(), Error>)
    requires
        old(scope)@.well_formed(),
    ensures
        final(scope)@.well_formed(),
        match after_assignment(names_view(idents@), expr@, old(scope)@) {
            Ok(after) => result is Ok && final(scope)@ == after,
            Err(e) => result matches Err(x) && x@ == e,
        },
{
    let ghost names = names_view(idents@);
    let mut targets: Vec<usize> = Vec::new();
    let mut i: usize = 0;
    assert(names.take(0) =~= Seq::<Seq<char>>::empty());
    assert(slot_seq(targets@) =~= Seq::<int>::empty());
    while i < idents.len()
        invariant
            i <= idents.len(),
            names == names_view(idents@),
            scope@ == old(scope)@,
            scope@.well_formed(),
            targets.len() == i,
            all_slots(scope@, targets@),
            lookup_all(names.take(i as int), scope@) == Ok::<Seq<int>, ErrorView>(
                slot_seq(targets@),
            ),
        decreases idents.len() - i,
    {
        proof {
            assert(names.take(i + 1).drop_last() =~= names.take(i as int));
            assert(names.take(i + 1).last() == idents[i as int]@);
            lemma_lookup_all_error(names, i + 1, scope@);
        }
        match scope.get(idents[i]) {
            Some(slot) => {
                assert(slot_seq(targets@.push(slot)) =~= slot_seq(targets@).push(slot as int));
                targets.push(slot);
            },
            None => {
                return Err(Error::UndeclaredIdentifier { name: idents[i].to_owned() });
            },
        }
        i += 1;
    }
    assert(names.take(i as int) =~= names);
    let values = types_of_expr(expr, scope)?;
    assert(slot_seq(values@).len() == values.len());
    if values.len() != idents.len() {
        return Err(
            Error::ArityMismatch {
                expected_count: idents.len(),
                found_count: values.len(),
                context: ArityContext::Assignment,
            },
        );
    }
    let ghost left = slot_seq(targets@);
    let ghost right = slot_seq(values@);
    let ghost start = scope@;
    let mut k: usize = 0;
    assert(left.take(0) =~= Seq::<int>::empty());
    while k < targets.len()
        invariant
            k <= targets.len(),
            targets.len() == values.len(),
            left == slot_seq(targets@),
            right == slot_seq(values@),
            scope@.well_formed(),
            scope@.slots.len() == start.slots.len(),
            all_slots(start, targets@),
            all_slots(start, values@),
            after_assignment(names_view(idents@), expr@, old(scope)@) == unify_all(left, right, start),
            unify_all(left.take(k as int), right, start) == Ok::<ScopeView, ErrorView>(scope@),
        decreases targets.len() - k,
    {
        proof {
            assert(left.take(k + 1).drop_last() =~= left.take(k as int));
            lemma_unify_all_error(left, k + 1, right, start);
            lemma_unify_well_formed(scope@, targets[k as int] as int, values[k as int] as int);
        }
        match scope.unify(targets[k], values[k]) {
            Ok(()) => {},
            Err(e) => {
                return Err(e);
            },
        }
        k += 1;
    }
    assert(left.take(k as int) =~= left);
    Ok(())
}

/// Checks a return statement: the values are found, their number must be
/// that of the declared return types, and then each value's slot is unified
/// with the declared type at its place.
pub fn check_return<'a>(expr: &Expr<'a>, rets: &Vec<ast::Type<'a>>, scope: &mut Scope<'a>) -> (result:
    Result<(), Error>)
    requires
        old(scope)@.well_formed(),
    ensures
        final(scope)@.well_formed(),
        match after_return(expr@, types_view(rets@), old(scope)@) {
            Ok(after) => result is Ok && final(scope)@ == after,
            Err(e) => result matches Err(x) && x@ == e,
        },
{
    let values = types_of_expr(expr, scope)?;
    assert(slot_seq(values@).len() == values.len());
    if values.len() != rets.len() {
        return Err(
            Error::ArityMismatch {
                expected_count: rets.len(),
                found_count: values.len(),
                context: ArityContext::Return,
            },
        );
    }
    let ghost slots = slot_seq(values@);
    let ghost declared_types = types_view(rets@);
    let ghost start = scope@;
    let mut k: usize = 0;
    assert(slots.take(0) =~= Seq::<int>::empty());
    while k < values.len()
        invariant
            k <= values.len(),
            values.len() == rets.len(),
            slots == slot_seq(values@),
            declared_types == types_view(rets@),
            scope@.well_formed(),
            scope@.slots.len() == start.slots.len(),
            all_slots(start, values@),
            after_return(expr@, declared_types, old(scope)@) == unify_returns(
                slots,
                declared_types,
                start,
            ),
            unify_returns(slots.take(k as int), declared_types, start) == Ok::<
                ScopeView,
                ErrorView,
            >(scope@),
        decreases values.len() - k,
    {
        proof {
            assert(slots.take(k + 1).drop_last() =~= slots.take(k as int));
            assert(declared_types[k as int] == rets[k as int]@);
            lemma_unify_returns_error(slots, k + 1, declared_types, start);
        }
        let ty: Type = match convert_type(&rets[k]) {
            Ok(ty) => ty,
            Err(e) => {
                return Err(e);
            },
        };
        proof {
            lemma_unify_with_well_formed(scope@, values[k as int] as int, ty);
        }
        match scope.unify_with(values[k], ty) {
            Ok(()) => {},
            Err(e) => {
                return Err(e);
            },
        }
        k += 1;
    }
    assert(slots.take(k as int) =~= slots);
    Ok(())
}

/// Checks one statement of a function that declares the return types `rets`.
pub fn check_statement<'a>(
    statement: &Statement<'a>,
    rets: &Vec<ast::Type<'a>>,
    scope: &mut Scope<'a>,
) -> (result: Result<(), Error>)
    requires
        old(scope)@.well_formed(),
    ensures
        final(scope)@.well_formed(),
        match after_statement(statement@, types_view(rets@), old(scope)@) {
            Ok(after) => result is Ok && final(scope)@ == after,
            Err(e) => result matches Err(x) && x@ == e,
        },
{
    match statement {
        Statement::Declaration { decls, expr } => check_declaration(decls, expr, scope),
        Statement::Assignment { idents, expr } => check_assignment(idents, expr, scope),
        Statement::Return(expr) => check_return(expr, rets, scope),
    }
}

/// Checks a function: its parameters are declared in an empty scope, then
/// its statements are checked in order. The result is the scope at the end,
/// or the first error.
pub fn type_check_function<'a>(function: &Function<'a>) -> (result: Result<Scope<'a>, Error>)
    ensures
        match checked(function@) {
            Ok(scope) => result matches Ok(found) && found@ == scope && scope.well_formed(),
            Err(e) => result matches Err(x) && x@ == e,
        },
{
    let mut scope = Scope::new();
    let params = flatten(&function.params);
    declare_targets(&params, None, &mut scope)?;
    let ghost start = scope@;
    let ghost statements = statements_view(function.statements@);
    let ghost rets = types_view(function.rets@);
    let mut i: usize = 0;
    assert(statements.take(0) =~= Seq::<StatementView>::empty());
    while i < function.statements.len()
        invariant
            i <= function.statements.len(),
            statements == statements_view(function.statements@),
            rets == types_view(function.rets@),
            scope@.well_formed(),
            checked(function@) == after_statements(statements, rets, start),
            after_statements(statements.take(i as int), rets, start) == Ok::<ScopeView, ErrorView>(
                scope@,
            ),
        decreases function.statements.len() - i,
    {
        proof {
            assert(statements.take(i + 1).drop_last() =~= statements.take(i as int));
            assert(statements.take(i + 1).last() == function.statements[i as int]@);
            lemma_check_statements_error(statements, i + 1, rets, start);
        }
        match check_statement(&function.statements[i], &function.rets, &mut scope) {
            Ok(()) => {},
            Err(e) => {
                return Err(e);
            },
        }
        i += 1;
    }
    assert(statements.take(i as int) =~= statements);
    Ok(scope)
}

} // verus!
