//! What holds of the type check of every function.

use crate::error::ErrorView;
use crate::parser::ast::{
    groups_declare, DeclarationView, ExprView, FunctionView, StatementView,
};
use crate::scope::{
    lemma_bind_shadows, lemma_bind_well_formed, lemma_lookup_has_slot, lemma_unify_well_formed,
    lemma_unify_with_well_formed, lemma_with_slot_well_formed, ScopeView,
};
use crate::parser::glyph::Glyph;
use crate::parser::grammar::parsed;
use crate::parser::laws::lemma_parsed;
use crate::types::model::{
    after_statement, after_statements, checked, declare, declare_all, declared, group_targets,
    lookup_all, seed, slot_of, slots_of, slots_of_parts, unify_all, unify_returns, TargetView,
};
use crate::types::{converted, Type};
use vstd::prelude::*;

verus! {

/// The scope is in order and, where `strict`, no slot of it is unknown.
pub open spec fn is_sound(scope: ScopeView, strict: bool) -> bool {
    scope.well_formed() && (strict ==> scope.is_resolved())
}

/// Every one of the slots exists in the scope.
pub open spec fn has_slots(scope: ScopeView, slots: Seq<int>) -> bool {
    forall|k: int| 0 <= k < slots.len() ==> scope.has_slot(#[trigger] slots[k])
}

/// `after` has the slots of `before`, and maybe more.
pub open spec fn grows(before: ScopeView, after: ScopeView) -> bool {
    before.slots.len() <= after.slots.len()
}

proof fn lemma_slot_of_sound(expr: ExprView, scope: ScopeView, strict: bool)
    requires
        is_sound(scope, strict),
    ensures
        slot_of(expr, scope) matches Ok((slot, after)) ==> is_sound(after, strict) && after.has_slot(slot)
            && grows(scope, after),
{
    match expr {
        ExprView::IntLiteral(_) => {
            lemma_with_slot_well_formed(scope, Type::Int);
        },
        ExprView::Ident(name) => {
            lemma_lookup_has_slot(scope, name);
        },
        ExprView::Tuple(_) => {},
    }
}

proof fn lemma_slots_of_parts_sound(parts: Seq<ExprView>, scope: ScopeView, strict: bool)
    requires
        is_sound(scope, strict),
    ensures
        slots_of_parts(parts, scope) matches Ok((slots, after)) ==> is_sound(after, strict) && has_slots(
            after,
            slots,
        ) && grows(scope, after) && slots.len() == parts.len(),
    decreases parts.len(),
{
    if parts.len() > 0 {
        lemma_slots_of_parts_sound(parts.drop_last(), scope, strict);
        if let Ok((slots, mid)) = slots_of_parts(parts.drop_last(), scope) {
            lemma_slot_of_sound(parts.last(), mid, strict);
            if let Ok((slot, after)) = slot_of(parts.last(), mid) {
                assert forall|k: int| 0 <= k < slots.push(slot).len() implies after.has_slot(
                    #[trigger] slots.push(slot)[k],
                ) by {
                    if k < slots.len() {
                        assert(mid.has_slot(slots[k]));
                    }
                }
            }
        }
    }
}

proof fn lemma_slots_of_sound(expr: ExprView, scope: ScopeView, strict: bool)
    requires
        is_sound(scope, strict),
    ensures
        slots_of(expr, scope) matches Ok((slots, after)) ==> is_sound(after, strict) && has_slots(
            after,
            slots,
        ) && grows(scope, after),
{
    match expr {
        ExprView::Tuple(parts) => {
            lemma_slots_of_parts_sound(parts, scope, strict);
        },
        _ => {
            lemma_slot_of_sound(expr, scope, strict);
        },
    }
}

proof fn lemma_unify_sound(scope: ScopeView, a: int, b: int, strict: bool)
    requires
        is_sound(scope, strict),
        scope.has_slot(a),
        scope.has_slot(b),
    ensures
        scope.unify(a, b) matches Ok(after) ==> is_sound(after, strict) && after.slots.len()
            == scope.slots.len(),
{
    lemma_unify_well_formed(scope, a, b);
    if let Ok(after) = scope.unify(a, b) {
        if strict {
            assert(scope.slots[a].is_concrete());
            assert(scope.slots[b].is_concrete());
            assert(after.slots =~= scope.slots);
        }
    }
}

proof fn lemma_declare_sound(
    target: TargetView,
    init: Option<int>,
    scope: ScopeView,
    strict: bool,
)
    requires
        is_sound(scope, strict),
        init matches Some(value) ==> scope.has_slot(value),
        strict ==> target.ty is Some || init is Some,
    ensures
        declare(target, init, scope) matches Ok(after) ==> is_sound(after, strict) && grows(
            scope,
            after,
        ),
{
    if let Ok(after) = declare(target, init, scope) {
        let ty = seed(target.ty)->Ok_0;
        let slot = scope.slots.len() as int;
        let bound = scope.with_slot(ty).bind(target.name, slot);
        lemma_with_slot_well_formed(scope, ty);
        lemma_bind_well_formed(scope.with_slot(ty), target.name, slot);
        if let Some(value) = init {
            lemma_unify_well_formed(bound, slot, value);
            assert(bound.slots[value] == scope.slots[value]);
        }
        if strict {
            assert forall|i: int| 0 <= i < after.slots.len() implies (
            #[trigger] after.slots[i]).is_concrete() by {
                if i < scope.slots.len() {
                    assert(scope.slots[i].is_concrete());
                }
                if let Some(value) = init {
                    assert(scope.slots[value].is_concrete());
                }
            }
        }
    }
}

proof fn lemma_declare_all_sound(
    targets: Seq<TargetView>,
    inits: Option<Seq<int>>,
    scope: ScopeView,
    strict: bool,
)
    requires
        is_sound(scope, strict),
        inits matches Some(values) ==> values.len() == targets.len() && has_slots(scope, values),
        strict ==> inits is Some || forall|i: int|
            0 <= i < targets.len() ==> (#[trigger] targets[i]).ty is Some,
    ensures
        declare_all(targets, inits, scope) matches Ok(after) ==> is_sound(after, strict) && grows(
            scope,
            after,
        ),
    decreases targets.len(),
{
    if targets.len() > 0 {
        let front = targets.drop_last();
        match inits {
            Some(values) => {
                // The model reads the n-th value for the n-th identifier: the
                // values of the first identifiers are the first values.
                lemma_declare_all_values(front, values, values.take(front.len() as int), scope);
                assert(has_slots(scope, values.take(front.len() as int))) by {
                    assert forall|k: int| 0 <= k < front.len() implies scope.has_slot(
                        #[trigger] values.take(front.len() as int)[k],
                    ) by {
                        assert(scope.has_slot(values[k]));
                    }
                }
                lemma_declare_all_sound(
                    front,
                    Some(values.take(front.len() as int)),
                    scope,
                    strict,
                );
                if let Ok(mid) = declare_all(front, inits, scope) {
                    assert(scope.has_slot(values[targets.len() - 1]));
                    lemma_declare_sound(targets.last(), Some(values[targets.len() - 1]), mid, strict);
                }
            },
            None => {
                if strict {
                    assert forall|i: int| 0 <= i < front.len() implies (
                    #[trigger] front[i]).ty is Some by {
                        assert(targets[i].ty is Some);
                    }
                    assert(targets[targets.len() - 1].ty is Some);
                }
                lemma_declare_all_sound(front, None, scope, strict);
                if let Ok(mid) = declare_all(front, inits, scope) {
                    lemma_declare_sound(targets.last(), None, mid, strict);
                }
            },
        }
    }
}

/// The declarations read of the values only those at the places of the identifiers.
proof fn lemma_declare_all_values(
    targets: Seq<TargetView>,
    values: Seq<int>,
    others: Seq<int>,
    scope: ScopeView,
)
    requires
        targets.len() <= values.len(),
        targets.len() <= others.len(),
        forall|k: int| 0 <= k < targets.len() ==> values[k] == others[k],
    ensures
        declare_all(targets, Some(values), scope) == declare_all(targets, Some(others), scope),
    decreases targets.len(),
{
    if targets.len() > 0 {
        lemma_declare_all_values(targets.drop_last(), values, others, scope);
    }
}

proof fn lemma_lookup_all_sound(names: Seq<Seq<char>>, scope: ScopeView)
    requires
        scope.well_formed(),
    ensures
        lookup_all(names, scope) matches Ok(slots) ==> has_slots(scope, slots) && slots.len()
            == names.len(),
    decreases names.len(),
{
    if names.len() > 0 {
        lemma_lookup_all_sound(names.drop_last(), scope);
        lemma_lookup_has_slot(scope, names.last());
        if let Ok(slots) = lookup_all(names.drop_last(), scope) {
            if let Some(slot) = scope.lookup(names.last()) {
                assert forall|k: int| 0 <= k < slots.push(slot).len() implies scope.has_slot(
                    #[trigger] slots.push(slot)[k],
                ) by {
                    if k < slots.len() {
                        assert(scope.has_slot(slots[k]));
                    }
                }
            }
        }
    }
}

proof fn lemma_unify_all_sound(left: Seq<int>, right: Seq<int>, scope: ScopeView, strict: bool)
    requires
        is_sound(scope, strict),
        left.len() <= right.len(),
        has_slots(scope, left),
        has_slots(scope, right),
    ensures
        unify_all(left, right, scope) matches Ok(after) ==> is_sound(after, strict)
            && after.slots.len() == scope.slots.len(),
    decreases left.len(),
{
    if left.len() > 0 {
        let front = left.drop_last();
        assert(has_slots(scope, front)) by {
            assert forall|k: int| 0 <= k < front.len() implies scope.has_slot(#[trigger] front[k]) by {
                assert(scope.has_slot(left[k]));
            }
        }
        lemma_unify_all_sound(front, right, scope, strict);
        assert(scope.has_slot(left[left.len() - 1]));
        assert(scope.has_slot(right[left.len() - 1]));
        lemma_unify_sound(scope, left.last(), right[left.len() - 1], strict);
    }
}

proof fn lemma_unify_returns_sound(
    values: Seq<int>,
    rets: Seq<Seq<char>>,
    scope: ScopeView,
    strict: bool,
)
    requires
        is_sound(scope, strict),
        has_slots(scope, values),
    ensures
        unify_returns(values, rets, scope) matches Ok(after) ==> is_sound(after, strict)
            && after.slots.len() == scope.slots.len(),
    decreases values.len(),
{
    if values.len() > 0 {
        let front = values.drop_last();
        assert(has_slots(scope, front)) by {
            assert forall|k: int| 0 <= k < front.len() implies scope.has_slot(#[trigger] front[k]) by {
                assert(scope.has_slot(values[k]));
            }
        }
        lemma_unify_returns_sound(front, rets, scope, strict);
        if let Ok(mid) = unify_returns(front, rets, scope) {
            assert(scope.has_slot(values[values.len() - 1]));
            if let Ok(ty) = converted(rets[values.len() - 1]) {
                lemma_unify_with_well_formed(mid, values.last(), ty);
                if let Ok(after) = mid.unify_with(values.last(), ty) {
                    if strict {
                        assert(mid.slots[values.last()].is_concrete());
                        assert(after.slots =~= mid.slots);
                    }
                }
            }
        }
    }
}

/// The identifiers of groups that have types have types.
proof fn lemma_declared_typed(decls: Seq<DeclarationView>)
    requires
        forall|i: int| 0 <= i < decls.len() ==> (#[trigger] decls[i]).ty is Some,
    ensures
        forall|i: int| 0 <= i < declared(decls).len() ==> (#[trigger] declared(decls)[i]).ty is Some,
    decreases decls.len(),
{
    if decls.len() > 0 {
        let front = decls.drop_last();
        assert forall|i: int| 0 <= i < front.len() implies (#[trigger] front[i]).ty is Some by {
            assert(decls[i].ty is Some);
        }
        lemma_declared_typed(front);
        assert(decls[decls.len() - 1].ty is Some);
        assert forall|i: int| 0 <= i < declared(decls).len() implies (#[trigger] declared(
            decls,
        )[i]).ty is Some by {
            if i >= declared(front).len() {
                assert(declared(decls)[i] == group_targets(decls.last())[i - declared(front).len()]);
            } else {
                assert(declared(decls)[i] == declared(front)[i]);
            }
        }
    }
}

proof fn lemma_statement_sound(
    statement: StatementView,
    rets: Seq<Seq<char>>,
    scope: ScopeView,
    strict: bool,
)
    requires
        is_sound(scope, strict),
        strict ==> statement.is_closed(),
    ensures
        after_statement(statement, rets, scope) matches Ok(after) ==> is_sound(after, strict),
{
    match statement {
        StatementView::Declaration { decls, expr } => {
            match expr {
                Some(value) => {
                    lemma_slots_of_sound(value, scope, strict);
                    if let Ok((inits, mid)) = slots_of(value, scope) {
                        if inits.len() == declared(decls).len() {
                            lemma_declare_all_sound(declared(decls), Some(inits), mid, strict);
                        }
                    }
                },
                None => {
                    if strict {
                        lemma_declared_typed(decls);
                    }
                    lemma_declare_all_sound(declared(decls), None, scope, strict);
                },
            }
        },
        StatementView::Assignment { idents, expr } => {
            lemma_lookup_all_sound(idents, scope);
            lemma_slots_of_sound(expr, scope, strict);
            if let Ok(targets) = lookup_all(idents, scope) {
                if let Ok((values, mid)) = slots_of(expr, scope) {
                    if values.len() == idents.len() {
                        assert(has_slots(mid, targets)) by {
                            assert forall|k: int| 0 <= k < targets.len() implies mid.has_slot(
                                #[trigger] targets[k],
                            ) by {
                                assert(scope.has_slot(targets[k]));
                            }
                        }
                        lemma_unify_all_sound(targets, values, mid, strict);
                    }
                }
            }
        },
        StatementView::Return(expr) => {
            lemma_slots_of_sound(expr, scope, strict);
            if let Ok((values, mid)) = slots_of(expr, scope) {
                lemma_unify_returns_sound(values, rets, mid, strict);
            }
        },
    }
}

proof fn lemma_statements_sound(
    statements: Seq<StatementView>,
    rets: Seq<Seq<char>>,
    scope: ScopeView,
    strict: bool,
)
    requires
        is_sound(scope, strict),
        strict ==> forall|i: int|
            0 <= i < statements.len() ==> (#[trigger] statements[i]).is_closed(),
    ensures
        after_statements(statements, rets, scope) matches Ok(after) ==> is_sound(after, strict),
    decreases statements.len(),
{
    if statements.len() > 0 {
        let front = statements.drop_last();
        if strict {
            assert forall|i: int| 0 <= i < front.len() implies (#[trigger] front[i]).is_closed() by {
                assert(statements[i].is_closed());
            }
            assert(statements[statements.len() - 1].is_closed());
        }
        lemma_statements_sound(front, rets, scope, strict);
        if let Ok(mid) = after_statements(front, rets, scope) {
            lemma_statement_sound(statements.last(), rets, mid, strict);
        }
    }
}

/// Where every parameter has a type and every declared identifier has a type
/// or a value, the check leaves no type unknown: every slot of the scope
/// that it gives holds a concrete type.
pub proof fn lemma_closed_function_resolved(function: FunctionView)
    requires
        function.is_closed(),
    ensures
        checked(function) matches Ok(scope) ==> scope.well_formed() && scope.is_resolved(),
{
    lemma_declared_typed(function.params);
    lemma_declare_all_sound(declared(function.params), None, ScopeView::empty(), true);
    if let Ok(scope) = declare_all(declared(function.params), None, ScopeView::empty()) {
        lemma_statements_sound(function.statements, function.rets, scope, true);
    }
}

/// The scope that the check gives is in order: every binding of it names a
/// slot that exists.
pub proof fn lemma_checked_well_formed(function: FunctionView)
    ensures
        checked(function) matches Ok(scope) ==> scope.well_formed(),
{
    lemma_declare_all_sound(declared(function.params), None, ScopeView::empty(), false);
    if let Ok(scope) = declare_all(declared(function.params), None, ScopeView::empty()) {
        lemma_statements_sound(function.statements, function.rets, scope, false);
    }
}

/// Whether a result of the type check is a success or a semantic error.
pub open spec fn is_settled<T>(result: Result<T, ErrorView>) -> bool {
    result matches Err(e) ==> e.is_semantic()
}

/// The parts of a flat tuple have slots, but for names that are not bound.
pub proof fn lemma_slots_of_parts_settled(parts: Seq<ExprView>, scope: ScopeView)
    requires
        forall|i: int| 0 <= i < parts.len() ==> (#[trigger] parts[i]).is_atom(),
    ensures
        is_settled(slots_of_parts(parts, scope)),
    decreases parts.len(),
{
    if parts.len() > 0 {
        lemma_slots_of_parts_settled(parts.drop_last(), scope);
        assert(parts.last().is_atom());
    }
}

/// Declarations fail with semantic errors only.
pub proof fn lemma_declare_all_settled(
    targets: Seq<TargetView>,
    inits: Option<Seq<int>>,
    scope: ScopeView,
)
    ensures
        is_settled(declare_all(targets, inits, scope)),
    decreases targets.len(),
{
    if targets.len() > 0 {
        lemma_declare_all_settled(targets.drop_last(), inits, scope);
    }
}

/// Lookups fail with semantic errors only.
pub proof fn lemma_lookup_all_settled(names: Seq<Seq<char>>, scope: ScopeView)
    ensures
        is_settled(lookup_all(names, scope)),
    decreases names.len(),
{
    if names.len() > 0 {
        lemma_lookup_all_settled(names.drop_last(), scope);
    }
}

/// Unifications of slots fail with semantic errors only.
pub proof fn lemma_unify_all_settled(left: Seq<int>, right: Seq<int>, scope: ScopeView)
    ensures
        is_settled(unify_all(left, right, scope)),
    decreases left.len(),
{
    if left.len() > 0 {
        lemma_unify_all_settled(left.drop_last(), right, scope);
    }
}

/// Unifications with declared types fail with semantic errors only.
pub proof fn lemma_unify_returns_settled(values: Seq<int>, rets: Seq<Seq<char>>, scope: ScopeView)
    ensures
        is_settled(unify_returns(values, rets, scope)),
    decreases values.len(),
{
    if values.len() > 0 {
        lemma_unify_returns_settled(values.drop_last(), rets, scope);
    }
}

/// A flat statement fails with a semantic error only.
pub proof fn lemma_statement_settled(statement: StatementView, rets: Seq<Seq<char>>, scope: ScopeView)
    requires
        statement.is_flat(),
    ensures
        is_settled(after_statement(statement, rets, scope)),
{
    match statement {
        StatementView::Declaration { decls, expr } => {
            lemma_declare_all_settled(declared(decls), None, scope);
            if let Some(value) = expr {
                if let ExprView::Tuple(parts) = value {
                    lemma_slots_of_parts_settled(parts, scope);
                }
                if let Ok((inits, mid)) = slots_of(value, scope) {
                    lemma_declare_all_settled(declared(decls), Some(inits), mid);
                }
            }
        },
        StatementView::Assignment { idents, expr } => {
            lemma_lookup_all_settled(idents, scope);
            if let ExprView::Tuple(parts) = expr {
                lemma_slots_of_parts_settled(parts, scope);
            }
            if let Ok(targets) = lookup_all(idents, scope) {
                if let Ok((values, mid)) = slots_of(expr, scope) {
                    lemma_unify_all_settled(targets, values, mid);
                }
            }
        },
        StatementView::Return(expr) => {
            if let ExprView::Tuple(parts) = expr {
                lemma_slots_of_parts_settled(parts, scope);
            }
            if let Ok((values, mid)) = slots_of(expr, scope) {
                lemma_unify_returns_settled(values, rets, mid);
            }
        },
    }
}

/// Flat statements fail with semantic errors only.
pub proof fn lemma_statements_settled(
    statements: Seq<StatementView>,
    rets: Seq<Seq<char>>,
    scope: ScopeView,
)
    requires
        forall|i: int| 0 <= i < statements.len() ==> (#[trigger] statements[i]).is_flat(),
    ensures
        is_settled(after_statements(statements, rets, scope)),
    decreases statements.len(),
{
    if statements.len() > 0 {
        lemma_statements_settled(statements.drop_last(), rets, scope);
        if let Ok(mid) = after_statements(statements.drop_last(), rets, scope) {
            lemma_statement_settled(statements.last(), rets, mid);
        }
    }
}

/// A function whose tuples hold no tuples is checked without the error of
/// an unsupported construct: the check ends with a scope or with a mismatch
/// of counts or types, a name that is not bound, or a type that is not known.
pub proof fn lemma_flat_function_settled(function: FunctionView)
    requires
        function.is_flat(),
    ensures
        is_settled(checked(function)),
{
    lemma_declare_all_settled(declared(function.params), None, ScopeView::empty());
    if let Ok(scope) = declare_all(declared(function.params), None, ScopeView::empty()) {
        lemma_statements_settled(function.statements, function.rets, scope);
    }
}

/// Every name that is bound in `before` is bound in `after`.
pub open spec fn keeps_names(before: ScopeView, after: ScopeView) -> bool {
    forall|name: Seq<char>| (#[trigger] before.lookup(name)) is Some ==> after.lookup(name) is Some
}

/// Every one of the identifiers is bound in the scope.
pub open spec fn binds_all(scope: ScopeView, targets: Seq<TargetView>) -> bool {
    forall|i: int| 0 <= i < targets.len() ==> scope.lookup((#[trigger] targets[i]).name) is Some
}

proof fn lemma_declare_binds(target: TargetView, init: Option<int>, scope: ScopeView)
    ensures
        declare(target, init, scope) matches Ok(after) ==> after.lookup(target.name) is Some
            && keeps_names(scope, after),
{
    if let Ok(after) = declare(target, init, scope) {
        let ty = seed(target.ty)->Ok_0;
        let slot = scope.slots.len() as int;
        let grown = scope.with_slot(ty);
        assert(after.bindings == grown.bind(target.name, slot).bindings);
        assert forall|name: Seq<char>| (#[trigger] scope.lookup(name)) is Some implies after.lookup(
            name,
        ) is Some by {
            lemma_bind_shadows(grown, target.name, slot, name);
        }
        lemma_bind_shadows(grown, target.name, slot, target.name);
    }
}

proof fn lemma_declare_all_binds(targets: Seq<TargetView>, inits: Option<Seq<int>>, scope: ScopeView)
    ensures
        declare_all(targets, inits, scope) matches Ok(after) ==> binds_all(after, targets)
            && keeps_names(scope, after),
    decreases targets.len(),
{
    if targets.len() > 0 {
        let front = targets.drop_last();
        lemma_declare_all_binds(front, inits, scope);
        if let Ok(mid) = declare_all(front, inits, scope) {
            let init = match inits {
                Some(values) => Some(values[targets.len() - 1]),
                None => None,
            };
            lemma_declare_binds(targets.last(), init, mid);
            if let Ok(after) = declare(targets.last(), init, mid) {
                assert forall|i: int| 0 <= i < targets.len() implies after.lookup(
                    (#[trigger] targets[i]).name,
                ) is Some by {
                    if i < front.len() {
                        assert(mid.lookup(front[i].name) is Some);
                    }
                }
            }
        }
    }
}

proof fn lemma_slots_of_parts_keeps(parts: Seq<ExprView>, scope: ScopeView)
    ensures
        slots_of_parts(parts, scope) matches Ok((_, after)) ==> after.bindings == scope.bindings,
    decreases parts.len(),
{
    if parts.len() > 0 {
        lemma_slots_of_parts_keeps(parts.drop_last(), scope);
    }
}

proof fn lemma_slots_of_keeps(expr: ExprView, scope: ScopeView)
    ensures
        slots_of(expr, scope) matches Ok((_, after)) ==> after.bindings == scope.bindings,
{
    if let ExprView::Tuple(parts) = expr {
        lemma_slots_of_parts_keeps(parts, scope);
    }
}

proof fn lemma_unify_all_keeps(left: Seq<int>, right: Seq<int>, scope: ScopeView)
    ensures
        unify_all(left, right, scope) matches Ok(after) ==> after.bindings == scope.bindings,
    decreases left.len(),
{
    if left.len() > 0 {
        lemma_unify_all_keeps(left.drop_last(), right, scope);
    }
}

proof fn lemma_unify_returns_keeps(values: Seq<int>, rets: Seq<Seq<char>>, scope: ScopeView)
    ensures
        unify_returns(values, rets, scope) matches Ok(after) ==> after.bindings == scope.bindings,
    decreases values.len(),
{
    if values.len() > 0 {
        lemma_unify_returns_keeps(values.drop_last(), rets, scope);
    }
}

/// An identifier of a group is one of the identifiers of the groups.
proof fn lemma_declared_covers(decls: Seq<DeclarationView>, name: Seq<char>)
    requires
        groups_declare(decls, name),
    ensures
        exists|k: int| 0 <= k < declared(decls).len() && (#[trigger] declared(decls)[k]).name == name,
    decreases decls.len(),
{
    let (i, j) = choose|i: int, j: int|
        0 <= i < decls.len() && 0 <= j < decls[i].idents.len() && #[trigger] decls[i].idents[j]
            == name;
    let front = decls.drop_last();
    if i == decls.len() - 1 {
        let k = declared(front).len() + j;
        assert(declared(decls)[k] == group_targets(decls.last())[j]);
        assert(declared(decls)[k].name == name);
    } else {
        assert(front[i].idents[j] == name);
        lemma_declared_covers(front, name);
        let k = choose|k: int|
            0 <= k < declared(front).len() && (#[trigger] declared(front)[k]).name == name;
        assert(declared(decls)[k] == declared(front)[k]);
        assert(declared(decls)[k].name == name);
    }
}

proof fn lemma_statement_binds(
    statement: StatementView,
    rets: Seq<Seq<char>>,
    scope: ScopeView,
    name: Seq<char>,
)
    ensures
        after_statement(statement, rets, scope) matches Ok(after) ==> keeps_names(scope, after) && (
        statement.declares(name) ==> after.lookup(name) is Some),
{
    if let Ok(after) = after_statement(statement, rets, scope) {
        match statement {
            StatementView::Declaration { decls, expr } => {
                let (inits, mid) = match expr {
                    Some(value) => {
                        lemma_slots_of_keeps(value, scope);
                        (Some(slots_of(value, scope)->Ok_0.0), slots_of(value, scope)->Ok_0.1)
                    },
                    None => (None, scope),
                };
                assert(mid.bindings == scope.bindings);
                lemma_declare_all_binds(declared(decls), inits, mid);
                assert forall|other: Seq<char>| (#[trigger] scope.lookup(other)) is Some implies after.lookup(
                    other,
                ) is Some by {
                    assert(mid.lookup(other) is Some);
                }
                if statement.declares(name) {
                    lemma_declared_covers(decls, name);
                }
            },
            StatementView::Assignment { idents, expr } => {
                lemma_slots_of_keeps(expr, scope);
                let (values, mid) = slots_of(expr, scope)->Ok_0;
                lemma_unify_all_keeps(lookup_all(idents, scope)->Ok_0, values, mid);
                assert(after.bindings == scope.bindings);
            },
            StatementView::Return(expr) => {
                lemma_slots_of_keeps(expr, scope);
                let (values, mid) = slots_of(expr, scope)->Ok_0;
                lemma_unify_returns_keeps(values, rets, mid);
                assert(after.bindings == scope.bindings);
            },
        }
    }
}

proof fn lemma_statements_bind(
    statements: Seq<StatementView>,
    rets: Seq<Seq<char>>,
    scope: ScopeView,
    name: Seq<char>,
)
    ensures
        after_statements(statements, rets, scope) matches Ok(after) ==> keeps_names(scope, after) && (
        (exists|k: int| 0 <= k < statements.len() && (#[trigger] statements[k]).declares(name))
            ==> after.lookup(name) is Some),
    decreases statements.len(),
{
    if statements.len() > 0 {
        let front = statements.drop_last();
        lemma_statements_bind(front, rets, scope, name);
        if let Ok(mid) = after_statements(front, rets, scope) {
            lemma_statement_binds(statements.last(), rets, mid, name);
            if let Ok(after) = after_statement(statements.last(), rets, mid) {
                if exists|k: int|
                    0 <= k < statements.len() && (#[trigger] statements[k]).declares(name) {
                    let k = choose|k: int|
                        0 <= k < statements.len() && (#[trigger] statements[k]).declares(name);
                    if k < front.len() {
                        assert(front[k].declares(name));
                        assert(mid.lookup(name) is Some);
                    }
                }
            }
        }
    }
}

/// The scope that the check gives binds every parameter and every identifier
/// that a statement declares.
pub proof fn lemma_checked_binds_declared(function: FunctionView, name: Seq<char>)
    requires
        function.declares(name),
    ensures
        checked(function) matches Ok(scope) ==> scope.lookup(name) is Some,
{
    let start = declare_all(declared(function.params), None, ScopeView::empty());
    lemma_declare_all_binds(declared(function.params), None, ScopeView::empty());
    if let Ok(scope) = start {
        lemma_statements_bind(function.statements, function.rets, scope, name);
        if groups_declare(function.params, name) {
            lemma_declared_covers(function.params, name);
        }
    }
}

/// Where every parameter has a type and every declared identifier has a type
/// or a value, every identifier that the function declares has a concrete
/// type in the scope that the check gives.
pub proof fn lemma_closed_names_resolved(function: FunctionView, name: Seq<char>)
    requires
        function.is_closed(),
        function.declares(name),
    ensures
        checked(function) matches Ok(scope) ==> (scope.type_of(name) matches Some(ty)
            && ty.is_concrete()),
{
    lemma_closed_function_resolved(function);
    lemma_checked_binds_declared(function, name);
    if let Ok(scope) = checked(function) {
        lemma_lookup_has_slot(scope, name);
    }
}

/// A function that the parser reads is checked without the error of an
/// unsupported construct: the check ends with a scope, or with a mismatch of
/// counts or types, a name that is not bound, or a type that is not known.
/// Where every statement of the function is closed, the scope leaves no
/// type unknown.
pub proof fn lemma_parsed_function_checked(source: Seq<Glyph>)
    ensures
        parsed(source) matches Ok(function) ==> match checked(function) {
            Ok(scope) => scope.well_formed() && (function.is_closed() ==> scope.is_resolved()),
            Err(e) => e.is_semantic(),
        },
{
    lemma_parsed(source);
    if let Ok(function) = parsed(source) {
        lemma_flat_function_settled(function);
        lemma_checked_well_formed(function);
        if function.is_closed() {
            lemma_closed_function_resolved(function);
        }
    }
}

} // verus!
