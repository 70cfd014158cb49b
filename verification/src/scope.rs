//! The scope: a chain of bindings from names to type slots, and the slots.
//!
//! A slot is a cell that holds one type. A binding names a slot by its index,
//! so every use of a variable reaches the same cell, and a type that
//! unification writes there is seen at all of them.

use crate::error::{Error, ErrorView};
use crate::parser::token::same_text;
use crate::types::{unified, unify_types, Type};
use std::rc::Rc;
use vstd::prelude::*;

verus! {

/// One binding of a name to a slot.
pub struct Binding {
    pub name: Seq<char>,
    pub slot: int,
}

/// The mathematical value of a [`Scope`]: its bindings, the newest first, and
/// the types that its slots hold.
pub struct ScopeView {
    pub bindings: Seq<Binding>,
    pub slots: Seq<Type>,
}

/// The slot of the first binding of `name`, if there is one.
pub open spec fn find(bindings: Seq<Binding>, name: Seq<char>) -> Option<int>
    decreases bindings.len(),
{
    if bindings.len() == 0 {
        None
    } else if bindings[0].name == name {
        Some(bindings[0].slot)
    } else {
        find(bindings.drop_first(), name)
    }
}

impl ScopeView {
    /// The scope without bindings or slots.
    pub open spec fn empty() -> ScopeView {
        ScopeView { bindings: Seq::empty(), slots: Seq::empty() }
    }

    /// Whether `slot` is the index of a slot of the scope.
    pub open spec fn has_slot(self, slot: int) -> bool {
        0 <= slot < self.slots.len()
    }

    /// Every binding names a slot that exists.
    pub open spec fn well_formed(self) -> bool {
        forall|i: int| 0 <= i < self.bindings.len() ==> self.has_slot(#[trigger] self.bindings[i].slot)
    }

    /// No slot is left unknown.
    pub open spec fn is_resolved(self) -> bool {
        forall|i: int| 0 <= i < self.slots.len() ==> (#[trigger] self.slots[i]).is_concrete()
    }

    /// The slot that `name` is bound to: that of its newest binding.
    pub open spec fn lookup(self, name: Seq<char>) -> Option<int> {
        find(self.bindings, name)
    }

    /// The type that `name` has now.
    pub open spec fn type_of(self, name: Seq<char>) -> Option<Type> {
        match self.lookup(name) {
            Some(slot) => Some(self.slots[slot]),
            None => None,
        }
    }

    /// The scope with one more slot, which holds `ty`; its index is the
    /// number of slots before.
    pub open spec fn with_slot(self, ty: Type) -> ScopeView {
        ScopeView { slots: self.slots.push(ty), ..self }
    }

    /// The scope with a new binding in front of the others.
    pub open spec fn bind(self, name: Seq<char>, slot: int) -> ScopeView {
        ScopeView { bindings: seq![Binding { name, slot }] + self.bindings, ..self }
    }

    /// The scope after the slots `a` and `b` are unified, or the mismatch,
    /// which reports the type of `a` as expected and that of `b` as found.
    pub open spec fn unify(self, a: int, b: int) -> Result<ScopeView, ErrorView> {
        match unified(self.slots[a], self.slots[b]) {
            Some((x, y)) => Ok(ScopeView { slots: self.slots.update(a, x).update(b, y), ..self }),
            None => Err(ErrorView::TypeMismatch { expected: self.slots[a], found: self.slots[b] }),
        }
    }

    /// The scope after `slot` is unified with a type that is held nowhere
    /// else, or the mismatch, which reports `ty` as expected.
    pub open spec fn unify_with(self, slot: int, ty: Type) -> Result<ScopeView, ErrorView> {
        match unified(ty, self.slots[slot]) {
            Some((_, y)) => Ok(ScopeView { slots: self.slots.update(slot, y), ..self }),
            None => Err(ErrorView::TypeMismatch { expected: ty, found: self.slots[slot] }),
        }
    }
}

/// A new slot leaves every binding in order.
pub proof fn lemma_with_slot_well_formed(scope: ScopeView, ty: Type)
    requires
        scope.well_formed(),
    ensures
        scope.with_slot(ty).well_formed(),
        scope.with_slot(ty).has_slot(scope.slots.len() as int),
{
    let after = scope.with_slot(ty);
    assert forall|i: int| 0 <= i < after.bindings.len() implies after.has_slot(
        #[trigger] after.bindings[i].slot,
    ) by {
        assert(scope.has_slot(scope.bindings[i].slot));
    }
}

/// A binding to a slot that exists leaves the scope in order.
pub proof fn lemma_bind_well_formed(scope: ScopeView, name: Seq<char>, slot: int)
    requires
        scope.well_formed(),
        scope.has_slot(slot),
    ensures
        scope.bind(name, slot).well_formed(),
{
    let after = scope.bind(name, slot);
    assert forall|i: int| 0 <= i < after.bindings.len() implies after.has_slot(
        #[trigger] after.bindings[i].slot,
    ) by {
        if i > 0 {
            assert(after.bindings[i] == scope.bindings[i - 1]);
            assert(scope.has_slot(scope.bindings[i - 1].slot));
        }
    }
}

/// Unification changes what slots hold, not which slots there are.
pub proof fn lemma_unify_well_formed(scope: ScopeView, a: int, b: int)
    requires
        scope.well_formed(),
        scope.has_slot(a),
        scope.has_slot(b),
    ensures
        scope.unify(a, b) matches Ok(after) ==> after.well_formed() && after.bindings
            == scope.bindings && after.slots.len() == scope.slots.len(),
{
    if let Ok(after) = scope.unify(a, b) {
        assert forall|i: int| 0 <= i < after.bindings.len() implies after.has_slot(
            #[trigger] after.bindings[i].slot,
        ) by {
            assert(scope.has_slot(scope.bindings[i].slot));
        }
    }
}

/// Unification with a type changes what a slot holds, not which slots there are.
pub proof fn lemma_unify_with_well_formed(scope: ScopeView, slot: int, ty: Type)
    requires
        scope.well_formed(),
        scope.has_slot(slot),
    ensures
        scope.unify_with(slot, ty) matches Ok(after) ==> after.well_formed() && after.bindings
            == scope.bindings && after.slots.len() == scope.slots.len(),
{
    if let Ok(after) = scope.unify_with(slot, ty) {
        assert forall|i: int| 0 <= i < after.bindings.len() implies after.has_slot(
            #[trigger] after.bindings[i].slot,
        ) by {
            assert(scope.has_slot(scope.bindings[i].slot));
        }
    }
}

/// In a scope that is in order, a name resolves to a slot that exists.
pub proof fn lemma_lookup_has_slot(scope: ScopeView, name: Seq<char>)
    requires
        scope.well_formed(),
    ensures
        scope.lookup(name) matches Some(slot) ==> scope.has_slot(slot),
{
    lemma_find_bound(scope.bindings, name);
}

/// The newest binding of a name shadows the older ones, and a new binding
/// leaves every other name and every older binding as it was.
pub proof fn lemma_bind_shadows(scope: ScopeView, name: Seq<char>, slot: int, other: Seq<char>)
    ensures
        scope.bind(name, slot).lookup(name) == Some(slot),
        other != name ==> scope.bind(name, slot).lookup(other) == scope.lookup(other),
        scope.bind(name, slot).bindings.drop_first() == scope.bindings,
        scope.bind(name, slot).slots == scope.slots,
{
    assert(scope.bind(name, slot).bindings.drop_first() =~= scope.bindings);
}

/// A name resolves to the slot of the first binding that has the name, and
/// to none where no binding has it.
pub proof fn lemma_lookup_first(scope: ScopeView, name: Seq<char>)
    ensures
        match scope.lookup(name) {
            Some(slot) => exists|i: int|
                {
                    &&& 0 <= i < scope.bindings.len()
                    &&& #[trigger] scope.bindings[i].name == name
                    &&& scope.bindings[i].slot == slot
                    &&& forall|j: int| 0 <= j < i ==> (#[trigger] scope.bindings[j]).name != name
                },
            None => forall|i: int|
                0 <= i < scope.bindings.len() ==> (#[trigger] scope.bindings[i]).name != name,
        },
    decreases scope.bindings.len(),
{
    let bindings = scope.bindings;
    if bindings.len() > 0 {
        if bindings[0].name == name {
            assert(bindings[0].name == name && bindings[0].slot == scope.lookup(name)->0);
        } else {
            let rest = ScopeView { bindings: bindings.drop_first(), ..scope };
            lemma_lookup_first(rest, name);
            match rest.lookup(name) {
                Some(slot) => {
                    let i = choose|i: int|
                        {
                            &&& 0 <= i < rest.bindings.len()
                            &&& #[trigger] rest.bindings[i].name == name
                            &&& rest.bindings[i].slot == slot
                            &&& forall|j: int|
                                0 <= j < i ==> (#[trigger] rest.bindings[j]).name != name
                        };
                    assert(bindings[i + 1] == rest.bindings[i]);
                    assert forall|j: int| 0 <= j < i + 1 implies (#[trigger] bindings[j]).name
                        != name by {
                        if j > 0 {
                            assert(bindings[j] == rest.bindings[j - 1]);
                        }
                    }
                    assert(bindings[i + 1].name == name && bindings[i + 1].slot == slot);
                },
                None => {
                    assert forall|i: int| 0 <= i < bindings.len() implies (#[trigger] bindings[i]).name
                        != name by {
                        if i > 0 {
                            assert(bindings[i] == rest.bindings[i - 1]);
                        }
                    }
                },
            }
        }
    }
}

/// Two slots that are both unknown unify, and the scope stays as it is.
pub proof fn lemma_unknown_slots_unify(scope: ScopeView, a: int, b: int)
    requires
        scope.has_slot(a),
        scope.has_slot(b),
        scope.slots[a] == Type::Unknown,
        scope.slots[b] == Type::Unknown,
    ensures
        scope.unify(a, b) == Ok::<ScopeView, ErrorView>(scope),
{
    assert(scope.slots.update(a, Type::Unknown).update(b, Type::Unknown) =~= scope.slots);
}

/// Unifying two slots again is a unification that succeeds and changes nothing.
pub proof fn lemma_slots_unify_idempotent(scope: ScopeView, a: int, b: int)
    requires
        scope.has_slot(a),
        scope.has_slot(b),
    ensures
        scope.unify(a, b) matches Ok(after) ==> after.unify(a, b) == Ok::<ScopeView, ErrorView>(
            after,
        ),
{
    if let Ok(after) = scope.unify(a, b) {
        let x = after.slots[a];
        let y = after.slots[b];
        assert(after.slots.update(a, x).update(b, y) =~= after.slots);
    }
}

/// Two slots that hold different concrete types do not unify, and the error
/// reports both types.
pub proof fn lemma_slots_mismatch(scope: ScopeView, a: int, b: int)
    requires
        scope.has_slot(a),
        scope.has_slot(b),
    ensures
        scope.slots[a].is_concrete() && scope.slots[b].is_concrete() && scope.slots[a]
            != scope.slots[b] ==> scope.unify(a, b) == Err::<ScopeView, ErrorView>(
            ErrorView::TypeMismatch { expected: scope.slots[a], found: scope.slots[b] },
        ),
{
}

/// A type that unification writes to a slot is the type of every name that
/// is bound to the slot.
pub proof fn lemma_unify_reaches_every_name(scope: ScopeView, a: int, b: int, name: Seq<char>)
    requires
        scope.has_slot(a),
        scope.has_slot(b),
        scope.lookup(name) == Some(a) || scope.lookup(name) == Some(b),
    ensures
        scope.unify(a, b) matches Ok(after) ==> {
            &&& after.lookup(name) == scope.lookup(name)
            &&& unified(scope.slots[a], scope.slots[b]) matches Some(types)
            &&& after.type_of(name) == Some(
                if scope.lookup(name) == Some(b) {
                    types.1
                } else {
                    types.0
                },
            )
        },
{
}

/// One link of the chain: a binding and the chain before it.
#[derive(Debug)]
struct Node<'a> {
    prev: Option<Rc<Node<'a>>>,
    name: &'a str,
    slot: usize,
}

/// A chain of bindings and the slots that they name.
///
/// A new binding is put in front of the chain and points to the chain before
/// it, which is never changed.
#[derive(Debug)]
pub struct Scope<'a> {
    head: Option<Rc<Node<'a>>>,
    slots: Vec<Type>,
}

/// The bindings of a chain, the newest first.
spec fn chain<'a>(head: Option<Rc<Node<'a>>>) -> Seq<Binding>
    decreases head,
{
    match head {
        None => Seq::empty(),
        Some(node) => seq![Binding { name: node.name@, slot: node.slot as int }] + chain(node.prev),
    }
}

impl<'a> View for Scope<'a> {
    type V = ScopeView;

    closed spec fn view(&self) -> ScopeView {
        ScopeView { bindings: chain(self.head), slots: self.slots@ }
    }
}

impl<'a> Scope<'a> {

    /// The scope without bindings or slots.
    pub fn new() -> (scope: Scope<'a>)
        ensures
            scope@ == ScopeView::empty(),
    {
        let scope = Scope { head: None, slots: Vec::new() };
        assert(scope@.bindings =~= Seq::empty());
        scope
    }

    /// The number of slots.
    pub fn slot_count(&self) -> (count: usize)
        ensures
            count == self@.slots.len(),
    {
        self.slots.len()
    }

    /// Makes a new slot that holds `ty`.
    pub fn fresh_slot(&mut self, ty: Type) -> (slot: usize)
        requires
            old(self)@.well_formed(),
        ensures
            slot == old(self)@.slots.len(),
            final(self)@ == old(self)@.with_slot(ty),
            final(self)@.well_formed(),
    {
        proof {
            lemma_with_slot_well_formed(self@, ty);
        }
        let slot: usize = self.slots.len();
        self.slots.push(ty);
        slot
    }

    /// Binds `name` to `slot`, in front of every earlier binding.
    pub fn insert(&mut self, name: &'a str, slot: usize)
        requires
            old(self)@.well_formed(),
            old(self)@.has_slot(slot as int),
        ensures
            final(self)@ == old(self)@.bind(name@, slot as int),
            final(self)@.well_formed(),
    {
        proof {
            lemma_bind_well_formed(self@, name@, slot as int);
        }
        let prev = self.head.take();
        self.head = Some(Rc::new(Node { prev, name, slot }));
    }

    /// The slot of the newest binding of `name`.
    pub fn get(&self, name: &str) -> (slot: Option<usize>)
        requires
            self@.well_formed(),
        ensures
            match slot {
                Some(found) => self@.lookup(name@) == Some(found as int) && self@.has_slot(found as int),
                None => self@.lookup(name@) is None,
            },
    {
        proof {
            lemma_lookup_has_slot(self@, name@);
        }
        let mut cur = &self.head;
        loop
            invariant
                self@.lookup(name@) == find(chain(*cur), name@),
                self@.lookup(name@) matches Some(slot) ==> self@.has_slot(slot),
            decreases *cur,
        {
            match cur {
                None => {
                    return None;
                },
                Some(node) => {
                    assert(chain(*cur).drop_first() =~= chain(node.prev));
                    assert(chain(*cur)[0] == Binding { name: node.name@, slot: node.slot as int });
                    if same_text(node.name, name) {
                        return Some(node.slot);
                    }
                    cur = &node.prev;
                },
            }
        }
    }

    /// The type that `slot` holds.
    pub fn slot_type(&self, slot: usize) -> (ty: Type)
        requires
            self@.has_slot(slot as int),
        ensures
            ty == self@.slots[slot as int],
    {
        self.slots[slot]
    }

    /// The type that `name` has now.
    pub fn type_of(&self, name: &str) -> (ty: Option<Type>)
        requires
            self@.well_formed(),
        ensures
            ty == self@.type_of(name@),
    {
        match self.get(name) {
            Some(slot) => Some(self.slots[slot]),
            None => None,
        }
    }

    /// Unifies two slots. On a mismatch the scope is unchanged.
    pub fn unify(&mut self, a: usize, b: usize) -> (result: Result<(), Error>)
        requires
            old(self)@.well_formed(),
            old(self)@.has_slot(a as int),
            old(self)@.has_slot(b as int),
        ensures
            match old(self)@.unify(a as int, b as int) {
                Ok(scope) => result is Ok && final(self)@ == scope,
                Err(e) => result matches Err(x) && x@ == e && final(self)@ == old(self)@,
            },
            final(self)@.well_formed(),
    {
        proof {
            lemma_unify_well_formed(self@, a as int, b as int);
        }
        let mut x: Type = self.slots[a];
        let mut y: Type = self.slots[b];
        unify_types(&mut x, &mut y)?;
        self.slots.set(a, x);
        self.slots.set(b, y);
        Ok(())
    }

    /// Unifies a slot with a type that no slot holds, such as a declared
    /// return type. On a mismatch the scope is unchanged.
    pub fn unify_with(&mut self, slot: usize, ty: Type) -> (result: Result<(), Error>)
        requires
            old(self)@.well_formed(),
            old(self)@.has_slot(slot as int),
        ensures
            match old(self)@.unify_with(slot as int, ty) {
                Ok(scope) => result is Ok && final(self)@ == scope,
                Err(e) => result matches Err(x) && x@ == e && final(self)@ == old(self)@,
            },
            final(self)@.well_formed(),
    {
        proof {
            lemma_unify_with_well_formed(self@, slot as int, ty);
        }
        let mut x: Type = ty;
        let mut y: Type = self.slots[slot];
        unify_types(&mut x, &mut y)?;
        self.slots.set(slot, y);
        Ok(())
    }
}

/// A slot that is found belongs to a binding.
pub proof fn lemma_find_bound(bindings: Seq<Binding>, name: Seq<char>)
    ensures
        find(bindings, name) matches Some(slot) ==> exists|i: int|
            0 <= i < bindings.len() && bindings[i].name == name && #[trigger] bindings[i].slot == slot,
    decreases bindings.len(),
{
    if bindings.len() > 0 && bindings[0].name != name {
        lemma_find_bound(bindings.drop_first(), name);
        if find(bindings, name) is Some {
            let i = choose|i: int|
                0 <= i < bindings.drop_first().len() && bindings.drop_first()[i].name == name
                    && #[trigger] bindings.drop_first()[i].slot == find(bindings, name)->0;
            assert(bindings[i + 1].slot == find(bindings, name)->0);
        }
    }
}

} // verus!
