use tinyfront::scope::Scope;
use tinyfront::types::Type;

#[test]
fn new_scope_is_empty() {
    let scope = Scope::new();
    assert_eq!(scope.slot_count(), 0);
    assert_eq!(scope.get("x"), None);
    assert_eq!(scope.type_of("x"), None);
}

#[test]
fn slots_are_numbered_in_order() {
    let mut scope = Scope::new();
    assert_eq!(scope.fresh_slot(Type::Int), 0);
    assert_eq!(scope.fresh_slot(Type::Unknown), 1);
    assert_eq!(scope.slot_count(), 2);
    assert_eq!(scope.slot_type(0), Type::Int);
    assert_eq!(scope.slot_type(1), Type::Unknown);
}

#[test]
fn newest_binding_shadows_older_one() {
    let mut scope = Scope::new();
    let first = scope.fresh_slot(Type::Int);
    let second = scope.fresh_slot(Type::Unknown);
    scope.insert("x", first);
    scope.insert("y", first);
    scope.insert("x", second);
    assert_eq!(scope.get("x"), Some(second));
    assert_eq!(scope.get("y"), Some(first));
    assert_eq!(scope.get("z"), None);
    assert_eq!(scope.type_of("x"), Some(Type::Unknown));
    assert_eq!(scope.type_of("y"), Some(Type::Int));
}

#[test]
fn names_are_compared_by_their_text() {
    let mut scope = Scope::new();
    let slot = scope.fresh_slot(Type::Int);
    scope.insert("abc", slot);
    let name = String::from("ab") + "c";
    assert_eq!(scope.get(&name), Some(slot));
    assert_eq!(scope.get("ab"), None);
    assert_eq!(scope.get("abcd"), None);
    assert_eq!(scope.get("ABC"), None);
}

#[test]
fn names_that_share_a_slot_see_its_type() {
    let mut scope = Scope::new();
    let shared = scope.fresh_slot(Type::Unknown);
    let other = scope.fresh_slot(Type::Int);
    scope.insert("a", shared);
    scope.insert("b", shared);
    assert_eq!(scope.unify(shared, other), Ok(()));
    assert_eq!(scope.type_of("a"), Some(Type::Int));
    assert_eq!(scope.type_of("b"), Some(Type::Int));
    assert_eq!(scope.slot_type(other), Type::Int);
}

#[test]
fn unifying_slots_fills_the_unknown_side() {
    let mut scope = Scope::new();
    let known = scope.fresh_slot(Type::Int);
    let open = scope.fresh_slot(Type::Unknown);
    assert_eq!(scope.unify(known, open), Ok(()));
    assert_eq!(scope.slot_type(known), Type::Int);
    assert_eq!(scope.slot_type(open), Type::Int);
}

#[test]
fn unifying_two_unknown_slots_links_nothing() {
    let mut scope = Scope::new();
    let a = scope.fresh_slot(Type::Unknown);
    let b = scope.fresh_slot(Type::Unknown);
    let int = scope.fresh_slot(Type::Int);
    assert_eq!(scope.unify(a, b), Ok(()));
    assert_eq!(scope.unify(a, b), Ok(()));
    assert_eq!(scope.slot_type(a), Type::Unknown);
    assert_eq!(scope.slot_type(b), Type::Unknown);
    assert_eq!(scope.unify(a, int), Ok(()));
    assert_eq!(scope.slot_type(a), Type::Int);
    assert_eq!(scope.slot_type(b), Type::Unknown);
}

#[test]
fn a_slot_unifies_with_itself() {
    let mut scope = Scope::new();
    let a = scope.fresh_slot(Type::Unknown);
    let b = scope.fresh_slot(Type::Int);
    assert_eq!(scope.unify(a, a), Ok(()));
    assert_eq!(scope.unify(b, b), Ok(()));
    assert_eq!(scope.slot_type(a), Type::Unknown);
    assert_eq!(scope.slot_type(b), Type::Int);
}

#[test]
fn unifying_with_a_type_fills_an_unknown_slot() {
    let mut scope = Scope::new();
    let open = scope.fresh_slot(Type::Unknown);
    let known = scope.fresh_slot(Type::Int);
    assert_eq!(scope.unify_with(open, Type::Int), Ok(()));
    assert_eq!(scope.unify_with(known, Type::Int), Ok(()));
    assert_eq!(scope.unify_with(known, Type::Unknown), Ok(()));
    assert_eq!(scope.slot_type(open), Type::Int);
    assert_eq!(scope.slot_type(known), Type::Int);
}
