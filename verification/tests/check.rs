use tinyfront::error::{ArityContext, Error};
use tinyfront::parser::ast::{Declaration, Expr, Function, Statement, Type as Written};
use tinyfront::parser::parse;
use tinyfront::types::{convert_type, type_check_function, unify_types, Type};

fn check(source: &str) -> Result<Vec<(String, Option<Type>)>, Error> {
    let function = parse(source).unwrap();
    let scope = type_check_function(&function)?;
    let mut names: Vec<&str> = Vec::new();
    for group in &function.params {
        names.extend(group.idents.iter().copied());
    }
    for statement in &function.statements {
        if let Statement::Declaration { decls, .. } = statement {
            for group in decls {
                names.extend(group.idents.iter().copied());
            }
        }
    }
    Ok(names.into_iter().map(|name| (name.to_string(), scope.type_of(name))).collect())
}

fn resolved(names: &[&str], ty: Type) -> Result<Vec<(String, Option<Type>)>, Error> {
    Ok(names.iter().map(|name| (name.to_string(), Some(ty))).collect())
}

fn arity(expected_count: usize, found_count: usize, context: ArityContext) -> Error {
    Error::ArityMismatch { expected_count, found_count, context }
}

#[test]
fn parameter_resolves_to_its_declared_type() {
    assert_eq!(check("fn f(x: int) -> int { return x }"), resolved(&["x"], Type::Int));
}

#[test]
fn declaration_takes_the_type_of_its_value() {
    assert_eq!(check("fn f(x: int) -> int { y := x  return y }"), resolved(&["x", "y"], Type::Int));
}

#[test]
fn literal_makes_a_declaration_an_integer() {
    assert_eq!(check("fn f() { a := 1 }"), resolved(&["a"], Type::Int));
}

#[test]
fn too_few_returned_values_are_an_arity_mismatch() {
    assert_eq!(check("fn f() -> int, int { return 1 }"), Err(arity(2, 1, ArityContext::Return)));
}

#[test]
fn too_many_returned_values_are_an_arity_mismatch() {
    assert_eq!(check("fn f() { return 1, 2 }"), Err(arity(0, 2, ArityContext::Return)));
}

#[test]
fn assignment_to_an_unknown_name_is_undeclared() {
    assert_eq!(check("fn f() { x = 1 }"), Err(Error::UndeclaredIdentifier { name: "x".to_string() }));
}

#[test]
fn reading_an_unknown_name_is_undeclared() {
    assert_eq!(
        check("fn f() -> int { return y }"),
        Err(Error::UndeclaredIdentifier { name: "y".to_string() })
    );
    assert_eq!(check("fn f() { a := a }"), Err(Error::UndeclaredIdentifier { name: "a".to_string() }));
}

#[test]
fn targets_are_looked_up_before_the_values() {
    assert_eq!(
        check("fn f() { a, b = c, d, e }"),
        Err(Error::UndeclaredIdentifier { name: "a".to_string() })
    );
    assert_eq!(
        check("fn f(a: int) { a, b = c }"),
        Err(Error::UndeclaredIdentifier { name: "b".to_string() })
    );
    assert_eq!(
        check("fn f(a: int) { a = c, a }"),
        Err(Error::UndeclaredIdentifier { name: "c".to_string() })
    );
}

#[test]
fn tuple_declaration_binds_each_identifier() {
    assert_eq!(check("fn f() { a, b := 1, 2 }"), resolved(&["a", "b"], Type::Int));
}

#[test]
fn tuple_declaration_needs_a_value_for_each_identifier() {
    assert_eq!(check("fn f() { a, b := 1 }"), Err(arity(2, 1, ArityContext::Declaration)));
    assert_eq!(
        check("fn f() { a, b: int, c: int = 1, 2 }"),
        Err(arity(3, 2, ArityContext::Declaration))
    );
    assert_eq!(check("fn f() { a := 1, 2 }"), Err(arity(1, 2, ArityContext::Declaration)));
}

#[test]
fn assignment_needs_a_value_for_each_target() {
    assert_eq!(check("fn f(a, b: int) { a, b = 1 }"), Err(arity(2, 1, ArityContext::Assignment)));
    assert_eq!(check("fn f(a: int) { a = 1, 2, 3 }"), Err(arity(1, 3, ArityContext::Assignment)));
}

#[test]
fn values_are_found_before_the_identifiers_are_declared() {
    assert_eq!(check("fn f(a, b: int) { b, a := a, b }"), resolved(&["a", "b", "b", "a"], Type::Int));
    assert_eq!(
        check("fn f() { a, b := 1, a }"),
        Err(Error::UndeclaredIdentifier { name: "a".to_string() })
    );
}

#[test]
fn unknown_type_name_is_an_error() {
    assert_eq!(
        check("fn f(x: float) {}"),
        Err(Error::UnknownTypeName { name: "float".to_string() })
    );
    assert_eq!(
        check("fn f() { a: string = 1 }"),
        Err(Error::UnknownTypeName { name: "string".to_string() })
    );
    assert_eq!(
        check("fn f() -> Int { return 1 }"),
        Err(Error::UnknownTypeName { name: "Int".to_string() })
    );
}

#[test]
fn unused_return_type_is_not_converted() {
    assert_eq!(check("fn f() -> float { }"), Ok(vec![]));
    assert_eq!(check("fn f() -> float { a := 1 }"), resolved(&["a"], Type::Int));
}

#[test]
fn arity_is_checked_before_the_types_are_converted() {
    assert_eq!(check("fn f() -> float { return 1, 2 }"), Err(arity(1, 2, ArityContext::Return)));
    assert_eq!(check("fn f() { a: float = 1, 2 }"), Err(arity(1, 2, ArityContext::Declaration)));
}

#[test]
fn the_first_failing_statement_is_reported() {
    assert_eq!(
        check("fn f() -> int { a = 1  return 1, 2 }"),
        Err(Error::UndeclaredIdentifier { name: "a".to_string() })
    );
    assert_eq!(
        check("fn f() -> int { return 1, 2  a = 1 }"),
        Err(arity(1, 2, ArityContext::Return))
    );
}

#[test]
fn declaration_without_type_or_value_stays_unknown() {
    let function = Function {
        name: "f",
        params: vec![Declaration { idents: vec!["p"], ty: None }],
        rets: vec![],
        statements: vec![Statement::Declaration {
            decls: vec![Declaration { idents: vec!["a"], ty: None }],
            expr: None,
        }],
    };
    let scope = type_check_function(&function).unwrap();
    assert_eq!(scope.type_of("p"), Some(Type::Unknown));
    assert_eq!(scope.type_of("a"), Some(Type::Unknown));
    assert_eq!(scope.type_of("b"), None);
}

#[test]
fn declaration_that_is_read_without_type_or_value_stays_unknown() {
    let unknown: Result<Vec<(String, Option<Type>)>, Error> = Ok(vec![
        ("x".to_string(), Some(Type::Int)),
        ("a".to_string(), Some(Type::Unknown)),
        ("b".to_string(), Some(Type::Unknown)),
    ]);
    assert_eq!(check("fn f(x: int) { a, b : }"), unknown);
}

#[test]
fn unknown_takes_a_type_at_every_use_of_the_variable() {
    let function = Function {
        name: "f",
        params: vec![Declaration { idents: vec!["p", "q"], ty: None }],
        rets: vec![Written { ident: "int" }],
        statements: vec![
            Statement::Declaration {
                decls: vec![Declaration { idents: vec!["a"], ty: None }],
                expr: Some(Expr::Ident("p")),
            },
            Statement::Return(Expr::Ident("p")),
        ],
    };
    let scope = type_check_function(&function).unwrap();
    assert_eq!(scope.type_of("p"), Some(Type::Int));
    assert_eq!(scope.type_of("q"), Some(Type::Unknown));
    assert_eq!(scope.type_of("a"), Some(Type::Unknown));
}

#[test]
fn annotated_declaration_gives_its_type_to_an_unknown_value() {
    let function = Function {
        name: "f",
        params: vec![Declaration { idents: vec!["p"], ty: None }],
        rets: vec![],
        statements: vec![Statement::Declaration {
            decls: vec![Declaration { idents: vec!["a"], ty: Some(Written { ident: "int" }) }],
            expr: Some(Expr::Ident("p")),
        }],
    };
    let scope = type_check_function(&function).unwrap();
    assert_eq!(scope.type_of("p"), Some(Type::Int));
    assert_eq!(scope.type_of("a"), Some(Type::Int));
}

#[test]
fn redeclaration_shadows() {
    let function = Function {
        name: "f",
        params: vec![Declaration { idents: vec!["a"], ty: Some(Written { ident: "int" }) }],
        rets: vec![],
        statements: vec![Statement::Declaration {
            decls: vec![Declaration { idents: vec!["a"], ty: None }],
            expr: None,
        }],
    };
    let scope = type_check_function(&function).unwrap();
    assert_eq!(scope.type_of("a"), Some(Type::Unknown));
    assert_eq!(scope.get("a"), Some(1));
    assert_eq!(scope.slot_type(0), Type::Int);
}

#[test]
fn tuple_inside_a_tuple_is_not_supported() {
    let function = Function {
        name: "f",
        params: vec![],
        rets: vec![],
        statements: vec![Statement::Return(Expr::Tuple(vec![
            Expr::IntLiteral("1"),
            Expr::Tuple(vec![Expr::IntLiteral("2")]),
        ]))],
    };
    assert_eq!(type_check_function(&function).err(), Some(Error::UnsupportedConstruct));
}

#[test]
fn parameter_without_identifiers_declares_nothing() {
    let function = Function {
        name: "f",
        params: vec![Declaration { idents: vec![], ty: Some(Written { ident: "float" }) }],
        rets: vec![],
        statements: vec![],
    };
    let scope = type_check_function(&function).unwrap();
    assert_eq!(scope.slot_count(), 0);
}

#[test]
fn every_literal_and_declaration_gets_a_slot() {
    let function = parse("fn f(x: int) { a, b := 1, x  a = 2 }").unwrap();
    let scope = type_check_function(&function).unwrap();
    assert_eq!(scope.slot_count(), 5);
    assert_eq!(scope.get("x"), Some(0));
    assert_eq!(scope.get("a"), Some(2));
    assert_eq!(scope.get("b"), Some(3));
}

#[test]
fn int_is_the_only_type_name() {
    assert_eq!(convert_type(&Written { ident: "int" }), Ok(Type::Int));
    assert_eq!(
        convert_type(&Written { ident: "in" }),
        Err(Error::UnknownTypeName { name: "in".to_string() })
    );
    assert_eq!(
        convert_type(&Written { ident: "" }),
        Err(Error::UnknownTypeName { name: String::new() })
    );
}

#[test]
fn unifying_two_unknowns_changes_neither() {
    let mut a = Type::Unknown;
    let mut b = Type::Unknown;
    assert_eq!(unify_types(&mut a, &mut b), Ok(()));
    assert_eq!((a, b), (Type::Unknown, Type::Unknown));
    assert_eq!(unify_types(&mut a, &mut b), Ok(()));
    assert_eq!((a, b), (Type::Unknown, Type::Unknown));
}

#[test]
fn unknown_takes_the_type_of_the_other_side() {
    let mut a = Type::Int;
    let mut b = Type::Unknown;
    assert_eq!(unify_types(&mut a, &mut b), Ok(()));
    assert_eq!((a, b), (Type::Int, Type::Int));
    let mut c = Type::Unknown;
    let mut d = Type::Int;
    assert_eq!(unify_types(&mut c, &mut d), Ok(()));
    assert_eq!((c, d), (Type::Int, Type::Int));
}

#[test]
fn unifying_again_changes_nothing() {
    let mut a = Type::Unknown;
    let mut b = Type::Int;
    assert_eq!(unify_types(&mut a, &mut b), Ok(()));
    let once = (a, b);
    assert_eq!(unify_types(&mut a, &mut b), Ok(()));
    assert_eq!((a, b), once);
}

#[test]
fn equal_concrete_types_unify() {
    let mut a = Type::Int;
    let mut b = Type::Int;
    assert_eq!(unify_types(&mut a, &mut b), Ok(()));
    assert_eq!((a, b), (Type::Int, Type::Int));
}
