use tinyfront::error::Error;
use tinyfront::parser::ast::{Declaration, Expr, Function, Statement, Type};
use tinyfront::parser::glyph::Glyph;
use tinyfront::parser::token::{Expected, Symbol};
use tinyfront::parser::{parse, parse_glyphs};

fn int_type() -> Type<'static> {
    Type { ident: "int" }
}

fn missing(line: usize, column: usize, expected: Expected) -> Error {
    Error::ParseError { line, column, expected }
}

#[test]
fn parses_function_with_parameter_and_return() {
    let function = parse("fn f(x: int) -> int { return x }").unwrap();
    assert_eq!(function.name, "f");
    assert_eq!(function.params.len(), 1);
    assert_eq!(function.params[0].idents, vec!["x"]);
    assert_eq!(function.params[0].ty, Some(int_type()));
    assert_eq!(function.rets, vec![int_type()]);
    assert_eq!(function.statements, vec![Statement::Return(Expr::Ident("x"))]);
}

#[test]
fn parses_function_without_parameters_or_statements() {
    assert_eq!(
        parse("fn f() {}"),
        Ok(Function { name: "f", params: vec![], rets: vec![], statements: vec![] })
    );
}

#[test]
fn parses_several_return_types() {
    let function = parse("fn f() -> int, int { return 1 }").unwrap();
    assert_eq!(function.rets, vec![int_type(), int_type()]);
    assert_eq!(function.statements, vec![Statement::Return(Expr::IntLiteral("1"))]);
}

#[test]
fn parses_parameter_groups() {
    let function = parse("fn sum(a, b: int, c: int) {}").unwrap();
    assert_eq!(
        function.params,
        vec![
            Declaration { idents: vec!["a", "b"], ty: Some(int_type()) },
            Declaration { idents: vec!["c"], ty: Some(int_type()) },
        ]
    );
}

#[test]
fn parses_untyped_declaration_as_one_group_for_each_identifier() {
    let function = parse("fn f() { a, b := 1, 2 }").unwrap();
    assert_eq!(
        function.statements,
        vec![Statement::Declaration {
            decls: vec![
                Declaration { idents: vec!["a"], ty: None },
                Declaration { idents: vec!["b"], ty: None },
            ],
            expr: Some(Expr::Tuple(vec![Expr::IntLiteral("1"), Expr::IntLiteral("2")])),
        }]
    );
}

#[test]
fn parses_typed_declaration_with_more_groups_and_values() {
    let function = parse("fn f() { a, b: int, c: int = 1, b, 3 }").unwrap();
    assert_eq!(
        function.statements,
        vec![Statement::Declaration {
            decls: vec![
                Declaration { idents: vec!["a", "b"], ty: Some(int_type()) },
                Declaration { idents: vec!["c"], ty: Some(int_type()) },
            ],
            expr: Some(Expr::Tuple(vec![
                Expr::IntLiteral("1"),
                Expr::Ident("b"),
                Expr::IntLiteral("3"),
            ])),
        }]
    );
}

#[test]
fn parses_declaration_without_value() {
    let function = parse("fn f() { a: int }").unwrap();
    assert_eq!(
        function.statements,
        vec![Statement::Declaration {
            decls: vec![Declaration { idents: vec!["a"], ty: Some(int_type()) }],
            expr: None,
        }]
    );
}

#[test]
fn parses_declaration_without_type_or_value() {
    let function = parse("fn f() { a, b : }").unwrap();
    assert_eq!(
        function.statements,
        vec![Statement::Declaration {
            decls: vec![
                Declaration { idents: vec!["a"], ty: None },
                Declaration { idents: vec!["b"], ty: None },
            ],
            expr: None,
        }]
    );
}

#[test]
fn an_identifier_behind_the_colon_is_the_type() {
    let function = parse("fn f() { a : b = 1 }").unwrap();
    assert_eq!(
        function.statements,
        vec![Statement::Declaration {
            decls: vec![Declaration { idents: vec!["a"], ty: Some(Type { ident: "b" }) }],
            expr: Some(Expr::IntLiteral("1")),
        }]
    );
}

#[test]
fn parses_assignment_to_several_targets() {
    let function = parse("fn f(a, b: int) { a, b = b, a }").unwrap();
    assert_eq!(
        function.statements,
        vec![Statement::Assignment {
            idents: vec!["a", "b"],
            expr: Expr::Tuple(vec![Expr::Ident("b"), Expr::Ident("a")]),
        }]
    );
}

#[test]
fn parses_statements_that_only_white_space_separates() {
    let function = parse("fn f(x: int) -> int { y := x  return y }").unwrap();
    assert_eq!(
        function.statements,
        vec![
            Statement::Declaration {
                decls: vec![Declaration { idents: vec!["y"], ty: None }],
                expr: Some(Expr::Ident("x")),
            },
            Statement::Return(Expr::Ident("y")),
        ]
    );
}

#[test]
fn white_space_is_free_between_tokens() {
    let spread = parse("  fn\tf (\n x ,y :int )->int{x=1 return x,y}trailing").unwrap();
    let dense = parse("fn f(x,y:int)->int{x=1 return x,y}").unwrap();
    assert_eq!(spread, dense);
}

#[test]
fn colon_and_assign_may_stand_apart() {
    assert_eq!(parse("fn f() { a : = 1 }"), parse("fn f() { a := 1 }"));
}

#[test]
fn symbols_need_no_space_behind_them() {
    let function = parse("fnf(){}").unwrap();
    assert_eq!(function.name, "f");
}

#[test]
fn identifiers_and_literals_follow_unicode() {
    let function = parse("fn größe(ä1: int) { ä1 = ٣ }").unwrap();
    assert_eq!(function.name, "größe");
    assert_eq!(function.params[0].idents, vec!["ä1"]);
    assert_eq!(
        function.statements,
        vec![Statement::Assignment { idents: vec!["ä1"], expr: Expr::IntLiteral("٣") }]
    );
}

#[test]
fn a_letter_that_is_a_number_reads_as_a_literal() {
    let function = parse("fn f() { return Ⅷ }").unwrap();
    assert_eq!(function.statements, vec![Statement::Return(Expr::IntLiteral("Ⅷ"))]);
}

#[test]
fn empty_source_misses_the_keyword() {
    assert_eq!(parse(""), Err(missing(1, 1, Expected::Symbol(Symbol::Fn))));
}

#[test]
fn missing_name_is_reported_behind_the_keyword() {
    assert_eq!(parse("fn (x: int) {}"), Err(missing(1, 4, Expected::Identifier)));
}

#[test]
fn missing_parenthesis_is_reported() {
    assert_eq!(parse("fn f {}"), Err(missing(1, 6, Expected::Symbol(Symbol::OpenParen))));
    assert_eq!(parse("fn f(x: int {}"), Err(missing(1, 13, Expected::Symbol(Symbol::CloseParen))));
}

#[test]
fn missing_colon_is_reported_at_the_next_token() {
    assert_eq!(parse("fn f(x int) {}"), Err(missing(1, 8, Expected::Symbol(Symbol::Colon))));
}

#[test]
fn a_literal_is_no_type_and_no_statement() {
    assert_eq!(parse("fn f() { a : 1 }"), Err(missing(1, 14, Expected::Statement)));
}

#[test]
fn missing_type_is_reported() {
    assert_eq!(parse("fn f(x: ) {}"), Err(missing(1, 9, Expected::Identifier)));
    assert_eq!(parse("fn f() -> {}"), Err(missing(1, 11, Expected::Identifier)));
    assert_eq!(parse("fn f() -> int, {}"), Err(missing(1, 16, Expected::Identifier)));
}

#[test]
fn missing_identifier_behind_a_comma_is_reported() {
    assert_eq!(parse("fn f(x, : int) {}"), Err(missing(1, 9, Expected::Identifier)));
    assert_eq!(parse("fn f() { a, = 1 }"), Err(missing(1, 13, Expected::Identifier)));
}

#[test]
fn missing_body_is_reported() {
    assert_eq!(parse("fn f()"), Err(missing(1, 7, Expected::Symbol(Symbol::OpenBrace))));
    assert_eq!(parse("fn f() -> int"), Err(missing(1, 14, Expected::Symbol(Symbol::OpenBrace))));
}

#[test]
fn missing_closing_brace_is_reported_at_the_end() {
    assert_eq!(parse("fn f() { a := 1 "), Err(missing(1, 17, Expected::Statement)));
    assert_eq!(parse("fn f() { 1 }"), Err(missing(1, 10, Expected::Statement)));
}

#[test]
fn missing_expression_is_reported() {
    assert_eq!(parse("fn f() { return }"), Err(missing(1, 17, Expected::Expression)));
    assert_eq!(parse("fn f() { a = 1, }"), Err(missing(1, 17, Expected::Expression)));
    assert_eq!(parse("fn f() { return"), Err(missing(1, 16, Expected::Expression)));
}

#[test]
fn identifiers_alone_are_no_statement() {
    assert_eq!(parse("fn f() { x }"), Err(missing(1, 12, Expected::AssignOrDeclare)));
    assert_eq!(parse("fn f() { x, y + 1 }"), Err(missing(1, 15, Expected::AssignOrDeclare)));
}

#[test]
fn lines_and_columns_follow_line_feeds() {
    assert_eq!(parse("fn f() {\n  x = \n}"), Err(missing(3, 1, Expected::Expression)));
    assert_eq!(parse("\n\nfn f(\n   x\n   int) {}"), Err(missing(5, 4, Expected::Symbol(Symbol::Colon))));
    assert_eq!(parse("fn f() {\n\treturn 1\n\t2\n}"), Err(missing(3, 2, Expected::Statement)));
}

#[test]
fn a_call_is_recognised_and_not_supported() {
    assert_eq!(parse("fn f() { g(1) }"), Err(Error::UnsupportedConstruct));
    assert_eq!(parse("fn f() { g () }"), Err(Error::UnsupportedConstruct));
    assert_eq!(parse("fn f() { return (1) }"), Err(Error::UnsupportedConstruct));
}

#[test]
fn the_first_error_ends_the_parse() {
    assert_eq!(parse("fn f(x int) { g(1) ) }"), Err(missing(1, 8, Expected::Symbol(Symbol::Colon))));
    assert_eq!(parse("fn f() { g(1) x }"), Err(Error::UnsupportedConstruct));
}

#[test]
fn classes_come_from_the_standard_library() {
    let letter = Glyph::classify('a');
    assert!(letter.alphabetic && !letter.numeric && !letter.whitespace);
    assert_eq!(letter.ch, 'a');
    let digit = Glyph::classify('7');
    assert!(!digit.alphabetic && digit.numeric && !digit.whitespace);
    let space = Glyph::classify('\n');
    assert!(!space.alphabetic && !space.numeric && space.whitespace);
    let sign = Glyph::classify('+');
    assert!(!sign.alphabetic && !sign.numeric && !sign.whitespace);
    let both = Glyph::classify('Ⅷ');
    assert!(both.alphabetic && both.numeric);
}

fn glyph(ch: char, alphabetic: bool, numeric: bool, whitespace: bool) -> Glyph {
    Glyph { ch, alphabetic, numeric, whitespace }
}

#[test]
fn given_classes_decide_what_a_character_is() {
    let source = "fn f(){a=_b}";
    let glyphs: Vec<Glyph> = source
        .chars()
        .map(|ch| match ch {
            '_' => glyph(ch, false, false, true),
            'b' => glyph(ch, false, true, false),
            _ => Glyph::classify(ch),
        })
        .collect();
    let function = parse_glyphs(source, glyphs).unwrap();
    assert_eq!(
        function.statements,
        vec![Statement::Assignment { idents: vec!["a"], expr: Expr::IntLiteral("b") }]
    );
}

#[test]
fn a_character_without_a_class_ends_a_token() {
    let source = "fn f(){ab=1}";
    let glyphs: Vec<Glyph> = source
        .chars()
        .map(|ch| match ch {
            'b' => glyph(ch, false, false, false),
            _ => Glyph::classify(ch),
        })
        .collect();
    assert_eq!(parse_glyphs(source, glyphs), Err(missing(1, 9, Expected::AssignOrDeclare)));
}
