use tinyfront::parser::ast::{Declaration, Expr, Function, Statement, Type};
use tinyfront::parser::parse;

fn write_names(out: &mut String, names: &[&str]) {
    for (i, name) in names.iter().enumerate() {
        if i > 0 {
            out.push_str(", ");
        }
        out.push_str(name);
        out.push(' ');
    }
}

fn write_group(out: &mut String, group: &Declaration) {
    write_names(out, &group.idents);
    out.push_str(": ");
    out.push_str(group.ty.as_ref().unwrap().ident);
    out.push(' ');
}

fn write_groups(out: &mut String, groups: &[Declaration]) {
    for (i, group) in groups.iter().enumerate() {
        if i > 0 {
            out.push_str(", ");
        }
        write_group(out, group);
    }
}

fn write_atom(out: &mut String, atom: &Expr) {
    match atom {
        Expr::IntLiteral(text) | Expr::Ident(text) => {
            out.push_str(text);
            out.push(' ');
        }
        Expr::Tuple(_) => unreachable!(),
    }
}

fn write_expr(out: &mut String, expr: &Expr) {
    match expr {
        Expr::Tuple(parts) => {
            for (i, part) in parts.iter().enumerate() {
                if i > 0 {
                    out.push_str(", ");
                }
                write_atom(out, part);
            }
        }
        atom => write_atom(out, atom),
    }
}

fn write_statement(out: &mut String, statement: &Statement) {
    match statement {
        Statement::Return(expr) => {
            out.push_str("return ");
            write_expr(out, expr);
        }
        Statement::Assignment { idents, expr } => {
            write_names(out, idents);
            out.push_str("= ");
            write_expr(out, expr);
        }
        Statement::Declaration { decls, expr } => {
            if decls[0].ty.is_some() {
                write_groups(out, decls);
            } else {
                let names: Vec<&str> = decls.iter().map(|group| group.idents[0]).collect();
                write_names(out, &names);
                out.push_str(": ");
            }
            if let Some(expr) = expr {
                out.push_str("= ");
                write_expr(out, expr);
            }
        }
    }
}

fn write_function(function: &Function) -> String {
    let mut out = String::from("fn ");
    out.push_str(function.name);
    out.push_str(" ( ");
    write_groups(&mut out, &function.params);
    out.push_str(") ");
    if !function.rets.is_empty() {
        out.push_str("-> ");
        let names: Vec<&str> = function.rets.iter().map(|ty| ty.ident).collect();
        write_names(&mut out, &names);
    }
    out.push_str("{ ");
    for statement in &function.statements {
        write_statement(&mut out, statement);
    }
    out.push_str("} ");
    out
}

fn typed(idents: Vec<&'static str>, ty: &'static str) -> Declaration<'static> {
    Declaration { idents, ty: Some(Type { ident: ty }) }
}

fn untyped(ident: &'static str) -> Declaration<'static> {
    Declaration { idents: vec![ident], ty: None }
}

fn reads_back(function: Function<'static>) {
    let text = write_function(&function);
    assert_eq!(parse(&text), Ok(function), "{}", text);
}

#[test]
fn smallest_function_reads_back() {
    reads_back(Function { name: "f", params: vec![], rets: vec![], statements: vec![] });
}

#[test]
fn written_text_has_one_space_behind_each_token() {
    let function = Function {
        name: "f",
        params: vec![typed(vec!["x"], "int")],
        rets: vec![Type { ident: "int" }],
        statements: vec![Statement::Return(Expr::Ident("x"))],
    };
    assert_eq!(write_function(&function), "fn f ( x : int ) -> int { return x } ");
    reads_back(function);
}

#[test]
fn function_with_every_form_reads_back() {
    reads_back(Function {
        name: "every1",
        params: vec![typed(vec!["a", "b"], "int"), typed(vec!["c"], "other")],
        rets: vec![Type { ident: "int" }, Type { ident: "T2" }],
        statements: vec![
            Statement::Declaration {
                decls: vec![untyped("x"), untyped("y")],
                expr: Some(Expr::Tuple(vec![Expr::IntLiteral("10"), Expr::Ident("a")])),
            },
            Statement::Declaration { decls: vec![untyped("z")], expr: Some(Expr::Ident("x")) },
            Statement::Declaration {
                decls: vec![typed(vec!["p", "q"], "int"), typed(vec!["r"], "int")],
                expr: Some(Expr::Tuple(vec![
                    Expr::IntLiteral("1"),
                    Expr::IntLiteral("2"),
                    Expr::Ident("z"),
                ])),
            },
            Statement::Declaration { decls: vec![typed(vec!["u"], "int")], expr: None },
            Statement::Assignment { idents: vec!["u"], expr: Expr::IntLiteral("007") },
            Statement::Assignment {
                idents: vec!["a", "returned"],
                expr: Expr::Tuple(vec![Expr::Ident("b"), Expr::Ident("a")]),
            },
            Statement::Return(Expr::Tuple(vec![Expr::Ident("u"), Expr::Ident("returns")])),
            Statement::Return(Expr::IntLiteral("0")),
        ],
    });
}

#[test]
fn unicode_names_and_numbers_read_back() {
    reads_back(Function {
        name: "größe",
        params: vec![typed(vec!["ä", "böse"], "zahl")],
        rets: vec![],
        statements: vec![Statement::Assignment { idents: vec!["ä"], expr: Expr::IntLiteral("٣٤") }],
    });
}
