use warden::ast::{Expr, Program, Stmt};
use warden::lexer::Lexer;
use warden::number::Number;
use warden::parser::Parser;

fn parse(src: &str) -> Result<Program, String> {
    let tokens = Lexer::new(src).tokenize().unwrap();
    Parser::new(tokens).parse_program()
}

fn num(text: &str) -> Expr {
    Expr::Number(Number::from_literal(text))
}

#[test]
fn parses_let_binding() {
    let prog = parse("let a = 5;").unwrap();
    assert_eq!(
        prog,
        vec![Stmt::Let {
            name: "a".to_string(),
            value: num("5.0"),
        }]
    );
}

#[test]
fn parses_move_then_use() {
    let prog = parse("let a = 5;\nlet b = a;\nprint(a);").unwrap();
    assert_eq!(prog.len(), 3);
    assert_eq!(prog[2], Stmt::Print(Expr::Ident("a".to_string())));
}

#[test]
fn parses_fn_def_and_call() {
    let prog = parse("fn consume(x) {\n  print(x);\n}\nconsume(a);").unwrap();
    assert_eq!(
        prog[0],
        Stmt::FnDef {
            name: "consume".to_string(),
            params: vec!["x".to_string()],
            body: vec![Stmt::Print(Expr::Ident("x".to_string()))],
        }
    );
    assert_eq!(
        prog[1],
        Stmt::ExprStmt(Expr::Call {
            callee: "consume".to_string(),
            args: vec![Expr::Ident("a".to_string())],
        })
    );
}

#[test]
fn rejects_missing_semicolon() {
    assert!(parse("let a = 5").is_err());
}

#[test]
fn parses_struct_def() {
    let prog = parse("struct Point { x, y }").unwrap();
    assert_eq!(
        prog,
        vec![Stmt::StructDef {
            name: "Point".to_string(),
            fields: vec!["x".to_string(), "y".to_string()],
        }]
    );
}

#[test]
fn parses_struct_literal_and_field_access() {
    let prog = parse("let p = Point { x: 1, y: 2 };\nprint(p.x);").unwrap();
    assert_eq!(
        prog[0],
        Stmt::Let {
            name: "p".to_string(),
            value: Expr::StructLit {
                name: "Point".to_string(),
                fields: vec![("x".to_string(), num("1.0")), ("y".to_string(), num("2.0"))],
            },
        }
    );
    assert_eq!(
        prog[1],
        Stmt::Print(Expr::Field {
            base: Box::new(Expr::Ident("p".to_string())),
            field: "x".to_string(),
        })
    );
}

#[test]
fn parses_if_else() {
    let prog = parse("if (a) {\n  print(a);\n} else {\n  print(b);\n}").unwrap();
    assert_eq!(
        prog[0],
        Stmt::If {
            cond: Expr::Ident("a".to_string()),
            then_branch: vec![Stmt::Print(Expr::Ident("a".to_string()))],
            else_branch: Some(vec![Stmt::Print(Expr::Ident("b".to_string()))]),
        }
    );
}

#[test]
fn parses_while_loop() {
    let prog = parse("while (a) {\n  print(a);\n}").unwrap();
    assert_eq!(
        prog[0],
        Stmt::While {
            cond: Expr::Ident("a".to_string()),
            body: vec![Stmt::Print(Expr::Ident("a".to_string()))],
        }
    );
}

#[test]
fn missing_semicolon_message_names_both_tokens() {
    assert_eq!(parse("let a = 5").unwrap_err(), "expected Semicolon, found Eof");
}

#[test]
fn identifier_in_message_is_quoted() {
    assert_eq!(parse("let a b;").unwrap_err(), "expected Equals, found Ident(\"b\")");
}

#[test]
fn expected_identifier_message() {
    assert_eq!(parse("let 5 = a;").unwrap_err(), "expected identifier, found Number(5.0)");
}

#[test]
fn unexpected_token_in_expression_message() {
    assert_eq!(parse("let a = ;").unwrap_err(), "unexpected token in expression: Semicolon");
}

#[test]
fn if_without_else_and_nested_fields() {
    let prog = parse("if (a.b.c) { }").unwrap();
    assert_eq!(
        prog[0],
        Stmt::If {
            cond: Expr::Field {
                base: Box::new(Expr::Field {
                    base: Box::new(Expr::Ident("a".to_string())),
                    field: "b".to_string(),
                }),
                field: "c".to_string(),
            },
            then_branch: vec![],
            else_branch: None,
        }
    );
}

#[test]
fn call_with_no_arguments_and_struct_literal_arguments() {
    let prog = parse("f();\ng(P { a: 1 }, 2);").unwrap();
    assert_eq!(
        prog,
        vec![
            Stmt::ExprStmt(Expr::Call { callee: "f".to_string(), args: vec![] }),
            Stmt::ExprStmt(Expr::Call {
                callee: "g".to_string(),
                args: vec![
                    Expr::StructLit { name: "P".to_string(), fields: vec![("a".to_string(), num("1"))] },
                    num("2"),
                ],
            }),
        ]
    );
}

#[test]
fn empty_program_parses_to_nothing() {
    assert_eq!(parse("").unwrap(), vec![]);
}

#[test]
fn truncated_sources_give_errors_without_reading_past_the_end() {
    for src in ["let", "let a", "let a =", "fn f(", "fn f(x", "fn f(x) {", "struct S {", "struct S { x", "if (a", "if (a) {", "while (a) { print(a);", "f(1,", "let p = P { x:", "a."] {
        assert!(parse(src).is_err(), "{}", src);
    }
}

#[test]
fn a_number_in_a_message_is_written_exactly() {
    assert_eq!(
        parse("let 100000000000000000 = 1;").unwrap_err(),
        "expected identifier, found Number(100000000000000000.0)"
    );
    assert_eq!(parse("let 0.00001 = 1;").unwrap_err(), "expected identifier, found Number(0.00001)");
}
