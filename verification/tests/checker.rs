use warden::checker::Checker;
use warden::lexer::Lexer;
use warden::parser::Parser;

fn check(src: &str) -> Result<(), String> {
    let tokens = Lexer::new(src).tokenize().unwrap();
    let program = Parser::new(tokens).parse_program().unwrap();
    Checker::new().check_program(&program)
}

#[test]
fn allows_simple_owned_use() {
    assert!(check("let a = 5;\nprint(a);").is_ok());
}

#[test]
fn rejects_use_after_move() {
    let err = check("let a = 5;\nlet b = a;\nprint(a);").unwrap_err();
    assert!(err.contains("moved value `a`"), "{}", err);
}

#[test]
fn rejects_double_move() {
    let err = check("let a = 5;\nlet b = a;\nlet c = a;").unwrap_err();
    assert!(err.contains("moved value `a`"), "{}", err);
}

#[test]
fn allows_move_then_reassign_via_shadowing() {
    let src = "let a = 5;\nlet b = a;\nlet a = 10;\nprint(a);";
    assert!(check(src).is_ok());
}

#[test]
fn allows_partial_move_of_struct_field() {
    let src = "struct Point { x, y }\n\
                let p = Point { x: 1, y: 2 };\n\
                let px = p.x;\n\
                print(p.y);";
    assert!(check(src).is_ok());
}

#[test]
fn rejects_whole_use_after_partial_move() {
    let src = "struct Point { x, y }\n\
                let p = Point { x: 1, y: 2 };\n\
                let px = p.x;\n\
                print(p);";
    let err = check(src).unwrap_err();
    assert!(err.contains("partially moved"), "{}", err);
}

#[test]
fn rejects_move_of_outer_variable_inside_loop() {
    let src = "let a = 5;\nwhile (a) {\n  let b = a;\n}";
    let err = check(src).unwrap_err();
    assert!(err.contains("inside a loop"), "{}", err);
}

#[test]
fn allows_moving_loop_local_variable_inside_loop() {
    let src = "let a = 5;\nwhile (a) {\n  let x = 1;\n  let y = x;\n}";
    assert!(check(src).is_ok());
}

#[test]
fn rejects_use_after_move_in_one_if_branch() {
    let src = "let a = 5;\nif (a) {\n  let b = a;\n} else {\n  print(0);\n}\nprint(a);";
    let err = check(src).unwrap_err();
    assert!(err.contains("moved value `a`"), "{}", err);
}

#[test]
fn allows_use_after_move_in_both_if_branches_then_reassign() {
    let src = "let a = 5;\n\
                if (a) {\n  let b = a;\n} else {\n  let c = a;\n}\n\
                let a = 10;\n\
                print(a);";
    assert!(check(src).is_ok());
}

#[test]
fn rejects_move_into_function_then_reuse() {
    let src = "fn consume(x) {\n  print(x);\n}\n\
                let s = 5;\n\
                consume(s);\n\
                print(s);";
    let err = check(src).unwrap_err();
    assert!(err.contains("moved value `s`"), "{}", err);
}

#[test]
fn undeclared_variable_message() {
    assert_eq!(check("print(a);").unwrap_err(), "use of undeclared variable `a`");
    assert_eq!(check("print(a.x);").unwrap_err(), "use of undeclared variable `a`");
}

#[test]
fn moved_value_message_is_exact() {
    assert_eq!(check("let a = 5;\nlet b = a;\nprint(a);").unwrap_err(), "use of moved value `a`");
    assert_eq!(check("let a = 5;\nlet b = a;\nprint(a.x);").unwrap_err(), "use of moved value `a`");
}

#[test]
fn partially_moved_message_lists_the_fields_in_order() {
    let src = "let p = P { z: 1, a: 2, m: 3 };\nlet q = p.z;\nlet r = p.a;\nprint(p);";
    assert_eq!(
        check(src).unwrap_err(),
        "use of partially moved value `p` (field(s) already moved: a, z)"
    );
}

#[test]
fn field_moved_twice_message() {
    let src = "let p = P { x: 1 };\nlet a = p.x;\nlet b = p.x;";
    assert_eq!(check(src).unwrap_err(), "field `x` of `p` was already moved");
}

#[test]
fn loop_move_messages() {
    assert_eq!(
        check("let a = 5;\nwhile (a) {\n  print(a);\n}").unwrap_err(),
        "cannot move `a` inside a loop; it was declared outside the loop and the loop may execute more than once"
    );
    assert_eq!(
        check("let p = P { x: 1 };\nwhile (p) {\n  let y = p.x;\n}").unwrap_err(),
        "cannot move field `x` of `p` inside a loop; `p` was declared outside the loop"
    );
}

#[test]
fn merge_keeps_owned_only_where_both_branches_keep_it() {
    // moved in the then-branch only: moved after the if
    assert!(check("let a = 1;\nlet c = 1;\nif (c) { let b = a; }\nprint(a);").is_err());
    // untouched on both paths: still owned
    assert!(check("let a = 1;\nlet c = 1;\nif (c) { print(0); } else { print(1); }\nprint(a);").is_ok());
    // the same partial move on both paths stays partial
    let src = "let p = P { x: 1, y: 2 };\nlet c = 1;\nif (c) { let a = p.x; } else { let b = p.x; }\nprint(p.y);";
    assert!(check(src).is_ok());
    // different partial moves become a whole move
    let src = "let p = P { x: 1, y: 2 };\nlet c = 1;\nif (c) { let a = p.x; } else { let b = p.y; }\nprint(p.y);";
    assert_eq!(check(src).unwrap_err(), "use of moved value `p`");
}

#[test]
fn function_bodies_are_checked_with_their_parameters_owned() {
    assert!(check("fn f(x, y) { print(x); print(y); }").is_ok());
    assert_eq!(check("fn f(x) { print(x); print(x); }").unwrap_err(), "use of moved value `x`");
    assert_eq!(check("let a = 1;\nfn f(x) { print(a); }").unwrap_err(), "use of undeclared variable `a`");
}

#[test]
fn reading_a_field_of_a_partially_moved_value_is_allowed_for_other_fields() {
    let src = "let p = P { x: 1, y: 2 };\nlet a = p.x;\nlet b = p.y;\nprint(a);\nprint(b);";
    assert!(check(src).is_ok());
}

#[test]
fn loop_keeps_outer_bindings_and_their_states() {
    let src = "let a = 1;\nlet p = P { x: 1 };\nwhile (a) { let q = P { y: 2 }; let z = q.y; }\nprint(p);\nprint(a);";
    assert!(check(src).is_ok());
}

#[test]
fn struct_definitions_need_not_come_first() {
    assert!(check("let p = Point { x: 1 };\nprint(p.x);\nstruct Point { x }").is_ok());
}

#[test]
fn a_name_bound_on_one_path_only_is_moved_after_the_if() {
    assert_eq!(
        check("let a = 5;\nif (a) { let x = 1; }\nprint(x);").unwrap_err(),
        "use of moved value `x`"
    );
    assert_eq!(
        check("let a = 5;\nif (a) { print(0); } else { let y = 1; }\nprint(y);").unwrap_err(),
        "use of moved value `y`"
    );
    // bound on both paths: owned afterwards
    assert!(check("let a = 5;\nif (a) { let x = 1; } else { let x = 2; }\nprint(x);").is_ok());
}

#[test]
fn only_a_let_before_the_move_makes_a_loop_local() {
    // `a` is moved before the body binds its own `a`
    let err = check("let a = 5;\nwhile (a) {\n  let b = a;\n  let a = 1;\n}").unwrap_err();
    assert!(err.contains("inside a loop"), "{}", err);
    // bound first, then moved: allowed
    assert!(check("let a = 5;\nwhile (a) {\n  let a = 1;\n  let b = a;\n}").is_ok());
    // a `let` inside a branch of the body exempts its name within that branch
    assert!(check("let a = 5;\nwhile (a) {\n  if (a) {\n    let x = 1;\n    let y = x;\n  }\n}").is_ok());
    // a nested loop has loop locals of its own
    let err = check("let a = 5;\nwhile (a) {\n  let x = 1;\n  while (a) { let y = x; }\n}").unwrap_err();
    assert!(err.contains("inside a loop"), "{}", err);
}

#[test]
fn a_value_cannot_be_moved_twice_in_one_expression() {
    assert_eq!(
        check("struct P { x, y }\nlet a = 5;\nlet p = P { x: a, y: a };").unwrap_err(),
        "use of moved value `a`"
    );
    assert_eq!(
        check("fn f(x, y) { }\nlet a = 5;\nf(a, a);").unwrap_err(),
        "use of moved value `a`"
    );
    assert_eq!(
        check("let p = P { x: 1 };\nlet q = Q { a: p.x, b: p.x };").unwrap_err(),
        "field `x` of `p` was already moved"
    );
    assert_eq!(
        check("let p = P { x: 1, y: 2 };\nlet q = Q { a: p.x, b: p };").unwrap_err(),
        "use of partially moved value `p` (field(s) already moved: x)"
    );
    assert_eq!(
        check("let p = P { x: 1, y: 2 };\nlet q = Q { a: p, b: p.x };").unwrap_err(),
        "use of moved value `p`"
    );
    // two different fields may both be moved
    assert!(check("let p = P { x: 1, y: 2 };\nlet q = Q { a: p.x, b: p.y };").is_ok());
}
