use warden::interpreter::{Interpreter, Stop, Value};
use warden::lexer::Lexer;
use warden::parser::Parser;

const FUEL: u64 = 10_000;

fn run_with(src: &str, fuel: u64) -> (Result<(), Stop>, Vec<Value>) {
    let tokens = Lexer::new(src).tokenize().unwrap();
    let program = Parser::new(tokens).parse_program().unwrap();
    let mut printed = Vec::new();
    let r = Interpreter::new().run(&program, fuel, &mut printed);
    (r, printed)
}

fn run(src: &str) -> Result<(), Stop> {
    run_with(src, FUEL).0
}

fn number_text(v: &Value) -> String {
    match v {
        Value::Number(n) => n.text().to_string(),
        other => panic!("expected a number, found {:?}", other),
    }
}

fn error_text(r: Result<(), Stop>) -> String {
    match r {
        Err(Stop::Error(m)) => m,
        other => panic!("expected a runtime error, found {:?}", other),
    }
}

#[test]
fn runs_simple_print() {
    assert!(run("let a = 5;\nprint(a);").is_ok());
}

#[test]
fn runs_struct_field_access() {
    let src = "struct Point { x, y }\n\
                let p = Point { x: 1, y: 2 };\n\
                print(p.x);\n\
                print(p.y);";
    assert!(run(src).is_ok());
}

#[test]
fn runs_function_call() {
    let src = "fn consume(x) {\n  print(x);\n}\nlet s = 5;\nconsume(s);";
    assert!(run(src).is_ok());
}

#[test]
fn while_loop_with_falsy_condition_never_executes_body() {
    let src = "let n = 0;\nwhile (n) {\n  print(n);\n}";
    assert!(run(src).is_ok());
}

#[test]
fn prints_values_in_order() {
    let (r, printed) = run_with("let a = 5;\nprint(a);\nprint(2.50);", FUEL);
    assert!(r.is_ok());
    assert_eq!(printed.len(), 2);
    assert_eq!(number_text(&printed[0]), "5.0");
    assert_eq!(number_text(&printed[1]), "2.5");
}

#[test]
fn prints_struct_values_with_their_fields() {
    let (r, printed) = run_with("let p = Point { x: 1, y: Inner { z: 3 } };\nprint(p);\nprint(p.y.z);", FUEL);
    assert!(r.is_ok());
    match &printed[0] {
        Value::Struct { name, fields } => {
            assert_eq!(name, "Point");
            assert_eq!(fields.len(), 2);
            assert_eq!(fields[0].0, "x");
            assert_eq!(number_text(&fields[0].1), "1.0");
            assert_eq!(fields[1].0, "y");
        }
        other => panic!("expected a struct, found {:?}", other),
    }
    assert_eq!(number_text(&printed[1]), "3.0");
}

#[test]
fn a_repeated_field_keeps_its_last_value() {
    let (r, printed) = run_with("let p = P { x: 1, x: 2 };\nprint(p.x);\nprint(p);", FUEL);
    assert!(r.is_ok());
    assert_eq!(number_text(&printed[0]), "2.0");
    match &printed[1] {
        Value::Struct { fields, .. } => assert_eq!(fields.len(), 1),
        other => panic!("expected a struct, found {:?}", other),
    }
}

#[test]
fn functions_may_be_called_before_their_definition() {
    let (r, printed) = run_with("f(7);\nfn f(x) { print(x); }", FUEL);
    assert!(r.is_ok());
    assert_eq!(number_text(&printed[0]), "7.0");
}

#[test]
fn a_call_yields_zero() {
    let (r, printed) = run_with("fn f() { }\nlet a = f();\nprint(a);", FUEL);
    assert!(r.is_ok());
    assert_eq!(number_text(&printed[0]), "0.0");
}

#[test]
fn a_function_body_sees_only_its_parameters() {
    let (r, printed) = run_with("let a = 1;\nfn f(x) { print(x); print(a); }\nf(2);", FUEL);
    assert_eq!(error_text(r), "runtime error: undefined variable `a`");
    assert_eq!(printed.len(), 1);
}

#[test]
fn if_runs_the_branch_that_the_condition_picks() {
    let (r, printed) = run_with("if (0) { print(1); } else { print(2); }\nif (0.5) { print(3); }\nif (S { }) { print(4); }", FUEL);
    assert!(r.is_ok());
    let texts: Vec<String> = printed.iter().map(number_text).collect();
    assert_eq!(texts, vec!["2.0", "3.0", "4.0"]);
}

#[test]
fn a_let_in_the_body_can_end_a_loop() {
    let (r, printed) = run_with("let n = 1;\nwhile (n) { print(n); let n = 0; }\nprint(n);", FUEL);
    assert!(r.is_ok());
    let texts: Vec<String> = printed.iter().map(number_text).collect();
    assert_eq!(texts, vec!["1.0", "0.0"]);
}

#[test]
fn an_endless_loop_runs_out_of_fuel() {
    let (r, printed) = run_with("let n = 1;\nwhile (n) { print(n); }", 5);
    assert!(matches!(r, Err(Stop::OutOfFuel)));
    assert_eq!(printed.len(), 5);
}

#[test]
fn endless_recursion_runs_out_of_fuel() {
    let (r, printed) = run_with("fn f(x) { print(x); f(x); }\nf(1);", 3);
    assert!(matches!(r, Err(Stop::OutOfFuel)));
    assert_eq!(printed.len(), 3);
}

#[test]
fn runtime_error_messages() {
    assert_eq!(error_text(run("print(a);")), "runtime error: undefined variable `a`");
    assert_eq!(error_text(run("let p = P { x: 1 };\nprint(p.y);")), "runtime error: no field `y`");
    assert_eq!(error_text(run("let a = 1;\nprint(a.y);")), "runtime error: cannot access field `y` on a number");
    assert_eq!(error_text(run("g(1);")), "runtime error: undefined function `g`");
    assert_eq!(error_text(run("fn f(x) { }\nf(1, 2);")), "runtime error: `f` expects 1 arg(s), got 2");
    assert_eq!(
        error_text(run("fn f(a, b, c, d, e, f, g, h, i, j, k, l) { }\nf();")),
        "runtime error: `f` expects 12 arg(s), got 0"
    );
}

#[test]
fn output_before_an_error_is_kept() {
    let (r, printed) = run_with("print(1);\nprint(2);\nprint(x);\nprint(3);", FUEL);
    assert!(r.is_err());
    assert_eq!(printed.len(), 2);
}

#[test]
fn a_later_definition_of_a_function_replaces_an_earlier_one() {
    let (r, printed) = run_with("fn f() { print(1); }\nfn f() { print(2); }\nf();", FUEL);
    assert!(r.is_ok());
    assert_eq!(number_text(&printed[0]), "2.0");
}

#[test]
fn more_fuel_gives_the_same_finished_run() {
    let src = "fn f(x) { print(x); g(x); }\nfn g(y) { print(y); }\nlet a = 1;\nif (a) { f(a); }\nwhile (0) { }\nprint(P { x: 2 });";
    let (r1, p1) = run_with(src, 3);
    let (r2, p2) = run_with(src, 1_000_000);
    assert!(r1.is_ok());
    assert!(r2.is_ok());
    assert_eq!(format!("{:?}", p1), format!("{:?}", p2));
    assert_eq!(p1.len(), 3);
    // with too little fuel the run stops early
    let (r0, p0) = run_with(src, 1);
    assert!(matches!(r0, Err(Stop::OutOfFuel)));
    assert_eq!(p0.len(), 1);
}

#[test]
fn a_loop_whose_condition_holds_never_ends() {
    let (r, printed) = run_with("let n = P { };\nwhile (n) { let m = 0; print(m); }", 50);
    assert!(matches!(r, Err(Stop::OutOfFuel)));
    assert_eq!(printed.len(), 50);
}

#[test]
fn a_call_sees_the_caller_only_through_its_arguments() {
    let (r1, p1) = run_with("fn f(x) { print(x); }\nlet y = 1;\nf(2);", FUEL);
    let (r2, p2) = run_with("fn f(x) { print(x); }\nlet y = 7;\nlet x = 9;\nf(2);", FUEL);
    assert!(r1.is_ok() && r2.is_ok());
    assert_eq!(format!("{:?}", p1), format!("{:?}", p2));
}

#[test]
fn a_loop_whose_test_fails_takes_no_fuel() {
    let (r, printed) = run_with("let n = 0;\nwhile (n) { print(n); }\nprint(1);", 0);
    assert!(r.is_ok());
    assert_eq!(printed.len(), 1);
    // one turn of the body takes one unit
    let (r, printed) = run_with("let n = 1;\nwhile (n) { print(n); let n = 0; }", 1);
    assert!(r.is_ok());
    assert_eq!(printed.len(), 1);
    let (r, _) = run_with("let n = 1;\nwhile (n) { print(n); let n = 0; }", 0);
    assert!(matches!(r, Err(Stop::OutOfFuel)));
}
