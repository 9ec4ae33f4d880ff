use warden::interpreter::{Stop, Value};
use warden::{check_source, run_source, try_check_source, try_run_source};

const FUEL: u64 = 10_000;

fn number_text(v: &Value) -> String {
    match v {
        Value::Number(n) => n.text().to_string(),
        other => panic!("expected a number, found {:?}", other),
    }
}

#[test]
fn check_source_accepts_a_correct_program() {
    assert_eq!(check_source("let a = 5;\nlet b = a;\nprint(b);"), Ok(()));
}

#[test]
fn check_source_prefixes_each_stage() {
    assert_eq!(check_source("let a = @;"), Err("lex error: unexpected character: '@'".to_string()));
    assert_eq!(check_source("let a = 5"), Err("parse error: expected Semicolon, found Eof".to_string()));
    assert_eq!(
        check_source("let a = 5;\nlet b = a;\nprint(a);"),
        Err("ownership error: use of moved value `a`".to_string())
    );
}

#[test]
fn run_source_prints_what_the_program_prints() {
    let source = "struct Point { x, y }\n\
                  let p = Point { x: 1, y: 2 };\n\
                  let px = p.x;\n\
                  print(p.y);\n\
                  fn consume(v) {\n  print(v);\n}\n\
                  consume(px);";
    let mut printed = Vec::new();
    assert!(run_source(source, FUEL, &mut printed).is_ok());
    let texts: Vec<String> = printed.iter().map(number_text).collect();
    assert_eq!(texts, vec!["2.0", "1.0"]);
}

#[test]
fn a_refused_program_is_never_run() {
    for source in ["print(1);\nlet a = @;", "print(1);\nlet a = 5", "print(1);\nlet a = 1;\nlet b = a;\nprint(a);"] {
        let mut printed = Vec::new();
        let r = run_source(source, FUEL, &mut printed);
        let checked = check_source(source).unwrap_err();
        match r {
            Err(Stop::Error(m)) => assert_eq!(m, checked),
            other => panic!("expected an error, found {:?}", other),
        }
        assert!(printed.is_empty());
    }
}

#[test]
fn runtime_errors_carry_both_prefixes() {
    let mut printed = Vec::new();
    match run_source("print(1);\ng(2);", FUEL, &mut printed) {
        Err(Stop::Error(m)) => assert_eq!(m, "runtime error: runtime error: undefined function `g`"),
        other => panic!("expected an error, found {:?}", other),
    }
    assert_eq!(printed.len(), 1);
}

#[test]
fn run_source_reports_running_out_of_fuel() {
    let mut printed = Vec::new();
    let r = run_source("let a = 1;\nwhile (a) { }", 100, &mut printed);
    assert!(matches!(r, Err(Stop::OutOfFuel)));
}

#[test]
fn printed_values_are_appended() {
    let mut printed = Vec::new();
    assert!(run_source("print(1);", FUEL, &mut printed).is_ok());
    assert!(run_source("print(2);", FUEL, &mut printed).is_ok());
    let texts: Vec<String> = printed.iter().map(number_text).collect();
    assert_eq!(texts, vec!["1.0", "2.0"]);
}

#[test]
fn the_try_forms_refuse_only_malformed_numbers() {
    assert_eq!(try_check_source("let a = 1.2.3;"), None);
    assert_eq!(try_check_source("let a = 1.2;"), Some(Ok(())));
    assert_eq!(try_check_source("let a = @;"), Some(Err("lex error: unexpected character: '@'".to_string())));
    let mut printed = Vec::new();
    assert!(try_run_source("print(1);\nlet a = 1.2.3;", FUEL, &mut printed).is_none());
    assert!(printed.is_empty());
    assert!(matches!(try_run_source("print(1);", FUEL, &mut printed), Some(Ok(()))));
    assert_eq!(printed.len(), 1);
}

#[test]
fn accepted_examples_pass_the_checker_and_run() {
    let examples = [
        "let a = 5;\nlet b = a;\nprint(b);",
        "let a = 5;\nlet b = a;\nlet a = 10;\nprint(a);",
        "struct Point { x, y }\nlet p = Point { x: 1, y: 2 };\nlet px = p.x;\nprint(p.y);",
        "fn consume(x) {\n  print(x);\n}\nlet s = 5;\nconsume(s);",
        "let a = 5;\nif (a) {\n  let b = a;\n} else {\n  let c = a;\n}\nlet a = 10;\nprint(a);",
    ];
    for source in examples {
        assert_eq!(check_source(source), Ok(()), "{}", source);
        let mut printed = Vec::new();
        assert!(run_source(source, FUEL, &mut printed).is_ok(), "{}", source);
    }
}

#[test]
fn rejected_examples_fail_the_checker() {
    let examples = [
        "let a = 5;\nlet b = a;\nprint(a);",
        "let a = 5;\nlet b = a;\nlet c = a;",
        "struct Point { x, y }\nlet p = Point { x: 1, y: 2 };\nlet px = p.x;\nprint(p);",
        "let a = 5;\nwhile (a) {\n  let b = a;\n}",
        "let a = 5;\nif (a) {\n  let b = a;\n}\nprint(a);",
        "fn consume(x) {\n  print(x);\n}\nlet s = 5;\nconsume(s);\nprint(s);",
    ];
    for source in examples {
        assert!(check_source(source).is_err(), "{}", source);
    }
}
