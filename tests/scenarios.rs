use sic::eval::{run, with_main, EvalError};

fn eval(file: &str, input: &str) -> String {
    let code = with_main(file.as_bytes(), input.as_bytes());
    let (out, _) = run(&code).expect("evaluation succeeds");
    String::from_utf8(out).unwrap()
}

#[test]
fn identity_applied_to_unit() {
    assert_eq!(eval(":id \\x x", "/id *"), "*");
}

#[test]
fn pair_projection() {
    assert_eq!(eval(":fst \\p = a b p a", "/fst | * \\y y"), "*");
}

#[test]
fn duplication_of_unit() {
    let (out, _) = run(b"= a b * /a b").unwrap();
    assert_eq!(String::from_utf8(out).unwrap(), "*");
}

#[test]
fn identity_applied_to_itself() {
    assert_eq!(eval(":id \\x x", "/id id"), "\\a a");
}

#[test]
fn nested_application() {
    assert_eq!(eval(":k \\x \\y x", "//k * \\z z"), "*");
}

#[test]
fn pair_swap() {
    assert_eq!(eval(":swap \\p = a b p | b a", "/swap | * \\y y"), "| \\a a *");
}

#[test]
fn with_main_appends_definition_and_use() {
    assert_eq!(with_main(b"x", b"y"), b"x\n:main y\nmain".to_vec());
}

#[test]
fn stats_counters_agree() {
    let code = with_main(b":swap \\p = a b p | b a", b"/swap | * \\y y");
    let (_, stats) = run(&code).unwrap();
    assert_eq!(stats.rules, stats.annis + stats.dupls);
    assert!(stats.betas <= stats.annis);
    assert!(stats.rules > 0);
    assert!(stats.betas > 0);
}

#[test]
fn run_reports_parse_error() {
    assert!(matches!(run(b"/*"), Err(EvalError::Parse(_))));
}

#[test]
fn run_reports_unbound_variable() {
    assert!(matches!(run(b"\\x y"), Err(EvalError::Encode(_))));
}
