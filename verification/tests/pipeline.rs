use loxrs::error::LoxError;
use loxrs::pipeline::{run, Mode};

#[test]
fn run_tokenize_prints_one_line_per_token() {
    let lines = run("(1 + \"a\")", Some(Mode::Tokenize)).unwrap();
    assert_eq!(
        lines,
        vec![
            "LEFT_PAREN ( null",
            "NUMBER 1 1.0",
            "PLUS + null",
            "STRING \"a\" a",
            "RIGHT_PAREN ) null",
            "EOF  null",
        ]
    );
}

#[test]
fn run_parse_prints_the_expression() {
    assert_eq!(run("1 + 2 * 3", Some(Mode::Parse)).unwrap(), vec!["(+ 1.0 (* 2.0 3.0))"]);
    assert_eq!(run("-(4)", None).unwrap(), vec!["(- (group 4.0))"]);
}

#[test]
fn run_reports_scanning_errors_first() {
    match run("@ +", Some(Mode::Parse)) {
        Err(e @ LoxError::Compile(_)) => {
            assert_eq!(e.to_string(), "[line 1] Error: Unexpected character: @");
            assert_eq!(e.exit_code(), 65);
        }
        _ => panic!("expected a compile error"),
    }
    match run("\"open", Some(Mode::Tokenize)) {
        Err(e) => assert_eq!(e.to_string(), "[line 1] Error: Unterminated string."),
        Ok(_) => panic!("expected a compile error"),
    }
}

#[test]
fn run_reports_the_parse_error() {
    match run("(1", None) {
        Err(e) => assert_eq!(e.to_string(), "[line 1] Error at end: Expect ')' after expression."),
        Ok(_) => panic!("expected a compile error"),
    }
    assert!(run("(1", Some(Mode::Tokenize)).is_ok());
}
