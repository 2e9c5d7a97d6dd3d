use loxrs::error::CompileError;
use loxrs::parser::{is_parseable, Parser};
use loxrs::scanner::Scanner;
use loxrs::token::{Token, TokenKind};

fn parse_source(source: &str) -> Result<String, Vec<CompileError>> {
    let scanner = Scanner::new(source);
    let tokens = scanner.scan_tokens().unwrap();
    let parser = Parser::new(&tokens);
    parser.parse().map(|expr| expr.to_string())
}

#[test]
fn literal_number() {
    assert_eq!(parse_source("42").unwrap(), "42.0");
}

#[test]
fn literal_string() {
    assert_eq!(parse_source("\"hello\"").unwrap(), "hello");
}

#[test]
fn literal_keywords() {
    assert_eq!(parse_source("true").unwrap(), "true");
    assert_eq!(parse_source("false").unwrap(), "false");
    assert_eq!(parse_source("nil").unwrap(), "nil");
}

#[test]
fn unary_negate() {
    assert_eq!(parse_source("-1").unwrap(), "(- 1.0)");
}

#[test]
fn unary_not() {
    assert_eq!(parse_source("!true").unwrap(), "(! true)");
}

#[test]
fn double_unary() {
    assert_eq!(parse_source("!!true").unwrap(), "(! (! true))");
}

#[test]
fn binary_precedence_mul_over_add() {
    assert_eq!(parse_source("1 + 2 * 3").unwrap(), "(+ 1.0 (* 2.0 3.0))");
}

#[test]
fn binary_precedence_add_over_comparison() {
    assert_eq!(parse_source("1 + 2 > 3").unwrap(), "(> (+ 1.0 2.0) 3.0)");
}

#[test]
fn left_associativity() {
    assert_eq!(parse_source("1 - 2 - 3").unwrap(), "(- (- 1.0 2.0) 3.0)");
}

#[test]
fn grouping_overrides_precedence() {
    assert_eq!(parse_source("(1 + 2) * 3").unwrap(), "(* (group (+ 1.0 2.0)) 3.0)");
}

#[test]
fn nested_grouping() {
    assert_eq!(
        parse_source("(5 - (3 - 1)) + -1").unwrap(),
        "(+ (group (- 5.0 (group (- 3.0 1.0)))) (- 1.0))"
    );
}

#[test]
fn error_empty_input() {
    let err = parse_source("").unwrap_err();
    assert_eq!(err.len(), 1);
    assert_eq!(err[0].to_string(), "[line 1] Error at end: Expect expression.");
}

#[test]
fn error_missing_closing_paren() {
    let err = parse_source("(1 + 2").unwrap_err();
    assert_eq!(err.len(), 1);
    assert!(err[0].to_string().contains("Expect ')' after expression."));
}

#[test]
fn error_missing_closing_paren_exact() {
    let err = parse_source("(1 + 2").unwrap_err();
    assert_eq!(err[0].to_string(), "[line 1] Error at end: Expect ')' after expression.");
    let err = parse_source("(1 2)").unwrap_err();
    assert_eq!(err[0].to_string(), "[line 1] Error at '2': Expect ')' after expression.");
}

#[test]
fn error_at_token_names_it_and_its_line() {
    let err = parse_source("\n\n+ 1").unwrap_err();
    assert_eq!(err.len(), 1);
    assert_eq!(err[0].line, 3);
    assert_eq!(err[0].to_string(), "[line 3] Error at '+': Expect expression.");
    let err = parse_source("1 *").unwrap_err();
    assert_eq!(err[0].to_string(), "[line 1] Error at end: Expect expression.");
}

#[test]
fn every_precedence_level() {
    assert_eq!(
        parse_source("1 == 2 != 3 < 4 <= 5 > 6 >= 7 - 8 + 9 / 10 * 11").unwrap(),
        "(!= (== 1.0 2.0) (>= (> (<= (< 3.0 4.0) 5.0) 6.0) (+ (- 7.0 8.0) (* (/ 9.0 10.0) 11.0))))"
    );
    assert_eq!(parse_source("-2 * -3").unwrap(), "(* (- 2.0) (- 3.0))");
    assert_eq!(parse_source("!(1 == 1)").unwrap(), "(! (group (== 1.0 1.0)))");
}

#[test]
fn tokens_after_the_expression_are_not_read() {
    assert_eq!(parse_source("1 2").unwrap(), "1.0");
    assert_eq!(parse_source("1 ) ; var").unwrap(), "1.0");
}

#[test]
fn operator_lines_are_kept() {
    let tokens = Scanner::new("1 +\n2").scan_tokens().unwrap();
    let expr = Parser::new(&tokens).parse().unwrap();
    match expr {
        loxrs::ast::Expr::Binary { operator_line, .. } => assert_eq!(operator_line, 1),
        _ => panic!("expected a binary expression"),
    }
    let tokens = Scanner::new("\n-1").scan_tokens().unwrap();
    let expr = Parser::new(&tokens).parse().unwrap();
    match expr {
        loxrs::ast::Expr::Unary { operator_line, .. } => assert_eq!(operator_line, 2),
        _ => panic!("expected a unary expression"),
    }
}

#[test]
fn parseable_tokens() {
    let tokens = Scanner::new("\"a\" + 1").scan_tokens().unwrap();
    assert!(is_parseable(&tokens));
    let no_eof = vec![Token { kind: TokenKind::Number, lexeme: "1".to_string(), line: 1, column: 0, length: 1 }];
    assert!(!is_parseable(&no_eof));
    let bad_string = vec![
        Token { kind: TokenKind::Str, lexeme: "x".to_string(), line: 1, column: 0, length: 1 },
        Token { kind: TokenKind::Eof, lexeme: String::new(), line: 1, column: 1, length: 0 },
    ];
    assert!(!is_parseable(&bad_string));
}

#[test]
fn scanned_sources_always_parse_or_report() {
    let sources = ["", "(", ")", "((1)", "1 +", "!", "-", "\"s\" == \"t\"", "nil and", "1 /* 2", "a.b", "1 1"];
    for source in sources {
        let tokens = Scanner::new(source).scan_tokens().unwrap();
        assert!(is_parseable(&tokens));
        match Parser::new(&tokens).parse() {
            Ok(expr) => assert!(!expr.to_string().is_empty()),
            Err(errors) => assert_eq!(errors.len(), 1),
        }
    }
}

#[test]
fn parsing_stops_before_an_unread_end() {
    // No end-of-file token: the parser stops at the second number and never
    // looks further.
    let tokens = vec![
        Token { kind: TokenKind::Number, lexeme: "1".to_string(), line: 1, column: 0, length: 1 },
        Token { kind: TokenKind::Number, lexeme: "2".to_string(), line: 1, column: 2, length: 1 },
    ];
    assert_eq!(Parser::new(&tokens).parse().unwrap().to_string(), "1.0");
    let tokens = vec![Token { kind: TokenKind::Plus, lexeme: "+".to_string(), line: 4, column: 0, length: 1 }];
    let err = Parser::new(&tokens).parse().unwrap_err();
    assert_eq!(err[0].to_string(), "[line 4] Error at '+': Expect expression.");
}

#[test]
fn advance_stops_at_end_of_file() {
    let tokens = Scanner::new("1 +").scan_tokens().unwrap();
    let mut parser = Parser::new(&tokens);
    assert_eq!(parser.advance().lexeme, "1");
    assert_eq!(parser.advance().lexeme, "+");
    // at the end-of-file token the parser stays and hands back the token before it
    assert_eq!(parser.advance().lexeme, "+");
    assert_eq!(parser.advance().kind, TokenKind::Plus);
}
