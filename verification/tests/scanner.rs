use loxrs::scanner::Scanner;
use loxrs::token::TokenKind;
use loxrs::token::TokenKind::{
    And, BangEqual, Bang, Class, Comma, Dot, Else, Eof, Equal, EqualEqual, False, For, Fun, Greater,
    GreaterEqual, Identifier, If, LeftBrace, LeftParen, Less, LessEqual, Minus, Nil, Or, Plus, Print,
    Return, RightBrace, RightParen, Semicolon, Slash, Star, Super, This, True, Var, While,
};

fn kinds(source: &str) -> Vec<TokenKind> {
    Scanner::new(source).scan_tokens().unwrap().iter().map(|t| t.kind).collect()
}

#[test]
fn punctuation_and_operators() {
    assert_eq!(
        kinds("(){},.-+;*/ ! != = == < <= > >="),
        vec![
            LeftParen, RightParen, LeftBrace, RightBrace, Comma, Dot, Minus, Plus, Semicolon,
            Star, Slash, Bang, BangEqual, Equal, EqualEqual, Less, LessEqual, Greater,
            GreaterEqual, Eof
        ]
    );
}

#[test]
fn keywords_and_identifiers() {
    assert_eq!(
        kinds("and class else false for fun if nil or print return super this true var while"),
        vec![And, Class, Else, False, For, Fun, If, Nil, Or, Print, Return, Super, This, True, Var, While, Eof]
    );
    let tokens = Scanner::new("orchid _x1 andy").scan_tokens().unwrap();
    assert_eq!(tokens.len(), 4);
    for (t, lexeme) in tokens.iter().zip(["orchid", "_x1", "andy"]) {
        assert_eq!(t.kind, Identifier);
        assert_eq!(t.lexeme, lexeme);
    }
}

#[test]
fn numbers() {
    let tokens = Scanner::new("123 45.67 8. .9").scan_tokens().unwrap();
    let got: Vec<(TokenKind, &str)> = tokens.iter().map(|t| (t.kind, t.lexeme.as_str())).collect();
    assert_eq!(
        got,
        vec![
            (TokenKind::Number, "123"),
            (TokenKind::Number, "45.67"),
            (TokenKind::Number, "8"),
            (TokenKind::Dot, "."),
            (TokenKind::Dot, "."),
            (TokenKind::Number, "9"),
            (TokenKind::Eof, ""),
        ]
    );
}

#[test]
fn strings_keep_their_quotes_and_start_line() {
    let tokens = Scanner::new("x\n\"a\nb\" y").scan_tokens().unwrap();
    assert_eq!(tokens[1].kind, TokenKind::Str);
    assert_eq!(tokens[1].lexeme, "\"a\nb\"");
    assert_eq!(tokens[1].line, 2);
    assert_eq!(tokens[1].column, 0);
    assert_eq!(tokens[2].lexeme, "y");
    assert_eq!(tokens[2].line, 3);
}

#[test]
fn lengths_are_bytes() {
    let tokens = Scanner::new("\"é€\" ab").scan_tokens().unwrap();
    assert_eq!(tokens[0].length, 7);
    assert_eq!(tokens[1].length, 2);
    assert_eq!(tokens[2].length, 0);
}

#[test]
fn lines_and_columns() {
    let tokens = Scanner::new("a  bc\n  d").scan_tokens().unwrap();
    let got: Vec<(usize, usize, usize)> = tokens.iter().map(|t| (t.line, t.column, t.length)).collect();
    assert_eq!(got, vec![(1, 0, 1), (1, 3, 2), (2, 2, 1), (2, 3, 0)]);
}

#[test]
fn comments_and_whitespace_make_no_tokens() {
    let tokens = Scanner::new("// nothing here\n\t\r 1 // one\n").scan_tokens().unwrap();
    assert_eq!(tokens.len(), 2);
    assert_eq!(tokens[0].lexeme, "1");
    assert_eq!(tokens[0].line, 2);
    assert_eq!(tokens[1].kind, TokenKind::Eof);
    assert_eq!(tokens[1].line, 3);
}

#[test]
fn eof_line_counts_every_newline() {
    let source = "\"a\n\nb\"\n// c\n\n";
    let tokens = Scanner::new(source).scan_tokens().unwrap();
    assert_eq!(tokens.last().unwrap().line, 1 + source.matches('\n').count());
    assert_eq!(tokens.iter().filter(|t| t.kind == TokenKind::Eof).count(), 1);
}

#[test]
fn lexemes_are_source_slices_in_order() {
    let source = "var x = (1.5 + y) != \"s t\"; // done";
    let tokens = Scanner::new(source).scan_tokens().unwrap();
    let mut from = 0;
    for t in &tokens {
        let at = source[from..].find(t.lexeme.as_str()).unwrap() + from;
        from = at + t.lexeme.len();
    }
    assert_eq!(tokens.len(), 12);
}

#[test]
fn unexpected_character() {
    let errors = Scanner::new("1 @ 2\n#").scan_tokens().unwrap_err();
    assert_eq!(errors.len(), 2);
    assert_eq!(errors[0].to_string(), "[line 1] Error: Unexpected character: @");
    assert_eq!(errors[1].to_string(), "[line 2] Error: Unexpected character: #");
    let errors = Scanner::new("λ").scan_tokens().unwrap_err();
    assert_eq!(errors[0].to_string(), "[line 1] Error: Unexpected character: λ");
}

#[test]
fn unterminated_string() {
    let errors = Scanner::new("\"abc\ndef").scan_tokens().unwrap_err();
    assert_eq!(errors.len(), 1);
    assert_eq!(errors[0].line, 2);
    assert_eq!(errors[0].to_string(), "[line 2] Error: Unterminated string.");
}

#[test]
fn token_text() {
    let tokens = Scanner::new("42 \"hi\" x 1.50").scan_tokens().unwrap();
    let texts: Vec<String> = tokens.iter().map(|t| t.to_string()).collect();
    assert_eq!(texts, vec!["NUMBER 42 42.0", "STRING \"hi\" hi", "IDENTIFIER x null", "NUMBER 1.50 1.5", "EOF  null"]);
}

#[test]
fn columns_after_a_multi_line_string() {
    // The newline inside the string ends the line: after "ab\ncd" the
    // column is 3 (c, d and the closing quote).
    let tokens = Scanner::new("\"ab\ncd\"x").scan_tokens().unwrap();
    assert_eq!(tokens[1].lexeme, "x");
    assert_eq!((tokens[1].line, tokens[1].column), (2, 3));
    assert_eq!((tokens[2].line, tokens[2].column), (2, 4));
    let tokens = Scanner::new("\"\n\"x").scan_tokens().unwrap();
    assert_eq!((tokens[1].line, tokens[1].column), (2, 1));
}

#[test]
fn token_columns_count_from_the_last_newline() {
    let tokens = Scanner::new("a  bc\n\t(x // y\n  1.5").scan_tokens().unwrap();
    let places: Vec<(String, usize, usize)> =
        tokens.iter().map(|t| (t.lexeme.clone(), t.line, t.column)).collect();
    assert_eq!(
        places,
        vec![
            ("a".to_string(), 1, 0),
            ("bc".to_string(), 1, 3),
            ("(".to_string(), 2, 1),
            ("x".to_string(), 2, 2),
            ("1.5".to_string(), 3, 2),
            ("".to_string(), 3, 5),
        ]
    );
}

#[test]
fn joined_texts_scan_to_their_parts() {
    let a = "var x = \"s\" // c";
    let b = "1.5 >= y";
    let kl = |source: &str| -> Vec<(TokenKind, String)> {
        Scanner::new(source).scan_tokens().unwrap().into_iter().map(|t| (t.kind, t.lexeme)).collect()
    };
    let mut expected = kl(a);
    expected.pop();
    expected.extend(kl(b));
    assert_eq!(kl(&format!("{a}\n{b}")), expected);
}
