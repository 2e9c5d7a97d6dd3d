use loxrs::ast::{BinaryOp, Expr, LiteralValue, UnaryOp};

#[test]
fn display_nested_expression() {
    // -123 * (45.67)
    let ast = Expr::Binary {
        left: Box::new(Expr::Unary {
            operator: UnaryOp::Negate,
            operator_line: 1,
            operand: Box::new(Expr::Literal(LiteralValue::Number(123.0_f64.to_string()))),
        }),
        operator: BinaryOp::Multiply,
        operator_line: 1,
        right: Box::new(Expr::Grouping(Box::new(Expr::Literal(LiteralValue::Number(
            45.67_f64.to_string(),
        ))))),
    };
    assert_eq!(ast.to_string(), "(* (- 123.0) (group 45.67))");
}

#[test]
fn number_text_drops_superfluous_zeros() {
    assert_eq!(LiteralValue::Number("007".to_string()).to_string(), "7.0");
    assert_eq!(LiteralValue::Number("1.50".to_string()).to_string(), "1.5");
    assert_eq!(LiteralValue::Number("0".to_string()).to_string(), "0.0");
    assert_eq!(LiteralValue::Number("0.0".to_string()).to_string(), "0.0");
    assert_eq!(LiteralValue::Number("10.250".to_string()).to_string(), "10.25");
    assert_eq!(LiteralValue::Number("100".to_string()).to_string(), "100.0");
}

#[test]
fn literal_and_operator_text() {
    assert_eq!(LiteralValue::Str("a b".to_string()).to_string(), "a b");
    assert_eq!(LiteralValue::True.to_string(), "true");
    assert_eq!(LiteralValue::False.to_string(), "false");
    assert_eq!(LiteralValue::Nil.to_string(), "nil");
    assert_eq!(UnaryOp::Not.to_string(), "!");
    assert_eq!(UnaryOp::Negate.to_string(), "-");
    let ops = [
        (BinaryOp::Equal, "=="),
        (BinaryOp::NotEqual, "!="),
        (BinaryOp::Less, "<"),
        (BinaryOp::LessEqual, "<="),
        (BinaryOp::Greater, ">"),
        (BinaryOp::GreaterEqual, ">="),
        (BinaryOp::Add, "+"),
        (BinaryOp::Subtract, "-"),
        (BinaryOp::Multiply, "*"),
        (BinaryOp::Divide, "/"),
    ];
    for (op, text) in ops {
        assert_eq!(op.to_string(), text);
    }
}

/// How a double prints as a Lox number: its shortest decimal text, with
/// `.0` added when that has no fractional part.
fn double_text(lexeme: &str) -> String {
    let s = lexeme.parse::<f64>().unwrap().to_string();
    if s.contains('.') {
        s
    } else {
        format!("{s}.0")
    }
}

#[test]
fn number_text_reads_as_the_double_up_to_fifteen_digits() {
    let literals = [
        "0", "1", "7", "10", "42", "100", "007", "0.5", "0.25", "1.50", "3.14159", "45.67",
        "123.0", "0.1", "0.2", "0.3", "0.000001", "0.0000001", "1000000", "1000000000000000000000",
        "123456789012345", "12345678901234.5", "0.123456789012345", "999999999999999",
        "98765.4321000", "00000.00100", "2.718281828459",
    ];
    for lit in literals {
        assert_eq!(LiteralValue::Number(lit.to_string()).to_string(), double_text(lit), "{lit}");
    }
    // v has k + 1 digits in round k, so neither literal passes fifteen.
    let mut v: u64 = 1;
    for _ in 0..12 {
        let lit = v.to_string();
        assert_eq!(LiteralValue::Number(lit.clone()).to_string(), double_text(&lit));
        let frac = format!("{}.{}", v % 1000, v);
        assert_eq!(LiteralValue::Number(frac.clone()).to_string(), double_text(&frac));
        v = v * 10 + (v % 9) + 1;
    }
}

#[test]
fn long_number_literals_keep_their_digits() {
    assert_eq!(
        LiteralValue::Number("123456789012345678".to_string()).to_string(),
        "123456789012345678.0"
    );
}
