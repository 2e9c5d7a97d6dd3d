use loxrs::error::{CompileError, CompileErrorKind, LoxError, RuntimeError};

#[test]
fn exit_codes() {
    assert_eq!(LoxError::Compile(vec![]).exit_code(), 65);
    let runtime = RuntimeError { message: "Operand must be a number.".to_string(), line: 3 };
    assert_eq!(LoxError::Runtime(runtime).exit_code(), 70);
}

#[test]
fn compile_errors_print_one_per_line() {
    let errors = vec![
        CompileError { line: 1, kind: CompileErrorKind::UnexpectedCharacter('@') },
        CompileError { line: 12, kind: CompileErrorKind::UnterminatedString },
        CompileError {
            line: 100,
            kind: CompileErrorKind::ParseError { at: "'x'".to_string(), message: "Expect expression." },
        },
    ];
    assert_eq!(
        LoxError::Compile(errors).to_string(),
        "[line 1] Error: Unexpected character: @\n[line 12] Error: Unterminated string.\n[line 100] Error at 'x': Expect expression."
    );
    assert_eq!(LoxError::Compile(vec![]).to_string(), "");
}

#[test]
fn runtime_error_text() {
    let e = RuntimeError { message: "Operand must be a number.".to_string(), line: 7 };
    assert_eq!(e.to_string(), "Operand must be a number.\n[line 7]");
    let e = RuntimeError { message: "m".to_string(), line: 0 };
    assert_eq!(LoxError::Runtime(e).to_string(), "m\n[line 0]");
}

#[test]
fn kind_text() {
    assert_eq!(CompileErrorKind::UnterminatedString.to_string(), "Error: Unterminated string.");
    assert_eq!(
        CompileErrorKind::ParseError { at: "end".to_string(), message: "Expect expression." }.to_string(),
        "Error at end: Expect expression."
    );
}
