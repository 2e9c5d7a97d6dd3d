use vstd::prelude::*;

use crate::text::{decimal, push_char, push_decimal};

verus! {

/// Top-level error of the interpreter: compile errors are collected before
/// halting, a runtime error halts at once.
#[derive(Debug)]
pub enum LoxError {
    Compile(Vec<CompileError>),
    Runtime(RuntimeError),
}

/// An error found while scanning or parsing, with the line it was found on.
#[derive(Debug)]
pub struct CompileError {
    pub line: usize,
    pub kind: CompileErrorKind,
}

/// What went wrong. Scanning errors print as `Error: {message}`, parse errors
/// as `Error at {at}: {message}`.
#[derive(Debug)]
pub enum CompileErrorKind {
    // Scanning errors
    UnexpectedCharacter(char),
    UnterminatedString,
    // Parsing errors
    ParseError { at: String, message: &'static str },
}

/// An error raised while running a program.
#[derive(Debug)]
pub struct RuntimeError {
    pub message: String,
    pub line: usize,
}

/// The model of a compile error's kind.
pub enum ErrorKindView {
    UnexpectedCharacter(char),
    UnterminatedString,
    ParseError { at: Seq<char>, message: Seq<char> },
}

/// The model of a compile error.
pub struct CompileErrorView {
    pub line: nat,
    pub kind: ErrorKindView,
}

impl View for CompileErrorKind {
    type V = ErrorKindView;

    open spec fn view(&self) -> ErrorKindView {
        match self {
            CompileErrorKind::UnexpectedCharacter(c) => ErrorKindView::UnexpectedCharacter(*c),
            CompileErrorKind::UnterminatedString => ErrorKindView::UnterminatedString,
            CompileErrorKind::ParseError { at, message } => ErrorKindView::ParseError {
                at: at@,
                message: message@,
            },
        }
    }
}

impl View for CompileError {
    type V = CompileErrorView;

    open spec fn view(&self) -> CompileErrorView {
        CompileErrorView { line: self.line as nat, kind: self.kind@ }
    }
}

/// The models of a sequence of compile errors.
pub open spec fn error_views(es: Seq<CompileError>) -> Seq<CompileErrorView> {
    Seq::new(es.len(), |i: int| es[i]@)
}

/// How the kind of a compile error is printed.
pub open spec fn error_kind_text(k: ErrorKindView) -> Seq<char> {
    match k {
        ErrorKindView::UnexpectedCharacter(c) => "Error: Unexpected character: "@.push(c),
        ErrorKindView::UnterminatedString => "Error: Unterminated string."@,
        ErrorKindView::ParseError { at, message } => "Error at "@ + at + ": "@ + message,
    }
}

/// How a compile error is printed: `[line N] ...`.
pub open spec fn compile_error_text(e: CompileErrorView) -> Seq<char> {
    "[line "@ + decimal(e.line) + "] "@ + error_kind_text(e.kind)
}

/// The printed compile errors, one per line.
pub open spec fn compile_errors_text(es: Seq<CompileErrorView>) -> Seq<char>
    decreases es.len(),
{
    if es.len() == 0 {
        Seq::empty()
    } else if es.len() == 1 {
        compile_error_text(es[0])
    } else {
        compile_errors_text(es.drop_last()) + seq!['\n'] + compile_error_text(es.last())
    }
}

/// How a runtime error is printed: its message, then `[line N]` on the next line.
pub open spec fn runtime_error_text(message: Seq<char>, line: nat) -> Seq<char> {
    message + seq!['\n'] + "[line "@ + decimal(line) + "]"@
}

/// How a top-level error is printed.
pub open spec fn lox_error_text(e: &LoxError) -> Seq<char> {
    match e {
        LoxError::Compile(es) => compile_errors_text(error_views(es@)),
        LoxError::Runtime(r) => runtime_error_text(r.message@, r.line as nat),
    }
}

impl LoxError {
    /// The process exit code for this error: 65 for compile errors, 70 for
    /// runtime errors.
    pub fn exit_code(&self) -> (code: i32)
        ensures
            code == (match self {
                LoxError::Compile(_) => 65i32,
                LoxError::Runtime(_) => 70i32,
            }),
    {
        match self {
            LoxError::Compile(_) => 65,
            LoxError::Runtime(_) => 70,
        }
    }

    /// The printed form of this error.
    pub fn to_string(&self) -> (res: String)
        ensures
            res@ == lox_error_text(self),
    {
        match self {
            LoxError::Compile(errors) => {
                let mut res = String::new();
                let mut i: usize = 0;
                while i < errors.len()
                    invariant
                        i <= errors.len(),
                        res@ == compile_errors_text(error_views(errors@.take(i as int))),
                    decreases errors.len() - i,
                {
                    let ghost before = res@;
                    if i > 0 {
                        push_char(&mut res, '\n');
                    }
                    errors[i].push_text(&mut res);
                    proof {
                        let vs = error_views(errors@.take(i + 1));
                        assert(vs.drop_last() =~= error_views(errors@.take(i as int)));
                        assert(vs.last() == errors@[i as int]@);
                        if i == 0 {
                            assert(res@ =~= compile_errors_text(vs));
                        } else {
                            assert(res@ =~= compile_errors_text(vs));
                        }
                    }
                    i = i + 1;
                }
                assert(errors@.take(errors.len() as int) =~= errors@);
                res
            },
            LoxError::Runtime(error) => error.to_string(),
        }
    }
}

impl CompileErrorKind {
    /// Appends the printed form of this kind to `s`.
    fn push_text(&self, s: &mut String)
        ensures
            final(s)@ == old(s)@ + error_kind_text(self@),
    {
        match self {
            CompileErrorKind::UnexpectedCharacter(c) => {
                s.append("Error: Unexpected character: ");
                push_char(s, *c);
            },
            CompileErrorKind::UnterminatedString => {
                s.append("Error: Unterminated string.");
            },
            CompileErrorKind::ParseError { at, message } => {
                s.append("Error at ");
                s.append(at.as_str());
                s.append(": ");
                s.append(message);
            },
        }
        assert(s@ =~= old(s)@ + error_kind_text(self@));
    }

    /// The printed form of this kind.
    pub fn to_string(&self) -> (res: String)
        ensures
            res@ == error_kind_text(self@),
    {
        let mut res = String::new();
        self.push_text(&mut res);
        assert(res@ =~= error_kind_text(self@));
        res
    }
}

impl CompileError {
    /// Appends the printed form of this error to `s`.
    fn push_text(&self, s: &mut String)
        ensures
            final(s)@ == old(s)@ + compile_error_text(self@),
    {
        s.append("[line ");
        push_decimal(s, self.line);
        s.append("] ");
        self.kind.push_text(s);
        assert(s@ =~= old(s)@ + compile_error_text(self@));
    }

    /// The printed form of this error: `[line N] Error...`.
    pub fn to_string(&self) -> (res: String)
        ensures
            res@ == compile_error_text(self@),
    {
        let mut res = String::new();
        self.push_text(&mut res);
        assert(res@ =~= compile_error_text(self@));
        res
    }
}

impl RuntimeError {
    /// The printed form of this error: the message, then `[line N]`.
    pub fn to_string(&self) -> (res: String)
        ensures
            res@ == runtime_error_text(self.message@, self.line as nat),
    {
        let mut res = String::new();
        res.append(self.message.as_str());
        push_char(&mut res, '\n');
        res.append("[line ");
        push_decimal(&mut res, self.line);
        res.append("]");
        assert(res@ =~= runtime_error_text(self.message@, self.line as nat));
        res
    }
}

} // verus!
