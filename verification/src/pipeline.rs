use vstd::prelude::*;

use crate::ast::expr_text;
use crate::error::{LoxError, error_views};
use crate::grammar::lemma_parse_sound;
use crate::lexing::{lemma_tokens_shape, lemma_scanned_tokens_parseable};
use crate::parser::{Parsed, Parser, parse_tokens, strings_quoted};
use crate::scanner::{Scanner, fits_in_memory, source_errors, source_tokens};
use crate::token::{TokenKind, quoted_lexeme, token_text, token_views};

verus! {

/// How far to take a source text: print its tokens, or parse it and print
/// the expression.
#[derive(Clone, Copy, Debug, PartialEq, Eq, Structural)]
pub enum Mode {
    Tokenize,
    Parse,
}

/// The lines that running `src` in `mode` prints, when it succeeds: one per
/// token when tokenizing, otherwise the printed expression.
pub open spec fn run_output(src: Seq<char>, mode: Option<Mode>, lines: Seq<Seq<char>>) -> bool {
    let ts = source_tokens(src);
    if mode == Some(Mode::Tokenize) {
        &&& lines.len() == ts.len()
        &&& forall|i: int| 0 <= i < ts.len() ==> lines[i] == token_text(#[trigger] ts[i])
    } else {
        match parse_tokens(ts) {
            Parsed::Done(e, _) => lines == seq![expr_text(e)],
            _ => false,
        }
    }
}

/// Runs `src` as far as `mode` says (without a mode, as far as the pipeline
/// goes, which is parsing): the lines to print, or the error. Scanning errors
/// come all together; otherwise, when parsing, the parse error.
pub fn run(source: &str, mode: Option<Mode>) -> (res: Result<Vec<String>, LoxError>)
    requires
        fits_in_memory(source@),
    ensures
        match res {
            Ok(lines) => {
                &&& source_errors(source@).len() == 0
                &&& run_output(source@, mode, lines@.map_values(|l: String| l@))
            },
            Err(LoxError::Compile(errors)) => if source_errors(source@).len() > 0 {
                error_views(errors@) == source_errors(source@)
            } else {
                &&& mode != Some(Mode::Tokenize)
                &&& parse_tokens(source_tokens(source@)) matches Parsed::Failed(e, _)
                &&& errors@.len() == 1
                &&& errors@[0]@ == e
            },
            Err(LoxError::Runtime(_)) => false,
        },
{
    let scanner = Scanner::new(source);
    let tokens = match scanner.scan_tokens() {
        Ok(tokens) => tokens,
        Err(errors) => return Err(LoxError::Compile(errors)),
    };
    let ghost ts = token_views(tokens@);
    proof {
        lemma_tokens_shape(source@);
        lemma_scanned_tokens_parseable(source@);
        lemma_parse_sound(ts);
    }
    match mode {
        Some(Mode::Tokenize) => {
            let mut lines: Vec<String> = Vec::new();
            let mut i: usize = 0;
            while i < tokens.len()
                invariant
                    i <= tokens@.len(),
                    ts == token_views(tokens@),
                    ts == source_tokens(source@),
                    strings_quoted(ts),
                    forall|j: int| 0 <= j < ts.len() - 1 ==> (#[trigger] ts[j]).kind != TokenKind::Eof,
                    ts.last().kind == TokenKind::Eof,
                    lines@.len() == i,
                    forall|j: int| 0 <= j < i ==> lines@[j]@ == token_text(#[trigger] ts[j]),
                decreases tokens.len() - i,
            {
                proof {
                    assert(ts[i as int] == tokens@[i as int]@);
                    if ts[i as int].kind == TokenKind::Str {
                        assert forall|j: int| 0 <= j < i implies ts[j].kind != TokenKind::Eof by {
                            assert(j < ts.len() - 1);
                        }
                        assert(quoted_lexeme(ts[i as int].lexeme));
                    }
                }
                lines.push(tokens[i].to_string());
                i = i + 1;
            }
            proof {
                assert forall|j: int| 0 <= j < ts.len() implies lines@.map_values(|l: String| l@)[j]
                    == token_text(#[trigger] ts[j]) by {
                }
            }
            Ok(lines)
        },
        // Parsing, which is also as far as the pipeline goes.
        _ => {
            let parser = Parser::new(tokens.as_slice());
            match parser.parse() {
                Ok(expr) => {
                    let mut lines: Vec<String> = Vec::new();
                    lines.push(expr.to_string());
                    proof {
                        assert(lines@.map_values(|l: String| l@) =~= seq![expr_text(expr@)]);
                    }
                    Ok(lines)
                },
                Err(errors) => Err(LoxError::Compile(errors)),
            }
        },
    }
}

} // verus!
