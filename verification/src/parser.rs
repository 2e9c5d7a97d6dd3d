use vstd::prelude::*;

use crate::ast::{BinaryOp, Expr, ExprView, LiteralValue, LiteralView, UnaryOp};
use crate::error::{CompileError, CompileErrorKind, CompileErrorView, ErrorKindView};
use crate::grammar::{starts_with_expr, lemma_parse_succeeds_iff};
use crate::text::{push_char, chars_of};
use crate::token::{Token, TokenKind, TokenView, token_views, quoted_lexeme, unquoted};

verus! {

// Stratified grammar: each rule calls the next-higher-precedence rule, which
// encodes operator precedence in the recursive descent itself.
//
// expression     → equality ;
// equality       → comparison ( ( "!=" | "==" ) comparison )* ;
// comparison     → term ( ( ">" | ">=" | "<" | "<=" ) term )* ;
// term           → factor ( ( "-" | "+" ) factor )* ;
// factor         → unary ( ( "/" | "*" ) unary )* ;
// unary          → ( "!" | "-" ) unary | primary ;
// primary        → NUMBER | STRING | "true" | "false" | "nil"
//                | "(" expression ")" ;
//
// Below, the four binary rules are levels of one rule: level 1 is `factor`,
// 2 `term`, 3 `comparison` and 4 `equality`; level 0 is `unary`.

/// The level of `factor`.
pub open spec fn factor_level() -> nat { 1 }

/// The level of `term`.
pub open spec fn term_level() -> nat { 2 }

/// The level of `comparison`.
pub open spec fn comparison_level() -> nat { 3 }

/// The level of `equality`, the rule that `expression` is.
pub open spec fn equality_level() -> nat { 4 }

/// The binary operator that the token kind `k` stands for at `level`.
pub open spec fn binary_op_at(level: nat, k: TokenKind) -> Option<BinaryOp> {
    if level == 1 {
        match k {
            TokenKind::Slash => Some(BinaryOp::Divide),
            TokenKind::Star => Some(BinaryOp::Multiply),
            _ => None,
        }
    } else if level == 2 {
        match k {
            TokenKind::Minus => Some(BinaryOp::Subtract),
            TokenKind::Plus => Some(BinaryOp::Add),
            _ => None,
        }
    } else if level == 3 {
        match k {
            TokenKind::Greater => Some(BinaryOp::Greater),
            TokenKind::GreaterEqual => Some(BinaryOp::GreaterEqual),
            TokenKind::Less => Some(BinaryOp::Less),
            TokenKind::LessEqual => Some(BinaryOp::LessEqual),
            _ => None,
        }
    } else if level == 4 {
        match k {
            TokenKind::BangEqual => Some(BinaryOp::NotEqual),
            TokenKind::EqualEqual => Some(BinaryOp::Equal),
            _ => None,
        }
    } else {
        None
    }
}

/// The unary operator that the token kind `k` stands for.
pub open spec fn unary_op_of(k: TokenKind) -> Option<UnaryOp> {
    match k {
        TokenKind::Bang => Some(UnaryOp::Not),
        TokenKind::Minus => Some(UnaryOp::Negate),
        _ => None,
    }
}

/// The parse error reported at token `pos`: `at end` for the end-of-file
/// token, otherwise `at '{lexeme}'`, on that token's line.
pub open spec fn error_at(ts: Seq<TokenView>, pos: int, message: Seq<char>) -> CompileErrorView {
    let t = ts[pos];
    CompileErrorView {
        line: t.line,
        kind: ErrorKindView::ParseError {
            at: if t.kind == TokenKind::Eof { "end"@ } else { seq!['\''] + t.lexeme + seq!['\''] },
            message,
        },
    }
}

/// What a grammar rule yields from a position: the expression and the
/// position after it; an error and the position of the token it was found
/// at, where the parser then stands; or `Stuck` where parsing would look past
/// the last token or strip the quotes off a string lexeme that cannot lose
/// them.
pub enum Parsed {
    Done(ExprView, int),
    Failed(CompileErrorView, int),
    Stuck,
}

/// `primary` at `pos`.
pub open spec fn parse_primary(ts: Seq<TokenView>, pos: int) -> Parsed
    decreases ts.len() - pos, 0int,
{
    if 0 <= pos < ts.len() {
        let t = ts[pos];
        match t.kind {
            TokenKind::Number => Parsed::Done(ExprView::Literal(LiteralView::Number(t.lexeme)), pos + 1),
            TokenKind::Str => if quoted_lexeme(t.lexeme) {
                Parsed::Done(ExprView::Literal(LiteralView::Str(unquoted(t.lexeme))), pos + 1)
            } else {
                Parsed::Stuck
            },
            TokenKind::True => Parsed::Done(ExprView::Literal(LiteralView::True), pos + 1),
            TokenKind::False => Parsed::Done(ExprView::Literal(LiteralView::False), pos + 1),
            TokenKind::Nil => Parsed::Done(ExprView::Literal(LiteralView::Nil), pos + 1),
            TokenKind::LeftParen => match parse_level(ts, pos + 1, equality_level()) {
                Parsed::Done(inner, q) => if 0 <= q < ts.len() {
                    if ts[q].kind == TokenKind::RightParen {
                        Parsed::Done(ExprView::Grouping(Box::new(inner)), q + 1)
                    } else {
                        Parsed::Failed(error_at(ts, q, "Expect ')' after expression."@), q)
                    }
                } else {
                    Parsed::Stuck
                },
                other => other,
            },
            _ => Parsed::Failed(error_at(ts, pos, "Expect expression."@), pos),
        }
    } else {
        Parsed::Stuck
    }
}

/// `unary` at `pos`.
pub open spec fn parse_unary(ts: Seq<TokenView>, pos: int) -> Parsed
    decreases ts.len() - pos, 1int,
{
    if 0 <= pos < ts.len() && unary_op_of(ts[pos].kind) is Some {
        match parse_unary(ts, pos + 1) {
            Parsed::Done(operand, q) => Parsed::Done(
                ExprView::Unary {
                    operator: unary_op_of(ts[pos].kind)->0,
                    operator_line: ts[pos].line,
                    operand: Box::new(operand),
                },
                q,
            ),
            other => other,
        }
    } else {
        parse_primary(ts, pos)
    }
}

/// The binary rule of `level` at `pos` (`unary` at level 0).
pub open spec fn parse_level(ts: Seq<TokenView>, pos: int, level: nat) -> Parsed
    decreases ts.len() - pos, level + 2,
{
    if level == 0 {
        parse_unary(ts, pos)
    } else {
        match parse_level(ts, pos, (level - 1) as nat) {
            Parsed::Done(left, q) => if pos < q <= ts.len() {
                parse_rest(ts, q, level, left)
            } else {
                Parsed::Stuck
            },
            other => other,
        }
    }
}

/// The repetition `( op operand )*` of the binary rule of `level`, from `pos`,
/// where `left` is the expression so far; it groups to the left.
pub open spec fn parse_rest(ts: Seq<TokenView>, pos: int, level: nat, left: ExprView) -> Parsed
    decreases ts.len() - pos, 0int,
{
    if !(0 <= pos < ts.len()) {
        Parsed::Stuck
    } else if level >= 1 && binary_op_at(level, ts[pos].kind) is Some {
        match parse_level(ts, pos + 1, (level - 1) as nat) {
            Parsed::Done(right, q) => {
                let e = ExprView::Binary {
                    left: Box::new(left),
                    operator: binary_op_at(level, ts[pos].kind)->0,
                    operator_line: ts[pos].line,
                    right: Box::new(right),
                };
                if pos < q <= ts.len() {
                    parse_rest(ts, q, level, e)
                } else {
                    Parsed::Stuck
                }
            },
            other => other,
        }
    } else {
        Parsed::Done(left, pos)
    }
}

/// `expression` at `pos`.
pub open spec fn parse_expression(ts: Seq<TokenView>, pos: int) -> Parsed {
    parse_level(ts, pos, equality_level())
}

/// What parsing `ts` yields: the expression at its start (the tokens after it
/// are not looked at), or the first error.
pub open spec fn parse_tokens(ts: Seq<TokenView>) -> Parsed {
    parse_expression(ts, 0)
}

/// Every string token before the first end-of-file token can lose its quotes.
pub open spec fn strings_quoted(ts: Seq<TokenView>) -> bool {
    forall|i: int|
        #![trigger ts[i]]
        0 <= i < ts.len() && ts[i].kind == TokenKind::Str
            && (forall|j: int| 0 <= j < i ==> ts[j].kind != TokenKind::Eof)
            ==> quoted_lexeme(ts[i].lexeme)
}

/// Tokens the parser can work on whatever they hold: an end-of-file token
/// stops it, and the strings it may meet before can lose their quotes.
pub open spec fn parseable(ts: Seq<TokenView>) -> bool {
    &&& exists|k: int| 0 <= k < ts.len() && ts[k].kind == TokenKind::Eof
    &&& strings_quoted(ts)
}

/// Whether an executable parse result agrees with the rule's result `spec`,
/// the parser then standing at `pos_after`: after the expression when it
/// succeeded, at the token the error was found at when it failed.
pub open spec fn outcome(res: &Result<Expr, CompileError>, spec: Parsed, pos_after: int) -> bool {
    match (res, spec) {
        (Ok(e), Parsed::Done(ev, q)) => e@ == ev && pos_after == q,
        (Err(e), Parsed::Failed(ev, p)) => e@ == ev && pos_after == p,
        _ => false,
    }
}

/// A recursive-descent parser over a token sequence.
pub struct Parser<'a> {
    tokens: &'a [Token],
    current: usize,
}

impl<'a> Parser<'a> {
    /// The tokens being parsed.
    pub closed spec fn tokens_view(&self) -> Seq<TokenView> {
        token_views(self.tokens@)
    }

    /// The tokens being parsed, as handed to [`Parser::new`].
    pub closed spec fn token_slice(&self) -> &'a [Token] {
        self.tokens
    }

    /// The index of the token the parser stands at.
    pub closed spec fn position(&self) -> int {
        self.current as int
    }

    /// The parser has not started.
    pub closed spec fn is_fresh(&self) -> bool {
        self.current == 0
    }

    // --- Helpers ---

    fn peek(&self) -> (res: &'a Token)
        requires
            self.current < self.tokens@.len(),
        ensures
            *res == self.tokens@[self.current as int],
    {
        &self.tokens[self.current]
    }

    fn previous(&self) -> (res: &'a Token)
        requires
            0 < self.current <= self.tokens@.len(),
        ensures
            *res == self.tokens@[self.current - 1],
    {
        &self.tokens[self.current - 1]
    }

    fn is_at_end(&self) -> (res: bool)
        requires
            self.current < self.tokens@.len(),
        ensures
            res == (self.tokens@[self.current as int].kind == TokenKind::Eof),
    {
        matches!(self.peek().kind, TokenKind::Eof)
    }

    /// Moves past the current token and returns it; at the end-of-file token
    /// the parser stays where it is and returns the token before it.
    pub fn advance(&mut self) -> (res: &'a Token)
        requires
            0 <= old(self).position() < old(self).tokens_view().len(),
            old(self).position() > 0
                || old(self).tokens_view()[old(self).position()].kind != TokenKind::Eof,
        ensures
            final(self).tokens_view() == old(self).tokens_view(),
            if old(self).tokens_view()[old(self).position()].kind != TokenKind::Eof {
                &&& final(self).position() == old(self).position() + 1
                &&& res@ == old(self).tokens_view()[old(self).position()]
            } else {
                // The end-of-file token is never passed.
                &&& final(self).position() == old(self).position()
                &&& res@ == old(self).tokens_view()[old(self).position() - 1]
            },
            final(self).token_slice() == old(self).token_slice(),
            // what is returned is the token just before where the parser now stands
            *res == old(self).token_slice()@[final(self).position() - 1],
    {
        proof {
            // the slice's length is a usize
            assert(self.tokens@.len() == self.tokens.len());
        }
        if !self.is_at_end() {
            self.current = self.current + 1;
        }
        self.previous()
    }

    fn consume(&mut self, kind: TokenKind, message: &'static str) -> (res: Result<&'a Token, CompileError>)
        requires
            old(self).current < old(self).tokens@.len(),
            kind != TokenKind::Eof,
        ensures
            final(self).tokens == old(self).tokens,
            match res {
                Ok(t) => {
                    &&& old(self).tokens@[old(self).current as int].kind == kind
                    &&& *t == old(self).tokens@[old(self).current as int]
                    &&& final(self).current == old(self).current + 1
                },
                Err(e) => {
                    &&& old(self).tokens@[old(self).current as int].kind != kind
                    &&& e@ == error_at(old(self).tokens_view(), old(self).current as int, message@)
                    &&& final(self).current == old(self).current
                },
            },
    {
        if self.peek().kind == kind {
            Ok(self.advance())
        } else {
            Err(self.error_at_current(message))
        }
    }

    fn error_at_current(&self, message: &'static str) -> (res: CompileError)
        requires
            self.current < self.tokens@.len(),
        ensures
            res@ == error_at(self.tokens_view(), self.current as int, message@),
    {
        let token = self.peek();
        let mut at = String::new();
        if matches!(token.kind, TokenKind::Eof) {
            at.append("end");
        } else {
            push_char(&mut at, '\'');
            at.append(token.lexeme.as_str());
            push_char(&mut at, '\'');
        }
        proof {
            let ts = self.tokens_view();
            assert(ts[self.current as int] == self.tokens@[self.current as int]@);
            if token.kind != TokenKind::Eof {
                assert(at@ =~= seq!['\''] + token.lexeme@ + seq!['\'']);
            } else {
                assert(at@ =~= "end"@);
            }
        }
        CompileError { line: token.line, kind: CompileErrorKind::ParseError { at, message } }
    }

    // --- Grammar rules (ascending precedence) ---

    fn primary(&mut self) -> (res: Result<Expr, CompileError>)
        requires
            old(self).current <= old(self).tokens@.len(),
            !(parse_primary(old(self).tokens_view(), old(self).current as int) is Stuck),
        ensures
            final(self).tokens == old(self).tokens,
            outcome(&res, parse_primary(old(self).tokens_view(), old(self).current as int), final(self).current as int),
            res is Ok ==> old(self).current < final(self).current <= final(self).tokens@.len(),
        decreases old(self).tokens@.len() - old(self).current, 0int,
    {
        let ghost ts = self.tokens_view();
        let ghost pos = self.current as int;
        proof {
            assert(ts[pos] == self.tokens@[pos]@);
        }
        match self.peek().kind {
            TokenKind::Number => {
                let t = self.advance();
                let value = t.lexeme.clone();
                Ok(Expr::Literal(LiteralValue::Number(value)))
            },
            TokenKind::Str => {
                self.advance();
                let lexeme = self.previous();
                // Strip surrounding quotes: the lexeme is `"hello"`, the value `hello`.
                let chars = chars_of(lexeme.lexeme.as_str());
                let value = crate::text::string_from_range(&chars, 1, chars.len() - 1);
                Ok(Expr::Literal(LiteralValue::Str(value)))
            },
            TokenKind::True => {
                self.advance();
                Ok(Expr::Literal(LiteralValue::True))
            },
            TokenKind::False => {
                self.advance();
                Ok(Expr::Literal(LiteralValue::False))
            },
            TokenKind::Nil => {
                self.advance();
                Ok(Expr::Literal(LiteralValue::Nil))
            },
            TokenKind::LeftParen => {
                self.advance();
                let expr = match self.expression() {
                    Ok(e) => e,
                    Err(e) => return Err(e),
                };
                proof {
                    assert(ts[self.current as int] == self.tokens@[self.current as int]@);
                }
                match self.consume(TokenKind::RightParen, "Expect ')' after expression.") {
                    Ok(_) => {},
                    Err(e) => return Err(e),
                }
                Ok(Expr::Grouping(Box::new(expr)))
            },
            _ => Err(self.error_at_current("Expect expression.")),
        }
    }

    fn unary(&mut self) -> (res: Result<Expr, CompileError>)
        requires
            old(self).current <= old(self).tokens@.len(),
            !(parse_unary(old(self).tokens_view(), old(self).current as int) is Stuck),
        ensures
            final(self).tokens == old(self).tokens,
            outcome(&res, parse_unary(old(self).tokens_view(), old(self).current as int), final(self).current as int),
            res is Ok ==> old(self).current < final(self).current <= final(self).tokens@.len(),
        decreases old(self).tokens@.len() - old(self).current, 1int,
    {
        let ghost ts = self.tokens_view();
        let ghost pos = self.current as int;
        proof {
            if pos >= ts.len() {
                assert(parse_unary(ts, pos) == parse_primary(ts, pos));
            }
            assert(ts[pos] == self.tokens@[pos]@);
        }
        if matches!(self.peek().kind, TokenKind::Bang | TokenKind::Minus) {
            self.advance();
            let op_token = self.previous();
            let operator = match op_token.kind {
                TokenKind::Bang => UnaryOp::Not,
                // the condition above leaves only `-`
                _ => UnaryOp::Negate,
            };
            let operator_line = op_token.line;
            let operand = match self.unary() {
                Ok(e) => e,
                Err(e) => return Err(e),
            };
            return Ok(Expr::Unary { operator, operator_line, operand: Box::new(operand) });
        }
        self.primary()
    }

    fn factor(&mut self) -> (res: Result<Expr, CompileError>)
        requires
            old(self).current <= old(self).tokens@.len(),
            !(parse_level(old(self).tokens_view(), old(self).current as int, factor_level()) is Stuck),
        ensures
            final(self).tokens == old(self).tokens,
            outcome(&res, parse_level(old(self).tokens_view(), old(self).current as int, factor_level()), final(self).current as int),
            res is Ok ==> old(self).current < final(self).current <= final(self).tokens@.len(),
        decreases old(self).tokens@.len() - old(self).current, 3int,
    {
        let ghost ts = self.tokens_view();
        let ghost pos0 = self.current as int;
        proof {
            assert(parse_level(ts, pos0, 0) == parse_unary(ts, pos0));
        }
        let mut expr = match self.unary() {
            Ok(e) => e,
            Err(e) => return Err(e),
        };
        while matches!(self.peek().kind, TokenKind::Slash | TokenKind::Star)
            invariant
                self.current <= self.tokens@.len(),
                self.tokens == old(self).tokens,
                ts == self.tokens_view(),
                pos0 < self.current,
                pos0 == old(self).current,
                parse_rest(ts, self.current as int, factor_level(), expr@) == parse_level(ts, pos0, factor_level()),
                !(parse_level(ts, pos0, factor_level()) is Stuck),
            decreases self.tokens@.len() - self.current,
        {
            let ghost pos = self.current as int;
            let ghost left = expr@;
            proof {
                assert(ts[pos] == self.tokens@[pos]@);
            }
            self.advance();
            let op_token = self.previous();
            let operator = match op_token.kind {
                TokenKind::Slash => BinaryOp::Divide,
                // the loop condition leaves only this kind
                _ => BinaryOp::Multiply,
            };
            let operator_line = op_token.line;
            proof {
                assert(parse_level(ts, pos + 1, 0) == parse_unary(ts, pos + 1));
            }
            let right = match self.unary() {
                Ok(e) => e,
                Err(e) => return Err(e),
            };
            expr = Expr::Binary {
                left: Box::new(expr),
                operator,
                operator_line,
                right: Box::new(right),
            };
            proof {
                assert(expr@ == ExprView::Binary {
                    left: Box::new(left),
                    operator: binary_op_at(factor_level(), ts[pos].kind)->0,
                    operator_line: ts[pos].line,
                    right: Box::new(right@),
                });
            }
        }
        Ok(expr)
    }

    fn term(&mut self) -> (res: Result<Expr, CompileError>)
        requires
            old(self).current <= old(self).tokens@.len(),
            !(parse_level(old(self).tokens_view(), old(self).current as int, term_level()) is Stuck),
        ensures
            final(self).tokens == old(self).tokens,
            outcome(&res, parse_level(old(self).tokens_view(), old(self).current as int, term_level()), final(self).current as int),
            res is Ok ==> old(self).current < final(self).current <= final(self).tokens@.len(),
        decreases old(self).tokens@.len() - old(self).current, 4int,
    {
        let ghost ts = self.tokens_view();
        let ghost pos0 = self.current as int;
        let mut expr = match self.factor() {
            Ok(e) => e,
            Err(e) => return Err(e),
        };
        while matches!(self.peek().kind, TokenKind::Minus | TokenKind::Plus)
            invariant
                self.current <= self.tokens@.len(),
                self.tokens == old(self).tokens,
                ts == self.tokens_view(),
                pos0 < self.current,
                pos0 == old(self).current,
                parse_rest(ts, self.current as int, term_level(), expr@) == parse_level(ts, pos0, term_level()),
                !(parse_level(ts, pos0, term_level()) is Stuck),
            decreases self.tokens@.len() - self.current,
        {
            let ghost pos = self.current as int;
            let ghost left = expr@;
            proof {
                assert(ts[pos] == self.tokens@[pos]@);
            }
            self.advance();
            let op_token = self.previous();
            let operator = match op_token.kind {
                TokenKind::Minus => BinaryOp::Subtract,
                // the loop condition leaves only this kind
                _ => BinaryOp::Add,
            };
            let operator_line = op_token.line;
            let right = match self.factor() {
                Ok(e) => e,
                Err(e) => return Err(e),
            };
            expr = Expr::Binary {
                left: Box::new(expr),
                operator,
                operator_line,
                right: Box::new(right),
            };
            proof {
                assert(expr@ == ExprView::Binary {
                    left: Box::new(left),
                    operator: binary_op_at(term_level(), ts[pos].kind)->0,
                    operator_line: ts[pos].line,
                    right: Box::new(right@),
                });
            }
        }
        Ok(expr)
    }

    fn comparison(&mut self) -> (res: Result<Expr, CompileError>)
        requires
            old(self).current <= old(self).tokens@.len(),
            !(parse_level(old(self).tokens_view(), old(self).current as int, comparison_level()) is Stuck),
        ensures
            final(self).tokens == old(self).tokens,
            outcome(&res, parse_level(old(self).tokens_view(), old(self).current as int, comparison_level()), final(self).current as int),
            res is Ok ==> old(self).current < final(self).current <= final(self).tokens@.len(),
        decreases old(self).tokens@.len() - old(self).current, 5int,
    {
        let ghost ts = self.tokens_view();
        let ghost pos0 = self.current as int;
        let mut expr = match self.term() {
            Ok(e) => e,
            Err(e) => return Err(e),
        };
        while matches!(self.peek().kind, TokenKind::Greater | TokenKind::GreaterEqual | TokenKind::Less | TokenKind::LessEqual)
            invariant
                self.current <= self.tokens@.len(),
                self.tokens == old(self).tokens,
                ts == self.tokens_view(),
                pos0 < self.current,
                pos0 == old(self).current,
                parse_rest(ts, self.current as int, comparison_level(), expr@) == parse_level(ts, pos0, comparison_level()),
                !(parse_level(ts, pos0, comparison_level()) is Stuck),
            decreases self.tokens@.len() - self.current,
        {
            let ghost pos = self.current as int;
            let ghost left = expr@;
            proof {
                assert(ts[pos] == self.tokens@[pos]@);
            }
            self.advance();
            let op_token = self.previous();
            let operator = match op_token.kind {
                TokenKind::Greater => BinaryOp::Greater,
                TokenKind::GreaterEqual => BinaryOp::GreaterEqual,
                TokenKind::Less => BinaryOp::Less,
                // the loop condition leaves only this kind
                _ => BinaryOp::LessEqual,
            };
            let operator_line = op_token.line;
            let right = match self.term() {
                Ok(e) => e,
                Err(e) => return Err(e),
            };
            expr = Expr::Binary {
                left: Box::new(expr),
                operator,
                operator_line,
                right: Box::new(right),
            };
            proof {
                assert(expr@ == ExprView::Binary {
                    left: Box::new(left),
                    operator: binary_op_at(comparison_level(), ts[pos].kind)->0,
                    operator_line: ts[pos].line,
                    right: Box::new(right@),
                });
            }
        }
        Ok(expr)
    }

    fn equality(&mut self) -> (res: Result<Expr, CompileError>)
        requires
            old(self).current <= old(self).tokens@.len(),
            !(parse_level(old(self).tokens_view(), old(self).current as int, equality_level()) is Stuck),
        ensures
            final(self).tokens == old(self).tokens,
            outcome(&res, parse_level(old(self).tokens_view(), old(self).current as int, equality_level()), final(self).current as int),
            res is Ok ==> old(self).current < final(self).current <= final(self).tokens@.len(),
        decreases old(self).tokens@.len() - old(self).current, 6int,
    {
        let ghost ts = self.tokens_view();
        let ghost pos0 = self.current as int;
        let mut expr = match self.comparison() {
            Ok(e) => e,
            Err(e) => return Err(e),
        };
        while matches!(self.peek().kind, TokenKind::BangEqual | TokenKind::EqualEqual)
            invariant
                self.current <= self.tokens@.len(),
                self.tokens == old(self).tokens,
                ts == self.tokens_view(),
                pos0 < self.current,
                pos0 == old(self).current,
                parse_rest(ts, self.current as int, equality_level(), expr@) == parse_level(ts, pos0, equality_level()),
                !(parse_level(ts, pos0, equality_level()) is Stuck),
            decreases self.tokens@.len() - self.current,
        {
            let ghost pos = self.current as int;
            let ghost left = expr@;
            proof {
                assert(ts[pos] == self.tokens@[pos]@);
            }
            self.advance();
            let op_token = self.previous();
            let operator = match op_token.kind {
                TokenKind::BangEqual => BinaryOp::NotEqual,
                // the loop condition leaves only this kind
                _ => BinaryOp::Equal,
            };
            let operator_line = op_token.line;
            let right = match self.comparison() {
                Ok(e) => e,
                Err(e) => return Err(e),
            };
            expr = Expr::Binary {
                left: Box::new(expr),
                operator,
                operator_line,
                right: Box::new(right),
            };
            proof {
                assert(expr@ == ExprView::Binary {
                    left: Box::new(left),
                    operator: binary_op_at(equality_level(), ts[pos].kind)->0,
                    operator_line: ts[pos].line,
                    right: Box::new(right@),
                });
            }
        }
        Ok(expr)
    }

    fn expression(&mut self) -> (res: Result<Expr, CompileError>)
        requires
            old(self).current <= old(self).tokens@.len(),
            !(parse_expression(old(self).tokens_view(), old(self).current as int) is Stuck),
        ensures
            final(self).tokens == old(self).tokens,
            outcome(&res, parse_expression(old(self).tokens_view(), old(self).current as int), final(self).current as int),
            res is Ok ==> old(self).current < final(self).current <= final(self).tokens@.len(),
        decreases old(self).tokens@.len() - old(self).current, 7int,
    {
        self.equality()
    }

    // --- Public API ---

    /// A parser at the start of `tokens`.
    pub fn new(tokens: &'a [Token]) -> (res: Self)
        ensures
            res.is_fresh(),
            res.tokens_view() == token_views(tokens@),
            res.token_slice() == tokens,
            res.position() == 0,
    {
        Parser { tokens, current: 0 }
    }

    /// Parses one expression from the start of the tokens. On failure the
    /// single error found is returned.
    pub fn parse(self) -> (res: Result<Expr, Vec<CompileError>>)
        requires
            self.is_fresh(),
            !(parse_tokens(self.tokens_view()) is Stuck),
        ensures
            match (res, parse_tokens(self.tokens_view())) {
                (Ok(e), Parsed::Done(ev, _)) => e@ == ev,
                (Err(es), Parsed::Failed(ev, _)) => es@.len() == 1 && es@[0]@ == ev,
                _ => false,
            },
            // On tokens that end in an end-of-file token: the result is the
            // well-formed expression the tokens start with, if there is one.
            parseable(self.tokens_view()) ==> {
                &&& res is Ok <==> exists|e: ExprView| starts_with_expr(self.tokens_view(), e)
                &&& res matches Ok(e) ==> starts_with_expr(self.tokens_view(), e@)
            },
    {
        proof {
            if parseable(self.tokens_view()) {
                lemma_parse_succeeds_iff(self.tokens_view());
            }
        }
        let mut parser = self;
        match parser.expression() {
            Ok(e) => Ok(e),
            Err(e) => {
                let mut errors = Vec::new();
                errors.push(e);
                Err(errors)
            },
        }
    }
}

/// Whether the parser can work on `tokens` (see [`parseable`]).
pub fn is_parseable(tokens: &[Token]) -> (res: bool)
    ensures
        res == parseable(token_views(tokens@)),
{
    let ghost ts = token_views(tokens@);
    let mut i: usize = 0;
    while i < tokens.len()
        invariant
            i <= tokens@.len(),
            ts == token_views(tokens@),
            forall|j: int| 0 <= j < i ==> ts[j].kind != TokenKind::Eof,
            forall|j: int| 0 <= j < i && ts[j].kind == TokenKind::Str ==> quoted_lexeme(ts[j].lexeme),
        decreases tokens.len() - i,
    {
        let t = &tokens[i];
        assert(ts[i as int] == t@);
        if matches!(t.kind, TokenKind::Eof) {
            assert forall|j: int|
                #![trigger ts[j]]
                0 <= j < ts.len() && ts[j].kind == TokenKind::Str
                    && (forall|l: int| 0 <= l < j ==> ts[l].kind != TokenKind::Eof)
                    implies quoted_lexeme(ts[j].lexeme) by {
                if j > i {
                    assert(ts[i as int].kind == TokenKind::Eof);
                }
            }
            return true;
        }
        if matches!(t.kind, TokenKind::Str) {
            let chars = chars_of(t.lexeme.as_str());
            if chars.len() < 2 || chars[0] as u32 >= 0x80 || chars[chars.len() - 1] as u32 >= 0x80 {
                proof {
                    assert(!quoted_lexeme(ts[i as int].lexeme));
                    assert(forall|l: int| 0 <= l < i ==> ts[l].kind != TokenKind::Eof);
                }
                return false;
            }
        }
        i = i + 1;
    }
    false
}

} // verus!
