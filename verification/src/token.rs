use vstd::prelude::*;

use crate::text::{number_text, push_char, push_number_text, chars_of};

verus! {

/// The kinds of Lox tokens.
///
/// A number token carries no value here: its value is written out in the
/// token's lexeme, which is where the parser and the printer read it from.
#[derive(Clone, Copy, Debug, PartialEq, Eq, Structural)]
pub enum TokenKind {
    // Single-character tokens.
    LeftParen,
    RightParen,
    LeftBrace,
    RightBrace,
    Comma,
    Dot,
    Minus,
    Plus,
    Semicolon,
    Slash,
    Star,
    // One or two character tokens.
    Bang,
    BangEqual,
    Equal,
    EqualEqual,
    Greater,
    GreaterEqual,
    Less,
    LessEqual,
    // Literals.
    Identifier,
    Str,
    Number,
    // Keywords.
    And,
    Class,
    Else,
    False,
    For,
    Fun,
    If,
    Nil,
    Or,
    Print,
    Return,
    Super,
    This,
    True,
    Var,
    While,
    Eof,
}

/// A token: its kind, the source text it was scanned from, and where it
/// starts (`line` counts from 1, `column` from 0) and how many bytes it spans.
#[derive(Debug)]
pub struct Token {
    pub kind: TokenKind,
    pub lexeme: String,
    pub line: usize,
    pub column: usize,
    pub length: usize,
}

/// The mathematical model of a token.
pub struct TokenView {
    pub kind: TokenKind,
    pub lexeme: Seq<char>,
    pub line: nat,
    pub column: nat,
    pub length: nat,
}

impl View for Token {
    type V = TokenView;

    open spec fn view(&self) -> TokenView {
        TokenView {
            kind: self.kind,
            lexeme: self.lexeme@,
            line: self.line as nat,
            column: self.column as nat,
            length: self.length as nat,
        }
    }
}

/// The models of a sequence of tokens.
pub open spec fn token_views(ts: Seq<Token>) -> Seq<TokenView> {
    Seq::new(ts.len(), |i: int| ts[i]@)
}

/// The name under which a token kind is printed.
pub open spec fn kind_name(k: TokenKind) -> Seq<char> {
    match k {
        TokenKind::LeftParen => "LEFT_PAREN"@,
        TokenKind::RightParen => "RIGHT_PAREN"@,
        TokenKind::LeftBrace => "LEFT_BRACE"@,
        TokenKind::RightBrace => "RIGHT_BRACE"@,
        TokenKind::Comma => "COMMA"@,
        TokenKind::Dot => "DOT"@,
        TokenKind::Minus => "MINUS"@,
        TokenKind::Plus => "PLUS"@,
        TokenKind::Semicolon => "SEMICOLON"@,
        TokenKind::Slash => "SLASH"@,
        TokenKind::Star => "STAR"@,
        TokenKind::Bang => "BANG"@,
        TokenKind::BangEqual => "BANG_EQUAL"@,
        TokenKind::Equal => "EQUAL"@,
        TokenKind::EqualEqual => "EQUAL_EQUAL"@,
        TokenKind::Greater => "GREATER"@,
        TokenKind::GreaterEqual => "GREATER_EQUAL"@,
        TokenKind::Less => "LESS"@,
        TokenKind::LessEqual => "LESS_EQUAL"@,
        TokenKind::Identifier => "IDENTIFIER"@,
        TokenKind::Str => "STRING"@,
        TokenKind::Number => "NUMBER"@,
        TokenKind::And => "AND"@,
        TokenKind::Class => "CLASS"@,
        TokenKind::Else => "ELSE"@,
        TokenKind::False => "FALSE"@,
        TokenKind::For => "FOR"@,
        TokenKind::Fun => "FUN"@,
        TokenKind::If => "IF"@,
        TokenKind::Nil => "NIL"@,
        TokenKind::Or => "OR"@,
        TokenKind::Print => "PRINT"@,
        TokenKind::Return => "RETURN"@,
        TokenKind::Super => "SUPER"@,
        TokenKind::This => "THIS"@,
        TokenKind::True => "TRUE"@,
        TokenKind::Var => "VAR"@,
        TokenKind::While => "WHILE"@,
        TokenKind::Eof => "EOF"@,
    }
}

/// Each kind prints as its name in upper-case words joined by `_`: the
/// two-character comparisons as `BANG_EQUAL`, `EQUAL_EQUAL`, `GREATER_EQUAL`
/// and `LESS_EQUAL`, a string as `STRING`, each keyword as its spelling in
/// upper case.
pub proof fn lemma_kind_names()
    ensures
        kind_name(TokenKind::LeftParen) == "LEFT_PAREN"@,
        kind_name(TokenKind::RightParen) == "RIGHT_PAREN"@,
        kind_name(TokenKind::LeftBrace) == "LEFT_BRACE"@,
        kind_name(TokenKind::RightBrace) == "RIGHT_BRACE"@,
        kind_name(TokenKind::Comma) == "COMMA"@,
        kind_name(TokenKind::Dot) == "DOT"@,
        kind_name(TokenKind::Minus) == "MINUS"@,
        kind_name(TokenKind::Plus) == "PLUS"@,
        kind_name(TokenKind::Semicolon) == "SEMICOLON"@,
        kind_name(TokenKind::Slash) == "SLASH"@,
        kind_name(TokenKind::Star) == "STAR"@,
        kind_name(TokenKind::Bang) == "BANG"@,
        kind_name(TokenKind::BangEqual) == "BANG_EQUAL"@,
        kind_name(TokenKind::Equal) == "EQUAL"@,
        kind_name(TokenKind::EqualEqual) == "EQUAL_EQUAL"@,
        kind_name(TokenKind::Greater) == "GREATER"@,
        kind_name(TokenKind::GreaterEqual) == "GREATER_EQUAL"@,
        kind_name(TokenKind::Less) == "LESS"@,
        kind_name(TokenKind::LessEqual) == "LESS_EQUAL"@,
        kind_name(TokenKind::Identifier) == "IDENTIFIER"@,
        kind_name(TokenKind::Str) == "STRING"@,
        kind_name(TokenKind::Number) == "NUMBER"@,
        kind_name(TokenKind::And) == "AND"@,
        kind_name(TokenKind::Class) == "CLASS"@,
        kind_name(TokenKind::Else) == "ELSE"@,
        kind_name(TokenKind::False) == "FALSE"@,
        kind_name(TokenKind::For) == "FOR"@,
        kind_name(TokenKind::Fun) == "FUN"@,
        kind_name(TokenKind::If) == "IF"@,
        kind_name(TokenKind::Nil) == "NIL"@,
        kind_name(TokenKind::Or) == "OR"@,
        kind_name(TokenKind::Print) == "PRINT"@,
        kind_name(TokenKind::Return) == "RETURN"@,
        kind_name(TokenKind::Super) == "SUPER"@,
        kind_name(TokenKind::This) == "THIS"@,
        kind_name(TokenKind::True) == "TRUE"@,
        kind_name(TokenKind::Var) == "VAR"@,
        kind_name(TokenKind::While) == "WHILE"@,
        kind_name(TokenKind::Eof) == "EOF"@,
{
}

/// Two different kinds never print under the same name.
pub proof fn lemma_kind_names_distinct(a: TokenKind, b: TokenKind)
    requires
        a != b,
    ensures
        kind_name(a) != kind_name(b),
{
    reveal_strlit("LEFT_PAREN");
    reveal_strlit("RIGHT_PAREN");
    reveal_strlit("LEFT_BRACE");
    reveal_strlit("RIGHT_BRACE");
    reveal_strlit("COMMA");
    reveal_strlit("DOT");
    reveal_strlit("MINUS");
    reveal_strlit("PLUS");
    reveal_strlit("SEMICOLON");
    reveal_strlit("SLASH");
    reveal_strlit("STAR");
    reveal_strlit("BANG");
    reveal_strlit("BANG_EQUAL");
    reveal_strlit("EQUAL");
    reveal_strlit("EQUAL_EQUAL");
    reveal_strlit("GREATER");
    reveal_strlit("GREATER_EQUAL");
    reveal_strlit("LESS");
    reveal_strlit("LESS_EQUAL");
    reveal_strlit("IDENTIFIER");
    reveal_strlit("STRING");
    reveal_strlit("NUMBER");
    reveal_strlit("AND");
    reveal_strlit("CLASS");
    reveal_strlit("ELSE");
    reveal_strlit("FALSE");
    reveal_strlit("FOR");
    reveal_strlit("FUN");
    reveal_strlit("IF");
    reveal_strlit("NIL");
    reveal_strlit("OR");
    reveal_strlit("PRINT");
    reveal_strlit("RETURN");
    reveal_strlit("SUPER");
    reveal_strlit("THIS");
    reveal_strlit("TRUE");
    reveal_strlit("VAR");
    reveal_strlit("WHILE");
    reveal_strlit("EOF");
    // no two names agree in length, first letter and last letter
    let (x, y) = (kind_name(a), kind_name(b));
    assert(x.len() != y.len() || x[0] != y[0] || x[x.len() - 1] != y[y.len() - 1]);
}

impl TokenKind {
    /// The name under which this kind is printed (`LEFT_PAREN`, `NUMBER`, ...).
    pub fn name(&self) -> (res: &'static str)
        ensures
            res@ == kind_name(*self),
    {
        match self {
            TokenKind::LeftParen => "LEFT_PAREN",
            TokenKind::RightParen => "RIGHT_PAREN",
            TokenKind::LeftBrace => "LEFT_BRACE",
            TokenKind::RightBrace => "RIGHT_BRACE",
            TokenKind::Comma => "COMMA",
            TokenKind::Dot => "DOT",
            TokenKind::Minus => "MINUS",
            TokenKind::Plus => "PLUS",
            TokenKind::Semicolon => "SEMICOLON",
            TokenKind::Slash => "SLASH",
            TokenKind::Star => "STAR",
            TokenKind::Bang => "BANG",
            TokenKind::BangEqual => "BANG_EQUAL",
            TokenKind::Equal => "EQUAL",
            TokenKind::EqualEqual => "EQUAL_EQUAL",
            TokenKind::Greater => "GREATER",
            TokenKind::GreaterEqual => "GREATER_EQUAL",
            TokenKind::Less => "LESS",
            TokenKind::LessEqual => "LESS_EQUAL",
            TokenKind::Identifier => "IDENTIFIER",
            TokenKind::Str => "STRING",
            TokenKind::Number => "NUMBER",
            TokenKind::And => "AND",
            TokenKind::Class => "CLASS",
            TokenKind::Else => "ELSE",
            TokenKind::False => "FALSE",
            TokenKind::For => "FOR",
            TokenKind::Fun => "FUN",
            TokenKind::If => "IF",
            TokenKind::Nil => "NIL",
            TokenKind::Or => "OR",
            TokenKind::Print => "PRINT",
            TokenKind::Return => "RETURN",
            TokenKind::Super => "SUPER",
            TokenKind::This => "THIS",
            TokenKind::True => "TRUE",
            TokenKind::Var => "VAR",
            TokenKind::While => "WHILE",
            TokenKind::Eof => "EOF",
        }
    }
}

/// A string token's lexeme can lose its quotes: it has at least two
/// characters and its first and last characters are single-byte (ASCII).
pub open spec fn quoted_lexeme(lexeme: Seq<char>) -> bool {
    &&& lexeme.len() >= 2
    &&& (lexeme[0] as u32) < 0x80
    &&& (lexeme.last() as u32) < 0x80
}

/// The text between a string lexeme's quotes.
pub open spec fn unquoted(lexeme: Seq<char>) -> Seq<char> {
    lexeme.subrange(1, lexeme.len() - 1)
}

/// The literal part of a printed token: a string's contents, a number's
/// value, and `null` for every other kind.
pub open spec fn literal_text(t: TokenView) -> Seq<char> {
    match t.kind {
        TokenKind::Str => unquoted(t.lexeme),
        TokenKind::Number => number_text(t.lexeme),
        _ => "null"@,
    }
}

/// How a token is printed: `KIND lexeme literal`, e.g. `NUMBER 42 42.0`,
/// `STRING "hi" hi`, `IDENTIFIER x null`, `EOF  null`.
pub open spec fn token_text(t: TokenView) -> Seq<char> {
    kind_name(t.kind) + seq![' '] + t.lexeme + seq![' '] + literal_text(t)
}

impl Token {
    /// The printed form of this token (see [`token_text`]).
    pub fn to_string(&self) -> (res: String)
        requires
            self.kind == TokenKind::Str ==> quoted_lexeme(self.lexeme@),
        ensures
            res@ == token_text(self@),
    {
        let mut res = String::new();
        res.append(self.kind.name());
        push_char(&mut res, ' ');
        res.append(self.lexeme.as_str());
        push_char(&mut res, ' ');
        let lexeme = chars_of(self.lexeme.as_str());
        match self.kind {
            TokenKind::Str => {
                let mut i: usize = 1;
                while i + 1 < lexeme.len()
                    invariant
                        1 <= i <= lexeme.len() - 1,
                        lexeme@ == self.lexeme@,
                        lexeme.len() >= 2,
                        res@ == kind_name(self.kind) + seq![' '] + self.lexeme@ + seq![' ']
                            + lexeme@.subrange(1, i as int),
                    decreases lexeme.len() - i,
                {
                    push_char(&mut res, lexeme[i]);
                    i = i + 1;
                    assert(res@ =~= kind_name(self.kind) + seq![' '] + self.lexeme@ + seq![' ']
                        + lexeme@.subrange(1, i as int));
                }
            },
            TokenKind::Number => {
                push_number_text(&mut res, &lexeme);
            },
            _ => {
                res.append("null");
            },
        }
        assert(res@ =~= token_text(self@));
        res
    }
}

} // verus!
