use vstd::prelude::*;

use crate::error::{CompileError, CompileErrorKind, CompileErrorView, ErrorKindView, error_views};
use crate::lexing::{placed, lemma_tokens_in_source, lemma_scanned_tokens_parseable, lemma_scan_step};
use crate::parser::parseable;
use crate::text::{chars_eq, chars_of, string_from_range, utf8_len, utf8_len_of_range, lemma_utf8_len_bounds};
use crate::token::{Token, TokenKind, TokenView, token_views};

verus! {

// ---------------------------------------------------------------------------
// Character classes
// ---------------------------------------------------------------------------

/// An ASCII decimal digit.
pub open spec fn is_digit_char(c: char) -> bool {
    '0' <= c <= '9'
}

/// A character that may start an identifier: an ASCII letter or `_`.
pub open spec fn is_alpha_char(c: char) -> bool {
    ('a' <= c <= 'z') || ('A' <= c <= 'Z') || c == '_'
}

/// A character that may continue an identifier.
pub open spec fn is_alphanumeric_char(c: char) -> bool {
    is_alpha_char(c) || is_digit_char(c)
}

/// The character at index `i` of `src`, if there is one.
pub open spec fn char_at(src: Seq<char>, i: int) -> Option<char> {
    if 0 <= i < src.len() {
        Some(src[i])
    } else {
        None
    }
}

/// The keyword that `word` spells, if any.
pub open spec fn keyword_of(word: Seq<char>) -> Option<TokenKind> {
    if word == seq!['a', 'n', 'd'] {
        Some(TokenKind::And)
    } else if word == seq!['c', 'l', 'a', 's', 's'] {
        Some(TokenKind::Class)
    } else if word == seq!['e', 'l', 's', 'e'] {
        Some(TokenKind::Else)
    } else if word == seq!['f', 'a', 'l', 's', 'e'] {
        Some(TokenKind::False)
    } else if word == seq!['f', 'o', 'r'] {
        Some(TokenKind::For)
    } else if word == seq!['f', 'u', 'n'] {
        Some(TokenKind::Fun)
    } else if word == seq!['i', 'f'] {
        Some(TokenKind::If)
    } else if word == seq!['n', 'i', 'l'] {
        Some(TokenKind::Nil)
    } else if word == seq!['o', 'r'] {
        Some(TokenKind::Or)
    } else if word == seq!['p', 'r', 'i', 'n', 't'] {
        Some(TokenKind::Print)
    } else if word == seq!['r', 'e', 't', 'u', 'r', 'n'] {
        Some(TokenKind::Return)
    } else if word == seq!['s', 'u', 'p', 'e', 'r'] {
        Some(TokenKind::Super)
    } else if word == seq!['t', 'h', 'i', 's'] {
        Some(TokenKind::This)
    } else if word == seq!['t', 'r', 'u', 'e'] {
        Some(TokenKind::True)
    } else if word == seq!['v', 'a', 'r'] {
        Some(TokenKind::Var)
    } else if word == seq!['w', 'h', 'i', 'l', 'e'] {
        Some(TokenKind::While)
    } else {
        None
    }
}

/// The kind of a word token: its keyword, or `Identifier`.
pub open spec fn word_kind(word: Seq<char>) -> TokenKind {
    match keyword_of(word) {
        Some(k) => k,
        None => TokenKind::Identifier,
    }
}

/// The kind of a token that is always exactly one character long.
pub open spec fn single_char_kind(c: char) -> Option<TokenKind> {
    if c == '(' {
        Some(TokenKind::LeftParen)
    } else if c == ')' {
        Some(TokenKind::RightParen)
    } else if c == '{' {
        Some(TokenKind::LeftBrace)
    } else if c == '}' {
        Some(TokenKind::RightBrace)
    } else if c == ',' {
        Some(TokenKind::Comma)
    } else if c == '.' {
        Some(TokenKind::Dot)
    } else if c == '-' {
        Some(TokenKind::Minus)
    } else if c == '+' {
        Some(TokenKind::Plus)
    } else if c == ';' {
        Some(TokenKind::Semicolon)
    } else if c == '*' {
        Some(TokenKind::Star)
    } else {
        None
    }
}

/// The characters that start a token that may be followed by `=`.
pub open spec fn is_comparison_start(c: char) -> bool {
    c == '!' || c == '=' || c == '<' || c == '>'
}

/// The kind of the one-character token `c` (for `!`, `=`, `<`, `>`).
pub open spec fn one_char_kind(c: char) -> TokenKind {
    if c == '!' {
        TokenKind::Bang
    } else if c == '=' {
        TokenKind::Equal
    } else if c == '<' {
        TokenKind::Less
    } else {
        TokenKind::Greater
    }
}

/// The kind of the two-character token `c=` (for `!`, `=`, `<`, `>`).
pub open spec fn two_char_kind(c: char) -> TokenKind {
    if c == '!' {
        TokenKind::BangEqual
    } else if c == '=' {
        TokenKind::EqualEqual
    } else if c == '<' {
        TokenKind::LessEqual
    } else {
        TokenKind::GreaterEqual
    }
}

// ---------------------------------------------------------------------------
// The scanner, stated as a function of the source text
// ---------------------------------------------------------------------------

/// The end of the run of digits that starts at `i`.
pub open spec fn digits_end(src: Seq<char>, i: int) -> int
    decreases src.len() - i,
{
    if 0 <= i < src.len() && is_digit_char(src[i]) {
        digits_end(src, i + 1)
    } else {
        i
    }
}

/// The end of the number literal that starts at `start`: digits, then a `.`
/// and more digits only when a digit follows the `.`.
pub open spec fn number_end(src: Seq<char>, start: int) -> int {
    let e = digits_end(src, start + 1);
    if e + 1 < src.len() && src[e] == '.' && is_digit_char(src[e + 1]) {
        digits_end(src, e + 1)
    } else {
        e
    }
}

/// The end of the run of identifier characters that starts at `i`.
pub open spec fn word_end(src: Seq<char>, i: int) -> int
    decreases src.len() - i,
{
    if 0 <= i < src.len() && is_alphanumeric_char(src[i]) {
        word_end(src, i + 1)
    } else {
        i
    }
}

/// The end of a line comment whose text starts at `i`: the next newline,
/// which is left for the next token, or the end of the source.
pub open spec fn comment_end(src: Seq<char>, i: int) -> int
    decreases src.len() - i,
{
    if 0 <= i < src.len() && src[i] != '\n' {
        comment_end(src, i + 1)
    } else {
        i
    }
}

/// Scans the body of a string literal from `i` up to its closing quote (or
/// the end of the source): the index reached, with the line and column there.
/// A newline moves to the next line and sets the column back to 0, as it does
/// outside strings.
pub open spec fn string_scan(src: Seq<char>, i: int, line: int, column: int) -> (int, int, int)
    decreases src.len() - i,
{
    if 0 <= i < src.len() && src[i] != '"' {
        if src[i] == '\n' {
            string_scan(src, i + 1, line + 1, 0)
        } else {
            string_scan(src, i + 1, line, column + 1)
        }
    } else {
        (i, line, column)
    }
}

/// Where the scanner stands between two tokens: the index of the next
/// character, the current line, and the current column.
pub struct ScanState {
    pub pos: int,
    pub line: int,
    pub column: int,
}

/// What one step of the scanner yields.
pub enum Lexed {
    Token(TokenView),
    Error(CompileErrorView),
    Nothing,
}

/// The token of kind `kind` spanning `src[start..end]` of single-byte
/// characters, found on `line` at `column`.
pub open spec fn ascii_token(
    src: Seq<char>,
    start: int,
    end: int,
    kind: TokenKind,
    line: int,
    column: int,
) -> TokenView {
    TokenView {
        kind,
        lexeme: src.subrange(start, end),
        line: line as nat,
        column: column as nat,
        length: (end - start) as nat,
    }
}

/// One step of the scanner at `s` (which is before the end of `src`): the
/// state after the step, and the token or error it yields, if any.
pub open spec fn scan_step(src: Seq<char>, s: ScanState) -> (ScanState, Lexed) {
    let start = s.pos;
    let c = src[start];
    let next = start + 1;
    let plain = ScanState { pos: next, line: s.line, column: s.column + 1 };
    if single_char_kind(c) is Some {
        (plain, Lexed::Token(ascii_token(src, start, next, single_char_kind(c)->0, s.line, s.column)))
    } else if c == '/' {
        if next < src.len() && src[next] == '/' {
            let e = comment_end(src, next + 1);
            (ScanState { pos: e, line: s.line, column: s.column + (e - start) }, Lexed::Nothing)
        } else {
            (plain, Lexed::Token(ascii_token(src, start, next, TokenKind::Slash, s.line, s.column)))
        }
    } else if is_comparison_start(c) {
        if next < src.len() && src[next] == '=' {
            (
                ScanState { pos: next + 1, line: s.line, column: s.column + 2 },
                Lexed::Token(ascii_token(src, start, next + 1, two_char_kind(c), s.line, s.column)),
            )
        } else {
            (plain, Lexed::Token(ascii_token(src, start, next, one_char_kind(c), s.line, s.column)))
        }
    } else if is_digit_char(c) {
        let e = number_end(src, start);
        (
            ScanState { pos: e, line: s.line, column: s.column + (e - start) },
            Lexed::Token(ascii_token(src, start, e, TokenKind::Number, s.line, s.column)),
        )
    } else if c == '"' {
        let (q, line, column) = string_scan(src, next, s.line, s.column + 1);
        if q >= src.len() {
            (
                ScanState { pos: q, line, column },
                Lexed::Error(CompileErrorView { line: line as nat, kind: ErrorKindView::UnterminatedString }),
            )
        } else {
            let lexeme = src.subrange(start, q + 1);
            (
                ScanState { pos: q + 1, line, column: column + 1 },
                Lexed::Token(TokenView {
                    kind: TokenKind::Str,
                    lexeme,
                    line: s.line as nat,
                    column: s.column as nat,
                    length: utf8_len(lexeme),
                }),
            )
        }
    } else if c == ' ' || c == '\r' || c == '\t' {
        (plain, Lexed::Nothing)
    } else if c == '\n' {
        (ScanState { pos: next, line: s.line + 1, column: 0 }, Lexed::Nothing)
    } else if is_alpha_char(c) {
        let e = word_end(src, next);
        (
            ScanState { pos: e, line: s.line, column: s.column + (e - start) },
            Lexed::Token(ascii_token(src, start, e, word_kind(src.subrange(start, e)), s.line, s.column)),
        )
    } else {
        (plain, Lexed::Error(CompileErrorView { line: s.line as nat, kind: ErrorKindView::UnexpectedCharacter(c) }))
    }
}

/// The tokens and errors of scanning `src` from `s` to its end, in order,
/// with the state reached at the end.
pub struct ScanResult {
    pub tokens: Seq<TokenView>,
    pub errors: Seq<CompileErrorView>,
    pub end: ScanState,
}

/// Scans `src` from `s` to its end.
pub open spec fn scan_from(src: Seq<char>, s: ScanState) -> ScanResult
    decreases src.len() - s.pos,
{
    if 0 <= s.pos < src.len() {
        let (s2, lexed) = scan_step(src, s);
        if s.pos < s2.pos <= src.len() {
            let rest = scan_from(src, s2);
            match lexed {
                Lexed::Token(t) => ScanResult { tokens: seq![t] + rest.tokens, ..rest },
                Lexed::Error(e) => ScanResult { errors: seq![e] + rest.errors, ..rest },
                Lexed::Nothing => rest,
            }
        } else {
            ScanResult { tokens: Seq::empty(), errors: Seq::empty(), end: s }
        }
    } else {
        ScanResult { tokens: Seq::empty(), errors: Seq::empty(), end: s }
    }
}

/// Where scanning starts: the first character, on line 1, column 0.
pub open spec fn initial_state() -> ScanState {
    ScanState { pos: 0, line: 1, column: 0 }
}

/// Scans the whole of `src`.
pub open spec fn scan_source(src: Seq<char>) -> ScanResult {
    scan_from(src, initial_state())
}

/// The end-of-file token, placed where scanning ended.
pub open spec fn eof_token(end: ScanState) -> TokenView {
    TokenView {
        kind: TokenKind::Eof,
        lexeme: Seq::empty(),
        line: end.line as nat,
        column: end.column as nat,
        length: 0,
    }
}

/// The tokens of `src`: those scanned, then the end-of-file token.
pub open spec fn source_tokens(src: Seq<char>) -> Seq<TokenView> {
    let r = scan_source(src);
    r.tokens.push(eof_token(r.end))
}

/// The errors found while scanning `src`, in order.
pub open spec fn source_errors(src: Seq<char>) -> Seq<CompileErrorView> {
    scan_source(src).errors
}

// ---------------------------------------------------------------------------
// The scanner
// ---------------------------------------------------------------------------

fn is_alpha(c: Option<char>) -> (res: bool)
    ensures
        res == (c matches Some(x) && is_alpha_char(x)),
{
    match c {
        Some(x) => ('a' <= x && x <= 'z') || ('A' <= x && x <= 'Z') || x == '_',
        None => false,
    }
}

fn is_alphanumeric(c: Option<char>) -> (res: bool)
    ensures
        res == (c matches Some(x) && is_alphanumeric_char(x)),
{
    match c {
        Some(x) => ('a' <= x && x <= 'z') || ('A' <= x && x <= 'Z') || x == '_' || ('0' <= x && x <= '9'),
        None => false,
    }
}

fn is_ascii_digit(c: Option<char>) -> (res: bool)
    ensures
        res == (c matches Some(x) && is_digit_char(x)),
{
    match c {
        Some(x) => '0' <= x && x <= '9',
        None => false,
    }
}

/// The keyword that `word` spells, if any.
fn keyword_kind(word: &[char]) -> (res: Option<TokenKind>)
    ensures
        res == keyword_of(word@),
{
    proof {
        assert(['a', 'n', 'd']@ =~= seq!['a', 'n', 'd']);
        assert(['c', 'l', 'a', 's', 's']@ =~= seq!['c', 'l', 'a', 's', 's']);
        assert(['e', 'l', 's', 'e']@ =~= seq!['e', 'l', 's', 'e']);
        assert(['f', 'a', 'l', 's', 'e']@ =~= seq!['f', 'a', 'l', 's', 'e']);
        assert(['f', 'o', 'r']@ =~= seq!['f', 'o', 'r']);
        assert(['f', 'u', 'n']@ =~= seq!['f', 'u', 'n']);
        assert(['i', 'f']@ =~= seq!['i', 'f']);
        assert(['n', 'i', 'l']@ =~= seq!['n', 'i', 'l']);
        assert(['o', 'r']@ =~= seq!['o', 'r']);
        assert(['p', 'r', 'i', 'n', 't']@ =~= seq!['p', 'r', 'i', 'n', 't']);
        assert(['r', 'e', 't', 'u', 'r', 'n']@ =~= seq!['r', 'e', 't', 'u', 'r', 'n']);
        assert(['s', 'u', 'p', 'e', 'r']@ =~= seq!['s', 'u', 'p', 'e', 'r']);
        assert(['t', 'h', 'i', 's']@ =~= seq!['t', 'h', 'i', 's']);
        assert(['t', 'r', 'u', 'e']@ =~= seq!['t', 'r', 'u', 'e']);
        assert(['v', 'a', 'r']@ =~= seq!['v', 'a', 'r']);
        assert(['w', 'h', 'i', 'l', 'e']@ =~= seq!['w', 'h', 'i', 'l', 'e']);
    }
    if chars_eq(word, &['a', 'n', 'd']) {
        return Some(TokenKind::And);
    }
    if chars_eq(word, &['c', 'l', 'a', 's', 's']) {
        return Some(TokenKind::Class);
    }
    if chars_eq(word, &['e', 'l', 's', 'e']) {
        return Some(TokenKind::Else);
    }
    if chars_eq(word, &['f', 'a', 'l', 's', 'e']) {
        return Some(TokenKind::False);
    }
    if chars_eq(word, &['f', 'o', 'r']) {
        return Some(TokenKind::For);
    }
    if chars_eq(word, &['f', 'u', 'n']) {
        return Some(TokenKind::Fun);
    }
    if chars_eq(word, &['i', 'f']) {
        return Some(TokenKind::If);
    }
    if chars_eq(word, &['n', 'i', 'l']) {
        return Some(TokenKind::Nil);
    }
    if chars_eq(word, &['o', 'r']) {
        return Some(TokenKind::Or);
    }
    if chars_eq(word, &['p', 'r', 'i', 'n', 't']) {
        return Some(TokenKind::Print);
    }
    if chars_eq(word, &['r', 'e', 't', 'u', 'r', 'n']) {
        return Some(TokenKind::Return);
    }
    if chars_eq(word, &['s', 'u', 'p', 'e', 'r']) {
        return Some(TokenKind::Super);
    }
    if chars_eq(word, &['t', 'h', 'i', 's']) {
        return Some(TokenKind::This);
    }
    if chars_eq(word, &['t', 'r', 'u', 'e']) {
        return Some(TokenKind::True);
    }
    if chars_eq(word, &['v', 'a', 'r']) {
        return Some(TokenKind::Var);
    }
    if chars_eq(word, &['w', 'h', 'i', 'l', 'e']) {
        return Some(TokenKind::While);
    }
    None
}

/// A source text whose UTF-8 encoding fits in memory, with room to count one
/// past its end (true of every `&str`).
pub open spec fn fits_in_memory(src: Seq<char>) -> bool {
    utf8_len(src) < usize::MAX
}

/// A scanner over one source text. It is made by [`Scanner::new`] and
/// consumed by [`Scanner::scan_tokens`].
pub struct Scanner {
    source: Vec<char>,
    tokens: Vec<Token>,
    errors: Vec<CompileError>,
    start: usize,
    current: usize,
    line: usize,
    column: usize,
}

/// Whether the token list `after` is `before` extended by what `lexed` yields
/// (and likewise for errors).
pub open spec fn yields(
    tokens_before: Seq<TokenView>,
    errors_before: Seq<CompileErrorView>,
    lexed: Lexed,
    tokens_after: Seq<TokenView>,
    errors_after: Seq<CompileErrorView>,
) -> bool {
    match lexed {
        Lexed::Token(t) => tokens_after == tokens_before.push(t) && errors_after == errors_before,
        Lexed::Error(e) => tokens_after == tokens_before && errors_after == errors_before.push(e),
        Lexed::Nothing => tokens_after == tokens_before && errors_after == errors_before,
    }
}

impl Scanner {
    /// The source text being scanned.
    pub closed spec fn text(&self) -> Seq<char> {
        self.source@
    }

    /// The scanner has not started: nothing scanned, at line 1, column 0.
    pub closed spec fn is_fresh(&self) -> bool {
        &&& self.tokens@.len() == 0
        &&& self.errors@.len() == 0
        &&& self.start == 0
        &&& self.current == 0
        &&& self.line == 1
        &&& self.column == 0
        &&& fits_in_memory(self.source@)
    }

    /// Where the scanner stands: the next character, the line and the column.
    pub closed spec fn state(&self) -> ScanState {
        ScanState { pos: self.current as int, line: self.line as int, column: self.column as int }
    }

    /// The tokens scanned so far.
    pub closed spec fn token_list(&self) -> Seq<TokenView> {
        token_views(self.tokens@)
    }

    /// The errors found so far.
    pub closed spec fn error_list(&self) -> Seq<CompileErrorView> {
        error_views(self.errors@)
    }

    /// The scanner is between two tokens: the next one starts where it stands.
    pub closed spec fn ready(&self) -> bool {
        &&& self.wf()
        &&& self.start == self.current
    }

    /// The scanner's positions lie within the text.
    pub closed spec fn wf(&self) -> bool {
        &&& self.start <= self.current <= self.source@.len()
        &&& self.column <= self.current
        &&& self.line <= self.current + 1
        &&& fits_in_memory(self.source@)
        &&& self.source@.len() < usize::MAX
    }

    fn is_at_end(&self) -> (res: bool)
        ensures
            res == (self.current >= self.source@.len()),
    {
        self.current >= self.source.len()
    }

    fn advance(&mut self)
        requires
            old(self).start <= old(self).current < old(self).source@.len(),
            old(self).column <= old(self).current,
            old(self).line <= old(self).current + 2,
            fits_in_memory(old(self).source@),
            old(self).source@.len() < usize::MAX,
        ensures
            final(self).wf(),
            final(self).current == old(self).current + 1,
            final(self).column == old(self).column + 1,
            final(self).line == old(self).line,
            final(self).start == old(self).start,
            final(self).source == old(self).source,
            final(self).tokens == old(self).tokens,
            final(self).errors == old(self).errors,
    {
        self.current = self.current + 1;
        self.column = self.column + 1;
    }

    fn peek(&self) -> (res: Option<char>)
        ensures
            res == char_at(self.source@, self.current as int),
    {
        if self.is_at_end() {
            return None;
        }
        Some(self.source[self.current])
    }

    /// Two-character lookahead: the character after the one `peek` sees,
    /// needed to check what follows a "." without consuming it.
    fn peek_next(&self) -> (res: Option<char>)
        requires
            self.current <= self.source@.len(),
        ensures
            res == char_at(self.source@, self.current + 1),
    {
        let next_start = if self.current < self.source.len() { self.current + 1 } else { self.current };
        if next_start >= self.source.len() {
            return None;
        }
        Some(self.source[next_start])
    }

    fn match_next(&mut self, expected: char) -> (res: bool)
        requires
            old(self).wf(),
        ensures
            res == (char_at(old(self).source@, old(self).current as int) == Some(expected)),
            final(self).wf(),
            final(self).current == old(self).current + (if res { 1int } else { 0int }),
            final(self).column == old(self).column + (if res { 1int } else { 0int }),
            final(self).line == old(self).line,
            final(self).start == old(self).start,
            final(self).source == old(self).source,
            final(self).tokens == old(self).tokens,
            final(self).errors == old(self).errors,
    {
        match self.peek() {
            Some(c) => {
                if c != expected {
                    return false;
                }
            },
            None => {
                return false;
            },
        }
        self.advance();
        true
    }

    fn lexeme(&self) -> (res: String)
        requires
            self.start <= self.current <= self.source@.len(),
        ensures
            res@ == self.source@.subrange(self.start as int, self.current as int),
    {
        string_from_range(&self.source, self.start, self.current)
    }

    fn add_token(&mut self, kind: TokenKind, lexeme: String)
        requires
            old(self).wf(),
            old(self).column >= old(self).current - old(self).start,
            lexeme@ == old(self).source@.subrange(old(self).start as int, old(self).current as int),
        ensures
            final(self).tokens@ == old(self).tokens@.push(Token {
                kind,
                lexeme,
                line: old(self).line,
                column: (old(self).column - (old(self).current - old(self).start)) as usize,
                length: (old(self).current - old(self).start) as usize,
            }),
            final(self).wf(),
            final(self).current == old(self).current,
            final(self).column == old(self).column,
            final(self).line == old(self).line,
            final(self).start == old(self).start,
            final(self).source == old(self).source,
            final(self).errors == old(self).errors,
            final(self).token_list() == old(self).token_list().push(ascii_token(
                old(self).source@,
                old(self).start as int,
                old(self).current as int,
                kind,
                old(self).line as int,
                old(self).column - (old(self).current - old(self).start),
            )),
    {
        let ghost before = self.tokens@;
        self.tokens.push(Token {
            kind,
            lexeme,
            line: self.line,
            column: self.column - (self.current - self.start),
            length: self.current - self.start,
        });
        proof {
            lemma_token_views_push(before, self.tokens@.last());
            assert(self.tokens@ =~= before.push(self.tokens@.last()));
        }
    }
}

impl Scanner {
    fn number(&mut self)
        requires
            old(self).wf(),
            old(self).current == old(self).start + 1,
            is_digit_char(old(self).source@[old(self).start as int]),
            old(self).column >= 1,
        ensures
            final(self).wf(),
            final(self).current == number_end(old(self).source@, old(self).start as int),
            final(self).column == old(self).column + (final(self).current - old(self).current),
            final(self).line == old(self).line,
            final(self).start == old(self).start,
            final(self).source == old(self).source,
            final(self).errors == old(self).errors,
            final(self).token_list() == old(self).token_list().push(ascii_token(
                old(self).source@,
                old(self).start as int,
                final(self).current as int,
                TokenKind::Number,
                old(self).line as int,
                old(self).column - 1,
            )),
    {
        let ghost src = self.source@;
        let ghost col0 = self.column;
        let ghost cur0 = self.current;
        proof {
            lemma_digits_end(src, cur0 as int);
        }
        while is_ascii_digit(self.peek())
            invariant
                self.wf(),
                self.source@ == src,
                self.source == old(self).source,
                self.start == old(self).start,
                self.line == old(self).line,
                self.tokens == old(self).tokens,
                self.errors == old(self).errors,
                cur0 <= self.current,
                self.column == col0 + (self.current - cur0),
                digits_end(src, self.current as int) == digits_end(src, cur0 as int),
            decreases src.len() - self.current,
        {
            self.advance();
        }
        let ghost e1 = self.current as int;
        // Fractional part: consume "." only if followed by a digit.
        if matches!(self.peek(), Some('.')) && is_ascii_digit(self.peek_next()) {
            self.advance();
            proof {
                lemma_digits_end(src, self.current as int);
            }
            while is_ascii_digit(self.peek())
                invariant
                    self.wf(),
                    self.source@ == src,
                self.source == old(self).source,
                    self.start == old(self).start,
                    self.line == old(self).line,
                    self.tokens == old(self).tokens,
                    self.errors == old(self).errors,
                    cur0 <= self.current,
                    self.column == col0 + (self.current - cur0),
                    digits_end(src, self.current as int) == digits_end(src, e1 + 1),
                decreases src.len() - self.current,
            {
                self.advance();
            }
        }
        let lexeme = self.lexeme();
        self.add_token(TokenKind::Number, lexeme);
    }

    fn identifier(&mut self)
        requires
            old(self).wf(),
            old(self).current == old(self).start + 1,
            old(self).column >= 1,
        ensures
            final(self).wf(),
            final(self).current == word_end(old(self).source@, old(self).current as int),
            final(self).column == old(self).column + (final(self).current - old(self).current),
            final(self).line == old(self).line,
            final(self).start == old(self).start,
            final(self).source == old(self).source,
            final(self).errors == old(self).errors,
            final(self).token_list() == old(self).token_list().push(ascii_token(
                old(self).source@,
                old(self).start as int,
                final(self).current as int,
                word_kind(old(self).source@.subrange(old(self).start as int, final(self).current as int)),
                old(self).line as int,
                old(self).column - 1,
            )),
    {
        let ghost src = self.source@;
        let ghost col0 = self.column;
        let ghost cur0 = self.current;
        proof {
            lemma_word_end(src, cur0 as int);
        }
        while is_alphanumeric(self.peek())
            invariant
                self.wf(),
                self.source@ == src,
                self.source == old(self).source,
                self.start == old(self).start,
                self.line == old(self).line,
                self.tokens == old(self).tokens,
                self.errors == old(self).errors,
                cur0 <= self.current,
                self.column == col0 + (self.current - cur0),
                word_end(src, self.current as int) == word_end(src, cur0 as int),
            decreases src.len() - self.current,
        {
            self.advance();
        }
        let lexeme = self.lexeme();
        let word = chars_of(lexeme.as_str());
        let kind = match keyword_kind(word.as_slice()) {
            Some(k) => k,
            None => TokenKind::Identifier,
        };
        self.add_token(kind, lexeme);
    }

    fn string(&mut self)
        requires
            old(self).wf(),
            old(self).current == old(self).start + 1,
            old(self).source@[old(self).start as int] == '"',
            old(self).column >= 1,
        ensures
            final(self).wf(),
            final(self).start == old(self).start,
            final(self).source == old(self).source,
            ({
                let src = old(self).source@;
                let (q, line, column) = string_scan(src, old(self).current as int, old(self).line as int, old(self).column as int);
                if q >= src.len() {
                    &&& final(self).state() == ScanState { pos: q, line, column }
                    &&& final(self).token_list() == old(self).token_list()
                    &&& final(self).error_list() == old(self).error_list().push(
                        CompileErrorView { line: line as nat, kind: ErrorKindView::UnterminatedString })
                } else {
                    let lexeme = src.subrange(old(self).start as int, q + 1);
                    &&& final(self).state() == ScanState { pos: q + 1, line, column: column + 1 }
                    &&& final(self).error_list() == old(self).error_list()
                    &&& final(self).token_list() == old(self).token_list().push(TokenView {
                        kind: TokenKind::Str,
                        lexeme,
                        line: old(self).line as nat,
                        column: (old(self).column - 1) as nat,
                        length: utf8_len(lexeme),
                    })
                }
            }),
    {
        let ghost src = self.source@;
        let ghost target = string_scan(src, self.current as int, self.line as int, self.column as int);
        // Save the token's starting position before consuming across lines.
        let start_line = self.line;
        let start_column = self.column - (self.current - self.start);
        proof {
            lemma_string_scan_bounds(src, self.current as int, self.line as int, self.column as int);
        }
        while !matches!(self.peek(), Some('"')) && !self.is_at_end()
            invariant
                self.wf(),
                self.source@ == src,
                self.source == old(self).source,
                self.start == old(self).start,
                self.tokens == old(self).tokens,
                self.errors == old(self).errors,
                old(self).current <= self.current,
                string_scan(src, self.current as int, self.line as int, self.column as int) == target,
            decreases src.len() - self.current,
        {
            // A newline ends the line inside a string as it does outside:
            // the column counts from 0 again once it is consumed, so after
            // "ab\ncd" the column is 3 (c, d and the closing quote).
            let newline = matches!(self.peek(), Some('\n'));
            if newline {
                self.line = self.line + 1;
            }
            self.advance();
            if newline {
                self.column = 0;
            }
        }

        if self.is_at_end() {
            self.errors.push(CompileError { line: self.line, kind: CompileErrorKind::UnterminatedString });
            proof {
                lemma_error_views_push(old(self).errors@, self.errors@.last());
                assert(self.errors@ =~= old(self).errors@.push(self.errors@.last()));
            }
            return;
        }

        // Consume the closing "
        self.advance();

        let lexeme = self.lexeme();
        let length = utf8_len_of_range(&self.source, self.start, self.current);

        // The token may span lines, so its starting position was saved above
        // rather than derived from where the scanner now stands.
        self.tokens.push(Token {
            kind: TokenKind::Str,
            lexeme,
            line: start_line,
            column: start_column,
            length,
        });
        proof {
            lemma_token_views_push(old(self).tokens@, self.tokens@.last());
            assert(self.tokens@ =~= old(self).tokens@.push(self.tokens@.last()));
        }
    }
}

proof fn lemma_token_views_push(ts: Seq<Token>, t: Token)
    ensures
        token_views(ts.push(t)) == token_views(ts).push(t@),
{
    assert(token_views(ts.push(t)) =~= token_views(ts).push(t@));
}

proof fn lemma_error_views_push(es: Seq<CompileError>, e: CompileError)
    ensures
        error_views(es.push(e)) == error_views(es).push(e@),
{
    assert(error_views(es.push(e)) =~= error_views(es).push(e@));
}




pub(crate) proof fn lemma_digits_end(src: Seq<char>, i: int)
    requires
        0 <= i <= src.len(),
    ensures
        i <= digits_end(src, i) <= src.len(),
        forall|j: int| i <= j < digits_end(src, i) ==> is_digit_char(#[trigger] src[j]),
        digits_end(src, i) < src.len() ==> !is_digit_char(src[digits_end(src, i)]),
    decreases src.len() - i,
{
    if i < src.len() && is_digit_char(src[i]) {
        lemma_digits_end(src, i + 1);
    }
}

pub(crate) proof fn lemma_word_end(src: Seq<char>, i: int)
    requires
        0 <= i <= src.len(),
    ensures
        i <= word_end(src, i) <= src.len(),
        forall|j: int| i <= j < word_end(src, i) ==> is_alphanumeric_char(#[trigger] src[j]),
        word_end(src, i) < src.len() ==> !is_alphanumeric_char(src[word_end(src, i)]),
    decreases src.len() - i,
{
    if i < src.len() && is_alphanumeric_char(src[i]) {
        lemma_word_end(src, i + 1);
    }
}

pub(crate) proof fn lemma_comment_end(src: Seq<char>, i: int)
    requires
        0 <= i <= src.len(),
    ensures
        i <= comment_end(src, i) <= src.len(),
        forall|j: int| i <= j < comment_end(src, i) ==> #[trigger] src[j] != '\n',
    decreases src.len() - i,
{
    if i < src.len() && src[i] != '\n' {
        lemma_comment_end(src, i + 1);
    }
}

pub(crate) proof fn lemma_string_scan_bounds(src: Seq<char>, i: int, line: int, column: int)
    requires
        0 <= i <= src.len(),
    ensures
        i <= string_scan(src, i, line, column).0 <= src.len(),
        line <= string_scan(src, i, line, column).1,
    decreases src.len() - i,
{
    if i < src.len() && src[i] != '"' {
        if src[i] == '\n' {
            lemma_string_scan_bounds(src, i + 1, line + 1, 0);
        } else {
            lemma_string_scan_bounds(src, i + 1, line, column + 1);
        }
    }
}

impl Scanner {
    fn add_error(&mut self, kind: CompileErrorKind)
        ensures
            final(self).error_list() == old(self).error_list().push(
                CompileErrorView { line: old(self).line as nat, kind: kind@ }),
            final(self).source == old(self).source,
            final(self).tokens == old(self).tokens,
            final(self).start == old(self).start,
            final(self).current == old(self).current,
            final(self).line == old(self).line,
            final(self).column == old(self).column,
    {
        let ghost before = self.errors@;
        self.errors.push(CompileError { line: self.line, kind });
        proof {
            lemma_error_views_push(before, self.errors@.last());
            assert(self.errors@ =~= before.push(self.errors@.last()));
        }
    }

    /// Scans one token (or a comment, whitespace or an error) from where the
    /// scanner stands. The step moves forward within the text, never lowers
    /// the line, and adds at most one token or one error to those so far.
    pub fn scan_token(&mut self)
        requires
            old(self).ready(),
            old(self).state().pos < old(self).text().len(),
        ensures
            final(self).wf(),
            final(self).text() == old(self).text(),
            ({
                let (s2, lexed) = scan_step(old(self).text(), old(self).state());
                &&& final(self).state() == s2
                &&& yields(old(self).token_list(), old(self).error_list(), lexed,
                    final(self).token_list(), final(self).error_list())
            }),
            old(self).state().pos < final(self).state().pos <= final(self).text().len(),
            final(self).state().line >= old(self).state().line,
            old(self).token_list().is_prefix_of(final(self).token_list()),
            old(self).error_list().is_prefix_of(final(self).error_list()),
            (final(self).token_list().len() - old(self).token_list().len())
                + (final(self).error_list().len() - old(self).error_list().len()) <= 1,
    {
        let ghost src = self.source@;
        let ghost s0 = self.state();
        let ghost tokens0 = self.token_list();
        let ghost errors0 = self.error_list();
        self.advance();
        let c = self.source[self.start];
        match c {
            '(' => {
                let lexeme = self.lexeme();
                self.add_token(TokenKind::LeftParen, lexeme);
            },
            ')' => {
                let lexeme = self.lexeme();
                self.add_token(TokenKind::RightParen, lexeme);
            },
            '{' => {
                let lexeme = self.lexeme();
                self.add_token(TokenKind::LeftBrace, lexeme);
            },
            '}' => {
                let lexeme = self.lexeme();
                self.add_token(TokenKind::RightBrace, lexeme);
            },
            ',' => {
                let lexeme = self.lexeme();
                self.add_token(TokenKind::Comma, lexeme);
            },
            '.' => {
                let lexeme = self.lexeme();
                self.add_token(TokenKind::Dot, lexeme);
            },
            '-' => {
                let lexeme = self.lexeme();
                self.add_token(TokenKind::Minus, lexeme);
            },
            '+' => {
                let lexeme = self.lexeme();
                self.add_token(TokenKind::Plus, lexeme);
            },
            ';' => {
                let lexeme = self.lexeme();
                self.add_token(TokenKind::Semicolon, lexeme);
            },
            '*' => {
                let lexeme = self.lexeme();
                self.add_token(TokenKind::Star, lexeme);
            },
            '/' => {
                if self.match_next('/') {
                    // Line comment: consume until newline (leave '\\n' for the next
                    // iteration so it still increments the line).
                    proof {
                        lemma_comment_end(src, self.current as int);
                    }
                    let ghost cur0 = self.current;
                    let ghost col0 = self.column;
                    while !matches!(self.peek(), Some('\n')) && !self.is_at_end()
                        invariant
                            self.wf(),
                            self.source@ == src,
                            self.source == old(self).source,
                            self.start == old(self).start,
                            self.line == old(self).line,
                            self.tokens == old(self).tokens,
                            self.errors == old(self).errors,
                            cur0 <= self.current,
                            self.column == col0 + (self.current - cur0),
                            comment_end(src, self.current as int) == comment_end(src, cur0 as int),
                        decreases src.len() - self.current,
                    {
                        self.advance();
                    }
                } else {
                    let lexeme = self.lexeme();
                    self.add_token(TokenKind::Slash, lexeme);
                }
            },
            '!' => {
                if self.match_next('=') {
                    let lexeme = self.lexeme();
                    self.add_token(TokenKind::BangEqual, lexeme);
                } else {
                    let lexeme = self.lexeme();
                    self.add_token(TokenKind::Bang, lexeme);
                }
            },
            '=' => {
                if self.match_next('=') {
                    let lexeme = self.lexeme();
                    self.add_token(TokenKind::EqualEqual, lexeme);
                } else {
                    let lexeme = self.lexeme();
                    self.add_token(TokenKind::Equal, lexeme);
                }
            },
            '>' => {
                if self.match_next('=') {
                    let lexeme = self.lexeme();
                    self.add_token(TokenKind::GreaterEqual, lexeme);
                } else {
                    let lexeme = self.lexeme();
                    self.add_token(TokenKind::Greater, lexeme);
                }
            },
            '<' => {
                if self.match_next('=') {
                    let lexeme = self.lexeme();
                    self.add_token(TokenKind::LessEqual, lexeme);
                } else {
                    let lexeme = self.lexeme();
                    self.add_token(TokenKind::Less, lexeme);
                }
            },
            '0' | '1' | '2' | '3' | '4' | '5' | '6' | '7' | '8' | '9' => self.number(),
            '"' => self.string(),
            ' ' | '\r' | '\t' => {},
            '\n' => {
                self.line = self.line + 1;
                self.column = 0;
            },
            other => {
                if is_alpha(Some(other)) {
                    self.identifier();
                } else {
                    self.add_error(CompileErrorKind::UnexpectedCharacter(other));
                }
            },
        }
        proof {
            lemma_step_progress(src, s0);
            lemma_scan_step(src, s0);
            let lexed = scan_step(src, s0).1;
            match lexed {
                Lexed::Token(t) => {
                    assert(tokens0 =~= self.token_list().subrange(0, tokens0.len() as int));
                    assert(errors0 =~= self.error_list().subrange(0, errors0.len() as int));
                },
                Lexed::Error(e) => {
                    assert(tokens0 =~= self.token_list().subrange(0, tokens0.len() as int));
                    assert(errors0 =~= self.error_list().subrange(0, errors0.len() as int));
                },
                Lexed::Nothing => {
                    assert(tokens0 =~= self.token_list().subrange(0, tokens0.len() as int));
                    assert(errors0 =~= self.error_list().subrange(0, errors0.len() as int));
                },
            }
        }
    }
}

pub(crate) proof fn lemma_step_progress(src: Seq<char>, s: ScanState)
    requires
        0 <= s.pos < src.len(),
    ensures
        s.pos < scan_step(src, s).0.pos <= src.len(),
{
    let start = s.pos;
    let next = start + 1;
    lemma_digits_end(src, next);
    lemma_word_end(src, next);
    if next < src.len() {
        lemma_comment_end(src, next + 1);
    }
    lemma_string_scan_bounds(src, next, s.line, s.column + 1);
    let e = digits_end(src, next);
    if e + 1 < src.len() {
        lemma_digits_end(src, e + 1);
    }
}

/// Unfolds one step of [`scan_from`].
proof fn lemma_scan_from_step(src: Seq<char>, s: ScanState)
    requires
        0 <= s.pos < src.len(),
    ensures
        ({
            let (s2, lexed) = scan_step(src, s);
            let rest = scan_from(src, s2);
            let all = scan_from(src, s);
            &&& all.end == rest.end
            &&& match lexed {
                Lexed::Token(t) => all.tokens == seq![t] + rest.tokens && all.errors == rest.errors,
                Lexed::Error(e) => all.tokens == rest.tokens && all.errors == seq![e] + rest.errors,
                Lexed::Nothing => all.tokens == rest.tokens && all.errors == rest.errors,
            }
        }),
{
    lemma_step_progress(src, s);
}

impl Scanner {
    /// A scanner over `source`, at its start.
    pub fn new(source: &str) -> (res: Self)
        requires
            fits_in_memory(source@),
        ensures
            res.is_fresh(),
            res.ready(),
            res.text() == source@,
    {
        proof {
            lemma_utf8_len_bounds(source@, 0, 0);
        }
        Scanner {
            source: chars_of(source),
            tokens: Vec::new(),
            errors: Vec::new(),
            start: 0,
            current: 0,
            line: 1,
            column: 0,
        }
    }

    /// Scans the whole source. The tokens end with an end-of-file token; if
    /// any lexical error was found, all errors are returned instead, in the
    /// order in which they occur.
    pub fn scan_tokens(self) -> (res: Result<Vec<Token>, Vec<CompileError>>)
        requires
            self.is_fresh(),
        ensures
            match res {
                Ok(tokens) => {
                    &&& source_errors(self.text()).len() == 0
                    &&& token_views(tokens@) == source_tokens(self.text())
                },
                Err(errors) => {
                    &&& source_errors(self.text()).len() > 0
                    &&& error_views(errors@) == source_errors(self.text())
                },
            },
            // The tokens are the source's own text, in order, and the parser
            // can work on them.
            res matches Ok(tokens) ==> {
                &&& placed(self.text(), 0, token_views(tokens@))
                &&& parseable(token_views(tokens@))
            },
    {
        proof {
            lemma_tokens_in_source(self.text());
            lemma_scanned_tokens_parseable(self.text());
        }
        let mut sc = self;
        let ghost src = sc.source@;
        proof {
            lemma_utf8_len_bounds(src, 0, 0);
            assert(sc.token_list() =~= Seq::<TokenView>::empty());
            assert(sc.error_list() =~= Seq::<CompileErrorView>::empty());
            assert(sc.token_list() + scan_source(src).tokens =~= scan_source(src).tokens);
            assert(sc.error_list() + scan_source(src).errors =~= scan_source(src).errors);
        }
        while !sc.is_at_end()
            invariant
                sc.wf(),
                sc.source@ == src,
                sc.token_list() + scan_from(src, sc.state()).tokens == scan_source(src).tokens,
                sc.error_list() + scan_from(src, sc.state()).errors == scan_source(src).errors,
                scan_from(src, sc.state()).end == scan_source(src).end,
            decreases src.len() - sc.current,
        {
            let ghost s = sc.state();
            let ghost tokens_before = sc.token_list();
            let ghost errors_before = sc.error_list();
            sc.start = sc.current;
            sc.scan_token();
            proof {
                lemma_step_progress(src, s);
                lemma_scan_from_step(src, s);
                let (s2, lexed) = scan_step(src, s);
                let rest = scan_from(src, s2);
                match lexed {
                    Lexed::Token(t) => {
                        assert(tokens_before + (seq![t] + rest.tokens) =~= tokens_before.push(t) + rest.tokens);
                    },
                    Lexed::Error(e) => {
                        assert(errors_before + (seq![e] + rest.errors) =~= errors_before.push(e) + rest.errors);
                    },
                    Lexed::Nothing => {},
                }
            }
        }
        let ghost r = scan_source(src);
        proof {
            assert(sc.token_list() + Seq::<TokenView>::empty() =~= sc.token_list());
            assert(sc.error_list() + Seq::<CompileErrorView>::empty() =~= sc.error_list());
        }
        let ghost before = sc.tokens@;
        sc.tokens.push(Token {
            kind: TokenKind::Eof,
            lexeme: String::new(),
            line: sc.line,
            column: sc.column,
            length: 0,
        });
        proof {
            lemma_token_views_push(before, sc.tokens@.last());
            assert(sc.tokens@ =~= before.push(sc.tokens@.last()));
            assert(sc.tokens@.last()@.lexeme =~= Seq::<char>::empty());
        }
        if sc.errors.len() == 0 {
            Ok(sc.tokens)
        } else {
            Err(sc.errors)
        }
    }
}

} // verus!
