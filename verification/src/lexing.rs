use vstd::prelude::*;
use vstd::utf8::{encode_scalar, encode_utf8};

use crate::parser::parseable;
use crate::scanner::{
    ScanState, Lexed, scan_from, scan_step, scan_source, source_tokens, source_errors, eof_token,
    initial_state, digits_end, number_end, word_end, comment_end, string_scan, is_digit_char, ascii_token,
    is_alpha_char, is_alphanumeric_char, single_char_kind, is_comparison_start, word_kind,
    keyword_of, lemma_digits_end, lemma_word_end, lemma_comment_end, lemma_step_progress,
    lemma_string_scan_bounds,
};
use crate::ast::{BinaryOp, UnaryOp, binary_op_text, unary_op_text};
use crate::error::{CompileErrorView, ErrorKindView};
use crate::grammar::{binary_op_kind, unary_op_kind};
use crate::text::utf8_len;
use crate::token::{TokenKind, TokenView, quoted_lexeme};

verus! {

// Facts about the tokens that scanning yields, stated over the source text.

/// The number of newline characters in `s`.
pub open spec fn newlines(s: Seq<char>) -> nat
    decreases s.len(),
{
    if s.len() == 0 {
        0
    } else {
        newlines(s.drop_last()) + if s.last() == '\n' { 1nat } else { 0nat }
    }
}

/// The column of place `i` of `src`: the number of characters between the
/// last newline before `i` (or the start of `src`) and `i`.
pub open spec fn column_at(src: Seq<char>, i: int) -> nat
    decreases i,
{
    if i <= 0 {
        0
    } else if src[i - 1] == '\n' {
        0
    } else {
        column_at(src, i - 1) + 1
    }
}

/// The tokens `toks` stand, in order and without overlapping, at places of
/// `src` from `from` on: each token's lexeme is the text at its place, its
/// line is 1 plus the number of newlines before that place, and its column is
/// the column of that place.
pub open spec fn placed(src: Seq<char>, from: int, toks: Seq<TokenView>) -> bool
    decreases toks.len(),
{
    if toks.len() == 0 {
        true
    } else {
        exists|s: int|
            #![trigger src.subrange(s, s + toks[0].lexeme.len())]
            from <= s && s + toks[0].lexeme.len() <= src.len()
                && src.subrange(s, s + toks[0].lexeme.len()) == toks[0].lexeme
                && toks[0].line == 1 + newlines(src.take(s))
                && toks[0].column == column_at(src, s)
                && placed(src, s + toks[0].lexeme.len(), toks.drop_first())
    }
}

/// An identifier or a keyword.
pub open spec fn is_word_kind(k: TokenKind) -> bool {
    k == TokenKind::Identifier || keyword_kind_set(k)
}

/// The keyword kinds.
pub open spec fn keyword_kind_set(k: TokenKind) -> bool {
    match k {
        TokenKind::And | TokenKind::Class | TokenKind::Else | TokenKind::False | TokenKind::For
        | TokenKind::Fun | TokenKind::If | TokenKind::Nil | TokenKind::Or | TokenKind::Print
        | TokenKind::Return | TokenKind::Super | TokenKind::This | TokenKind::True
        | TokenKind::Var | TokenKind::While => true,
        _ => false,
    }
}

/// A word: a letter or `_`, then letters, digits and `_`.
pub open spec fn is_word(s: Seq<char>) -> bool {
    &&& s.len() > 0
    &&& is_alpha_char(s[0])
    &&& forall|i: int| 0 <= i < s.len() ==> is_alphanumeric_char(#[trigger] s[i])
}

/// What every scanned token satisfies.
pub open spec fn token_facts(t: TokenView) -> bool {
    &&& t.kind != TokenKind::Eof
    &&& t.length == utf8_len(t.lexeme)
    &&& t.lexeme.len() > 0
    &&& t.kind == TokenKind::Str ==> {
        &&& t.lexeme.len() >= 2
        &&& t.lexeme[0] == '"'
        &&& t.lexeme.last() == '"'
    }
    &&& is_word_kind(t.kind) ==> is_word(t.lexeme) && t.kind == word_kind(t.lexeme)
}

// ---------------------------------------------------------------------------
// Helpers
// ---------------------------------------------------------------------------

proof fn lemma_newlines_concat(a: Seq<char>, b: Seq<char>)
    ensures
        newlines(a + b) == newlines(a) + newlines(b),
    decreases b.len(),
{
    if b.len() == 0 {
        assert(a + b =~= a);
    } else {
        lemma_newlines_concat(a, b.drop_last());
        assert((a + b).drop_last() =~= a + b.drop_last());
    }
}

proof fn lemma_newlines_single(c: char)
    ensures
        newlines(seq![c]) == if c == '\n' { 1nat } else { 0nat },
{
    assert(seq![c].drop_last() =~= Seq::<char>::empty());
    assert(seq![c].last() == c);
    assert(newlines(Seq::<char>::empty()) == 0);
}

proof fn lemma_newlines_none(s: Seq<char>)
    requires
        forall|i: int| 0 <= i < s.len() ==> s[i] != '\n',
    ensures
        newlines(s) == 0,
    decreases s.len(),
{
    if s.len() > 0 {
        lemma_newlines_none(s.drop_last());
    }
}

/// Along characters that are no newline the column grows by one each.
proof fn lemma_column_run(src: Seq<char>, a: int, b: int)
    requires
        0 <= a <= b <= src.len(),
        forall|j: int| a <= j < b ==> #[trigger] src[j] != '\n',
    ensures
        column_at(src, b) == column_at(src, a) + (b - a),
    decreases b - a,
{
    if a < b {
        lemma_column_run(src, a, b - 1);
    }
}

/// Counting the newlines of `src` up to `b` from those up to `a`.
proof fn lemma_newlines_take(src: Seq<char>, a: int, b: int)
    requires
        0 <= a <= b <= src.len(),
    ensures
        newlines(src.take(b)) == newlines(src.take(a)) + newlines(src.subrange(a, b)),
{
    assert(src.take(b) =~= src.take(a) + src.subrange(a, b));
    lemma_newlines_concat(src.take(a), src.subrange(a, b));
}

proof fn lemma_utf8_ascii(s: Seq<char>)
    requires
        forall|i: int| 0 <= i < s.len() ==> (s[i] as u32) < 0x80,
    ensures
        utf8_len(s) == s.len(),
    decreases s.len(),
{
    if s.len() > 0 {
        assert forall|i: int| 0 <= i < s.drop_first().len() implies (s.drop_first()[i] as u32) < 0x80 by {
            assert(s.drop_first()[i] == s[i + 1]);
        }
        lemma_utf8_ascii(s.drop_first());
        assert(encode_scalar(s[0] as u32).len() == 1);
    }
}




proof fn lemma_string_scan(src: Seq<char>, i: int, line: int, column: int)
    requires
        0 <= i <= src.len(),
    ensures
        ({
            let (q, l, c) = string_scan(src, i, line, column);
            &&& i <= q <= src.len()
            &&& l == line + newlines(src.subrange(i, q))
            &&& q < src.len() ==> src[q] == '"'
            &&& forall|j: int| i <= j < q ==> #[trigger] src[j] != '"'
            &&& column == column_at(src, i) ==> c == column_at(src, q)
        }),
    decreases src.len() - i,
{
    if i < src.len() && src[i] != '"' {
        let (q, l, c) = string_scan(src, i, line, column);
        if src[i] == '\n' {
            lemma_string_scan(src, i + 1, line + 1, 0);
            assert(string_scan(src, i, line, column) == string_scan(src, i + 1, line + 1, 0));
        } else {
            lemma_string_scan(src, i + 1, line, column + 1);
            assert(string_scan(src, i, line, column) == string_scan(src, i + 1, line, column + 1));
        }
        assert(src.subrange(i, q) =~= seq![src[i]] + src.subrange(i + 1, q));
        lemma_newlines_concat(seq![src[i]], src.subrange(i + 1, q));
        lemma_newlines_single(src[i]);
    } else {
        assert(src.subrange(i, i) =~= Seq::<char>::empty());
    }
}

proof fn lemma_keyword_word(w: Seq<char>)
    requires
        keyword_of(w) is Some,
    ensures
        keyword_kind_set(keyword_of(w)->0),
{
}

/// What a step of the scanner from `s` to `s2`, yielding `lexed`, satisfies:
/// it moves forward within the source, the line grows by the newlines passed
/// (so it never goes down), the column follows the characters passed since
/// the last newline, and a token it yields is the text it started at, with
/// the line and column there.
/// A step yields at most one token or one error, which the scan appends.
pub open spec fn step_facts(src: Seq<char>, s: ScanState, s2: ScanState, lexed: Lexed) -> bool {
    &&& s.pos < s2.pos <= src.len()
    &&& s2.line == s.line + newlines(src.subrange(s.pos, s2.pos))
    &&& s2.line >= s.line
    &&& s.column == column_at(src, s.pos) ==> s2.column == column_at(src, s2.pos)
    &&& match lexed {
        Lexed::Token(t) => {
            &&& s.pos + t.lexeme.len() <= s2.pos
            &&& src.subrange(s.pos, s.pos + t.lexeme.len()) == t.lexeme
            &&& t.line == s.line
            &&& t.column == s.column
            &&& token_facts(t)
        },
        _ => true,
    }
}

/// Every step of the scanner makes progress, stays within the source, never
/// lowers the line, and yields only text of the source (see [`step_facts`]).
pub proof fn lemma_scan_step(src: Seq<char>, s: ScanState)
    requires
        0 <= s.pos < src.len(),
        s.line >= 0,
        s.column >= 0,
    ensures
        step_facts(src, s, scan_step(src, s).0, scan_step(src, s).1),
{
    let start = s.pos;
    let c = src[start];
    let next = start + 1;
    let (s2, lexed) = scan_step(src, s);
    lemma_digits_end(src, next);
    lemma_word_end(src, next);
    lemma_string_scan(src, next, s.line, s.column + 1);
    let one = src.subrange(start, next);
    assert(one =~= seq![c]);
    lemma_newlines_single(c);
    assert(column_at(src, next) == if c == '\n' { 0 } else { column_at(src, start) + 1 });
    if single_char_kind(c) is Some {
        lemma_utf8_ascii(one);
    } else if c == '/' {
        if next < src.len() && src[next] == '/' {
            lemma_comment_end(src, next + 1);
            let e = comment_end(src, next + 1);
            lemma_newlines_none(src.subrange(start, e));
            lemma_column_run(src, start, e);
        } else {
            lemma_utf8_ascii(one);
        }
    } else if is_comparison_start(c) {
        if next < src.len() && src[next] == '=' {
            lemma_newlines_none(src.subrange(start, next + 1));
            lemma_utf8_ascii(src.subrange(start, next + 1));
            assert(column_at(src, next + 1) == column_at(src, next) + 1);
        } else {
            lemma_utf8_ascii(one);
        }
    } else if is_digit_char(c) {
        let e1 = digits_end(src, next);
        let e = number_end(src, start);
        if e1 + 1 < src.len() && src[e1] == '.' && is_digit_char(src[e1 + 1]) {
            lemma_digits_end(src, e1 + 1);
        }
        assert forall|j: int| start <= j < e implies #[trigger] src[j] != '\n' && (src[j] as u32) < 0x80 by {
            if j > e1 && e1 + 1 < src.len() && src[e1] == '.' && is_digit_char(src[e1 + 1]) {
                assert(is_digit_char(src[j]));
            }
        }
        lemma_newlines_none(src.subrange(start, e));
        lemma_utf8_ascii(src.subrange(start, e));
        lemma_column_run(src, start, e);
    } else if c == '"' {
        let (q, l, cc) = string_scan(src, next, s.line, s.column + 1);
        assert(src.subrange(start, q) =~= seq![c] + src.subrange(next, q));
        lemma_newlines_concat(seq![c], src.subrange(next, q));
        if q < src.len() {
            assert(column_at(src, q + 1) == column_at(src, q) + 1);
            assert(src.subrange(start, q + 1) =~= src.subrange(start, q) + seq![src[q]]);
            lemma_newlines_concat(src.subrange(start, q), seq![src[q]]);
        }
    } else if c == ' ' || c == '\r' || c == '\t' {
    } else if c == '\n' {
    } else if is_alpha_char(c) {
        let e = word_end(src, next);
        let w = src.subrange(start, e);
        assert forall|j: int| start <= j < e implies #[trigger] src[j] != '\n' && (src[j] as u32) < 0x80 by {
            if j > start {
                assert(is_alphanumeric_char(src[j]));
            }
        }
        lemma_newlines_none(w);
        lemma_utf8_ascii(w);
        lemma_column_run(src, start, e);
        assert forall|i: int| 0 <= i < w.len() implies is_alphanumeric_char(#[trigger] w[i]) by {
            assert(w[i] == src[start + i]);
        }
        if keyword_of(w) is Some {
            lemma_keyword_word(w);
        }
    } else {
    }
}

/// Everything that scanning from `s` yields, by induction over the steps.
proof fn lemma_scan_from(src: Seq<char>, s: ScanState)
    requires
        0 <= s.pos <= src.len(),
        s.line == 1 + newlines(src.take(s.pos)),
        s.column == column_at(src, s.pos),
    ensures
        ({
            let r = scan_from(src, s);
            &&& placed(src, s.pos, r.tokens)
            &&& forall|i: int| 0 <= i < r.tokens.len() ==> token_facts(#[trigger] r.tokens[i])
            &&& r.end.pos == src.len()
            &&& r.end.line == 1 + newlines(src)
            &&& r.end.column == column_at(src, src.len() as int)
        }),
    decreases src.len() - s.pos,
{
    let r = scan_from(src, s);
    if s.pos < src.len() {
        let (s2, lexed) = scan_step(src, s);
        lemma_scan_step(src, s);
        lemma_newlines_take(src, s.pos, s2.pos);
        lemma_scan_from(src, s2);
        let rest = scan_from(src, s2);
        match lexed {
            Lexed::Token(t) => {
                let e = s.pos + t.lexeme.len();
                lemma_placed_later(src, e, s2.pos, rest.tokens);
                assert(r.tokens == seq![t] + rest.tokens);
                assert(r.tokens.drop_first() =~= rest.tokens);
                assert(r.tokens[0] == t);
                assert(src.subrange(s.pos, s.pos + r.tokens[0].lexeme.len()) == r.tokens[0].lexeme);
                assert forall|i: int| 0 <= i < r.tokens.len() implies token_facts(#[trigger] r.tokens[i]) by {
                    if i > 0 {
                        assert(r.tokens[i] == rest.tokens[i - 1]);
                    }
                }
            },
            Lexed::Error(_) => {
                lemma_placed_later(src, s.pos, s2.pos, rest.tokens);
            },
            Lexed::Nothing => {
                lemma_placed_later(src, s.pos, s2.pos, rest.tokens);
            },
        }
    } else {
        assert(src.take(s.pos) =~= src);
    }
}

proof fn lemma_placed_later(src: Seq<char>, a: int, b: int, toks: Seq<TokenView>)
    requires
        a <= b,
        placed(src, b, toks),
    ensures
        placed(src, a, toks),
{
    if toks.len() > 0 {
        let s = choose|s: int|
            #![trigger src.subrange(s, s + toks[0].lexeme.len())]
            b <= s && s + toks[0].lexeme.len() <= src.len()
                && src.subrange(s, s + toks[0].lexeme.len()) == toks[0].lexeme
                && toks[0].line == 1 + newlines(src.take(s))
                && toks[0].column == column_at(src, s)
                && placed(src, s + toks[0].lexeme.len(), toks.drop_first());
        assert(src.subrange(s, s + toks[0].lexeme.len()) == toks[0].lexeme);
    }
}

proof fn lemma_placed_push(src: Seq<char>, from: int, toks: Seq<TokenView>, t: TokenView, at: int)
    requires
        placed(src, from, toks),
        t.lexeme.len() == 0,
        at == src.len(),
        from <= at,
        t.line == 1 + newlines(src),
        t.column == column_at(src, src.len() as int),
    ensures
        placed(src, from, toks.push(t)),
    decreases toks.len(),
{
    let tt = toks.push(t);
    if toks.len() == 0 {
        assert(tt[0] == t);
        assert(src.subrange(at, at + tt[0].lexeme.len()) =~= tt[0].lexeme);
        assert(src.take(at) =~= src);
        assert(tt.drop_first() =~= Seq::<TokenView>::empty());
        assert(placed(src, at + tt[0].lexeme.len(), tt.drop_first()));
    } else {
        let s = choose|s: int|
            #![trigger src.subrange(s, s + toks[0].lexeme.len())]
            from <= s && s + toks[0].lexeme.len() <= src.len()
                && src.subrange(s, s + toks[0].lexeme.len()) == toks[0].lexeme
                && toks[0].line == 1 + newlines(src.take(s))
                && toks[0].column == column_at(src, s)
                && placed(src, s + toks[0].lexeme.len(), toks.drop_first());
        lemma_placed_push(src, s + toks[0].lexeme.len(), toks.drop_first(), t, at);
        assert(tt.drop_first() =~= toks.drop_first().push(t));
        assert(tt[0] == toks[0]);
        assert(src.subrange(s, s + tt[0].lexeme.len()) == tt[0].lexeme);
        assert(placed(src, s + tt[0].lexeme.len(), tt.drop_first()));
    }
}

// ---------------------------------------------------------------------------
// Facts about the tokens of a source text
// ---------------------------------------------------------------------------

/// The tokens of a source text stand in it in order: each lexeme is the text
/// at its place, each token's line is 1 plus the newlines before it, and its
/// column is the number of characters since the last newline before it
/// (newlines inside string literals included); the end-of-file token stands
/// at the end, on the last line, at the column there.
pub proof fn lemma_tokens_in_source(src: Seq<char>)
    ensures
        placed(src, 0, source_tokens(src)),
        source_tokens(src).last().line == 1 + newlines(src),
        source_tokens(src).last().column == column_at(src, src.len() as int),
{
    let r = scan_source(src);
    assert(src.take(0) =~= Seq::<char>::empty());
    lemma_scan_from(src, initial_state());
    lemma_placed_push(src, 0, r.tokens, eof_token(r.end), src.len() as int);
}

/// Scanning always ends with exactly one end-of-file token, the last one;
/// every other token has a non-empty lexeme whose byte length is its length.
pub proof fn lemma_tokens_shape(src: Seq<char>)
    ensures
        source_tokens(src).len() >= 1,
        source_tokens(src).last().kind == TokenKind::Eof,
        source_tokens(src).last().lexeme.len() == 0,
        forall|i: int| 0 <= i < source_tokens(src).len() - 1 ==> {
            &&& (#[trigger] source_tokens(src)[i]).kind != TokenKind::Eof
            &&& source_tokens(src)[i].lexeme.len() > 0
        },
        forall|i: int| 0 <= i < source_tokens(src).len() ==>
            (#[trigger] source_tokens(src)[i]).length == utf8_len(source_tokens(src)[i].lexeme),
{
    let r = scan_source(src);
    assert(src.take(0) =~= Seq::<char>::empty());
    lemma_scan_from(src, initial_state());
    let ts = source_tokens(src);
    assert forall|i: int| 0 <= i < ts.len() implies (#[trigger] ts[i]).length == utf8_len(ts[i].lexeme) by {
        if i < ts.len() - 1 {
            assert(ts[i] == r.tokens[i]);
        } else {
            assert(ts[i].lexeme =~= Seq::<char>::empty());
            assert(encode_utf8(Seq::<char>::empty()) =~= Seq::<u8>::empty());
        }
    }
    assert forall|i: int| 0 <= i < ts.len() - 1 implies {
        &&& (#[trigger] ts[i]).kind != TokenKind::Eof
        &&& ts[i].lexeme.len() > 0
    } by {
        assert(ts[i] == r.tokens[i]);
    }
}

/// Identifiers and keywords are words, and a word is a keyword token exactly
/// when it spells a keyword: no identifier token spells a keyword.
pub proof fn lemma_word_tokens(src: Seq<char>)
    ensures
        forall|i: int| 0 <= i < source_tokens(src).len() && is_word_kind((#[trigger] source_tokens(src)[i]).kind)
            ==> is_word(source_tokens(src)[i].lexeme)
                && source_tokens(src)[i].kind == word_kind(source_tokens(src)[i].lexeme),
{
    let r = scan_source(src);
    assert(src.take(0) =~= Seq::<char>::empty());
    lemma_scan_from(src, initial_state());
    let ts = source_tokens(src);
    assert forall|i: int| 0 <= i < ts.len() && is_word_kind((#[trigger] ts[i]).kind)
        implies is_word(ts[i].lexeme) && ts[i].kind == word_kind(ts[i].lexeme) by {
        if i < ts.len() - 1 {
            assert(ts[i] == r.tokens[i]);
        }
    }
}

/// A letter (`a` to `z`, `A` to `Z`) or `_` starts a word. A step there takes
/// the longest run of letters, digits and `_`, and yields it as one token at
/// that place; the token is the keyword that the word spells when it is one of
/// the sixteen keyword spellings, and an identifier otherwise.
pub proof fn lemma_letters_make_words(src: Seq<char>, s: ScanState)
    requires
        0 <= s.pos < src.len(),
        ('a' <= src[s.pos] <= 'z') || ('A' <= src[s.pos] <= 'Z') || src[s.pos] == '_',
        s.line >= 0,
        s.column >= 0,
    ensures
        ({
            let (s2, lexed) = scan_step(src, s);
            let w = src.subrange(s.pos, s2.pos);
            &&& s.pos < s2.pos <= src.len()
            &&& forall|j: int| s.pos <= j < s2.pos ==>
                ('a' <= #[trigger] src[j] <= 'z') || ('A' <= src[j] <= 'Z') || src[j] == '_'
                    || ('0' <= src[j] <= '9')
            &&& s2.pos < src.len() ==> !(('a' <= src[s2.pos] <= 'z') || ('A' <= src[s2.pos] <= 'Z')
                || src[s2.pos] == '_' || ('0' <= src[s2.pos] <= '9'))
            &&& lexed matches Lexed::Token(t) && {
                &&& t.lexeme == w
                &&& t.line == s.line
                &&& t.column == s.column
                &&& (t.kind == TokenKind::And <==> w == seq!['a', 'n', 'd'])
                &&& (t.kind == TokenKind::Class <==> w == seq!['c', 'l', 'a', 's', 's'])
                &&& (t.kind == TokenKind::Else <==> w == seq!['e', 'l', 's', 'e'])
                &&& (t.kind == TokenKind::False <==> w == seq!['f', 'a', 'l', 's', 'e'])
                &&& (t.kind == TokenKind::For <==> w == seq!['f', 'o', 'r'])
                &&& (t.kind == TokenKind::Fun <==> w == seq!['f', 'u', 'n'])
                &&& (t.kind == TokenKind::If <==> w == seq!['i', 'f'])
                &&& (t.kind == TokenKind::Nil <==> w == seq!['n', 'i', 'l'])
                &&& (t.kind == TokenKind::Or <==> w == seq!['o', 'r'])
                &&& (t.kind == TokenKind::Print <==> w == seq!['p', 'r', 'i', 'n', 't'])
                &&& (t.kind == TokenKind::Return <==> w == seq!['r', 'e', 't', 'u', 'r', 'n'])
                &&& (t.kind == TokenKind::Super <==> w == seq!['s', 'u', 'p', 'e', 'r'])
                &&& (t.kind == TokenKind::This <==> w == seq!['t', 'h', 'i', 's'])
                &&& (t.kind == TokenKind::True <==> w == seq!['t', 'r', 'u', 'e'])
                &&& (t.kind == TokenKind::Var <==> w == seq!['v', 'a', 'r'])
                &&& (t.kind == TokenKind::While <==> w == seq!['w', 'h', 'i', 'l', 'e'])
                &&& (t.kind == TokenKind::Identifier <==> !(w == seq!['a', 'n', 'd'] || w == seq!['c', 'l', 'a', 's', 's'] || w == seq!['e', 'l', 's', 'e'] || w == seq!['f', 'a', 'l', 's', 'e'] || w == seq!['f', 'o', 'r'] || w == seq!['f', 'u', 'n'] || w == seq!['i', 'f'] || w == seq!['n', 'i', 'l'] || w == seq!['o', 'r'] || w == seq!['p', 'r', 'i', 'n', 't'] || w == seq!['r', 'e', 't', 'u', 'r', 'n'] || w == seq!['s', 'u', 'p', 'e', 'r'] || w == seq!['t', 'h', 'i', 's'] || w == seq!['t', 'r', 'u', 'e'] || w == seq!['v', 'a', 'r'] || w == seq!['w', 'h', 'i', 'l', 'e']))
            }
        }),
{
    let c = src[s.pos];
    let e = word_end(src, s.pos + 1);
    let w = src.subrange(s.pos, e);
    lemma_word_end(src, s.pos + 1);
    assert(single_char_kind(c) is None);
    assert(is_alpha_char(c));
    assert(scan_step(src, s) == (
        ScanState { pos: e, line: s.line, column: s.column + (e - s.pos) },
        Lexed::Token(ascii_token(src, s.pos, e, word_kind(w), s.line, s.column)),
    ));
    assert forall|j: int| s.pos <= j < e implies
        ('a' <= #[trigger] src[j] <= 'z') || ('A' <= src[j] <= 'Z') || src[j] == '_'
            || ('0' <= src[j] <= '9') by {
        if j > s.pos {
            assert(is_alphanumeric_char(src[j]));
        }
    }
}

/// The step yields one token of kind `kind` spelled `lexeme`, found where the
/// step started.
pub open spec fn is_token(lexed: Lexed, kind: TokenKind, lexeme: Seq<char>, s: ScanState) -> bool {
    lexed matches Lexed::Token(t) && t.kind == kind && t.lexeme == lexeme && t.line == s.line
        && t.column == s.column
}

/// What one character starts. Each of `( ) { } , . - + ; *` is a token of its
/// own; `!`, `=`, `<` and `>` take a following `=` into a two-character
/// token; `/` is a token unless a second `/` makes the rest of the line a
/// comment; spaces, tabs, carriage returns and newlines yield nothing; any
/// character that starts nothing (no letter, digit, `_` or `"` either) is an
/// unexpected character, reported on the current line.
pub proof fn lemma_character_tokens(src: Seq<char>, s: ScanState)
    requires
        0 <= s.pos < src.len(),
        s.line >= 0,
        s.column >= 0,
    ensures
        ({
            let c = src[s.pos];
            let eq_next = s.pos + 1 < src.len() && src[s.pos + 1] == '=';
            let lexed = scan_step(src, s).1;
            &&& c == '(' ==> is_token(lexed, TokenKind::LeftParen, seq!['('], s)
            &&& c == ')' ==> is_token(lexed, TokenKind::RightParen, seq![')'], s)
            &&& c == '{' ==> is_token(lexed, TokenKind::LeftBrace, seq!['{'], s)
            &&& c == '}' ==> is_token(lexed, TokenKind::RightBrace, seq!['}'], s)
            &&& c == ',' ==> is_token(lexed, TokenKind::Comma, seq![','], s)
            &&& c == '.' ==> is_token(lexed, TokenKind::Dot, seq!['.'], s)
            &&& c == '-' ==> is_token(lexed, TokenKind::Minus, seq!['-'], s)
            &&& c == '+' ==> is_token(lexed, TokenKind::Plus, seq!['+'], s)
            &&& c == ';' ==> is_token(lexed, TokenKind::Semicolon, seq![';'], s)
            &&& c == '*' ==> is_token(lexed, TokenKind::Star, seq!['*'], s)
            &&& c == '!' && eq_next ==> is_token(lexed, TokenKind::BangEqual, seq!['!', '='], s)
            &&& c == '!' && !eq_next ==> is_token(lexed, TokenKind::Bang, seq!['!'], s)
            &&& c == '=' && eq_next ==> is_token(lexed, TokenKind::EqualEqual, seq!['=', '='], s)
            &&& c == '=' && !eq_next ==> is_token(lexed, TokenKind::Equal, seq!['='], s)
            &&& c == '<' && eq_next ==> is_token(lexed, TokenKind::LessEqual, seq!['<', '='], s)
            &&& c == '<' && !eq_next ==> is_token(lexed, TokenKind::Less, seq!['<'], s)
            &&& c == '>' && eq_next ==> is_token(lexed, TokenKind::GreaterEqual, seq!['>', '='], s)
            &&& c == '>' && !eq_next ==> is_token(lexed, TokenKind::Greater, seq!['>'], s)
            &&& c == '/' && !(s.pos + 1 < src.len() && src[s.pos + 1] == '/')
                ==> is_token(lexed, TokenKind::Slash, seq!['/'], s)
            &&& c == '/' && s.pos + 1 < src.len() && src[s.pos + 1] == '/' ==> lexed is Nothing
            &&& c == ' ' || c == '\t' || c == '\r' || c == '\n' ==> lexed is Nothing
            &&& !(c == '(' || c == ')' || c == '{' || c == '}' || c == ',' || c == '.' || c == '-'
                || c == '+' || c == ';' || c == '*' || c == '!' || c == '=' || c == '<' || c == '>'
                || c == '/' || c == ' ' || c == '\t' || c == '\r' || c == '\n' || c == '"'
                || ('0' <= c <= '9') || ('a' <= c <= 'z') || ('A' <= c <= 'Z') || c == '_')
                ==> lexed == Lexed::Error(CompileErrorView {
                    line: s.line as nat,
                    kind: ErrorKindView::UnexpectedCharacter(c),
                })
        }),
{
    let start = s.pos;
    assert(src.subrange(start, start + 1) =~= seq![src[start]]);
    if start + 1 < src.len() {
        assert(src.subrange(start, start + 2) =~= seq![src[start], src[start + 1]]);
    }
}

/// A digit starts a number literal. A step there yields one number token:
/// the longest run of digits, and then, only when a digit follows it, one `.`
/// with the run of digits after it.
pub proof fn lemma_number_tokens(src: Seq<char>, s: ScanState)
    requires
        0 <= s.pos < src.len(),
        '0' <= src[s.pos] <= '9',
        s.line >= 0,
        s.column >= 0,
    ensures
        ({
            let (s2, lexed) = scan_step(src, s);
            let e = s2.pos;
            &&& s.pos < e <= src.len()
            &&& is_token(lexed, TokenKind::Number, src.subrange(s.pos, e), s)
            // digits, with at most one `.` that has digits on both sides
            &&& forall|j: int| s.pos <= j < e ==> ('0' <= #[trigger] src[j] <= '9')
                || (src[j] == '.' && s.pos < j && j + 1 < e && '0' <= src[j + 1] <= '9')
            &&& forall|j: int, k: int| s.pos <= j < k < e && #[trigger] src[j] == '.' ==> #[trigger] src[k] != '.'
            // and nothing more could have been taken
            &&& e < src.len() ==> !('0' <= src[e] <= '9')
            &&& (e + 1 < src.len() && src[e] == '.' && '0' <= src[e + 1] <= '9')
                ==> exists|j: int| s.pos < j < e && #[trigger] src[j] == '.'
        }),
{
    let start = s.pos;
    let e1 = digits_end(src, start + 1);
    lemma_digits_end(src, start + 1);
    let e = number_end(src, start);
    assert(single_char_kind(src[start]) is None);
    assert(is_digit_char(src[start]));
    if e1 + 1 < src.len() && src[e1] == '.' && is_digit_char(src[e1 + 1]) {
        lemma_digits_end(src, e1 + 1);
        assert forall|j: int, k: int| start <= j < k < e && #[trigger] src[j] == '.' implies #[trigger] src[k] != '.' by {
            if j != e1 {
                assert(is_digit_char(src[j]));
            }
            assert(is_digit_char(src[k]));
        }
        assert(src[e1] == '.');
    }
}

/// A `"` starts a string literal, which runs to the next `"` and may span
/// lines. A step there yields a string token spelled from the opening to the
/// closing quote, both included, when there is a closing quote; when there is
/// none it reports an unterminated string on the line where the text ends.
pub proof fn lemma_string_tokens(src: Seq<char>, s: ScanState)
    requires
        0 <= s.pos < src.len(),
        src[s.pos] == '"',
        s.line >= 0,
        s.column >= 0,
    ensures
        ({
            let (s2, lexed) = scan_step(src, s);
            let closed = exists|q: int| s.pos < q < src.len() && #[trigger] src[q] == '"';
            &&& closed ==> {
                &&& s.pos + 2 <= s2.pos <= src.len()
                &&& src[s2.pos - 1] == '"'
                &&& forall|j: int| s.pos < j < s2.pos - 1 ==> #[trigger] src[j] != '"'
                &&& is_token(lexed, TokenKind::Str, src.subrange(s.pos, s2.pos), s)
            }
            &&& !closed ==> lexed == Lexed::Error(CompileErrorView {
                line: (s.line + newlines(src.subrange(s.pos, src.len() as int))) as nat,
                kind: ErrorKindView::UnterminatedString,
            })
        }),
{
    let start = s.pos;
    let next = start + 1;
    lemma_string_scan(src, next, s.line, s.column + 1);
    let (q, l, cc) = string_scan(src, next, s.line, s.column + 1);
    assert(single_char_kind(src[start]) is None);
    assert(src.subrange(start, q) =~= seq![src[start]] + src.subrange(next, q));
    lemma_newlines_concat(seq![src[start]], src.subrange(next, q));
    lemma_newlines_single(src[start]);
    if q < src.len() {
        assert(src[q] == '"');
    } else {
        assert forall|x: int| s.pos < x < src.len() implies #[trigger] src[x] != '"' by {
            assert(next <= x < q);
        }
    }
}

/// An operator prints as it is spelled in the source: a scanned token of the
/// kind that a binary or unary operator is parsed from has the operator's
/// printed symbol as its lexeme.
pub proof fn lemma_operators_print_as_spelled(src: Seq<char>, s: ScanState, b: BinaryOp, u: UnaryOp)
    requires
        0 <= s.pos < src.len(),
        s.line >= 0,
        s.column >= 0,
    ensures
        scan_step(src, s).1 matches Lexed::Token(t)
            ==> (t.kind == binary_op_kind(b) ==> t.lexeme == binary_op_text(b)),
        scan_step(src, s).1 matches Lexed::Token(t)
            ==> (t.kind == unary_op_kind(u) ==> t.lexeme == unary_op_text(u)),
{
    let start = s.pos;
    assert(src.subrange(start, start + 1) =~= seq![src[start]]);
    if start + 1 < src.len() {
        assert(src.subrange(start, start + 2) =~= seq![src[start], src[start + 1]]);
    }
}

/// The parser can work on every token sequence that scanning yields.
pub proof fn lemma_scanned_tokens_parseable(src: Seq<char>)
    ensures
        parseable(source_tokens(src)),
{
    let r = scan_source(src);
    assert(src.take(0) =~= Seq::<char>::empty());
    lemma_scan_from(src, initial_state());
    let ts = source_tokens(src);
    assert(ts[ts.len() - 1].kind == TokenKind::Eof);
    assert forall|i: int|
        #![trigger ts[i]]
        0 <= i < ts.len() && ts[i].kind == TokenKind::Str
            && (forall|j: int| 0 <= j < i ==> ts[j].kind != TokenKind::Eof)
            implies quoted_lexeme(ts[i].lexeme) by {
        assert(ts[i] == r.tokens[i]);
    }
}

// ---------------------------------------------------------------------------
// Scanning texts joined by a newline
// ---------------------------------------------------------------------------

/// What of a token the joining law speaks of: its kind and its text.
pub open spec fn kind_lexeme(t: TokenView) -> (TokenKind, Seq<char>) {
    (t.kind, t.lexeme)
}

/// The kinds and texts of a sequence of tokens.
pub open spec fn kinds_lexemes(ts: Seq<TokenView>) -> Seq<(TokenKind, Seq<char>)> {
    ts.map_values(|t: TokenView| kind_lexeme(t))
}

/// Two steps that yield alike: tokens of the same kind and text, or both an
/// error, or both nothing.
pub open spec fn lexed_alike(x: Lexed, y: Lexed) -> bool {
    match (x, y) {
        (Lexed::Token(t), Lexed::Token(u)) => kind_lexeme(t) == kind_lexeme(u),
        (Lexed::Error(_), Lexed::Error(_)) => true,
        (Lexed::Nothing, Lexed::Nothing) => true,
        _ => false,
    }
}

proof fn lemma_digits_prefix(a: Seq<char>, r: Seq<char>, i: int)
    requires
        r.len() > 0,
        r[0] == '\n',
        0 <= i <= a.len(),
    ensures
        digits_end(a + r, i) == digits_end(a, i),
    decreases a.len() - i,
{
    assert((a + r)[a.len() as int] == r[0]);
    if i < a.len() {
        assert((a + r)[i] == a[i]);
        if is_digit_char(a[i]) {
            lemma_digits_prefix(a, r, i + 1);
        }
    }
}

proof fn lemma_word_prefix(a: Seq<char>, r: Seq<char>, i: int)
    requires
        r.len() > 0,
        r[0] == '\n',
        0 <= i <= a.len(),
    ensures
        word_end(a + r, i) == word_end(a, i),
    decreases a.len() - i,
{
    assert((a + r)[a.len() as int] == r[0]);
    if i < a.len() {
        assert((a + r)[i] == a[i]);
        if is_alphanumeric_char(a[i]) {
            lemma_word_prefix(a, r, i + 1);
        }
    }
}

proof fn lemma_comment_prefix(a: Seq<char>, r: Seq<char>, i: int)
    requires
        r.len() > 0,
        r[0] == '\n',
        0 <= i <= a.len(),
    ensures
        comment_end(a + r, i) == comment_end(a, i),
    decreases a.len() - i,
{
    assert((a + r)[a.len() as int] == r[0]);
    if i < a.len() {
        assert((a + r)[i] == a[i]);
        if a[i] != '\n' {
            lemma_comment_prefix(a, r, i + 1);
        }
    }
}

proof fn lemma_string_prefix(a: Seq<char>, r: Seq<char>, i: int, line: int, column: int)
    requires
        0 <= i <= a.len(),
        string_scan(a, i, line, column).0 < a.len(),
    ensures
        string_scan(a + r, i, line, column) == string_scan(a, i, line, column),
    decreases a.len() - i,
{
    assert((a + r)[i] == a[i]);
    if a[i] != '"' {
        if a[i] == '\n' {
            lemma_string_prefix(a, r, i + 1, line + 1, 0);
        } else {
            lemma_string_prefix(a, r, i + 1, line, column + 1);
        }
    }
}

/// Within a text followed by a newline, a step that yields no error is the
/// same as in the text alone.
proof fn lemma_step_prefix(a: Seq<char>, r: Seq<char>, s: ScanState)
    requires
        r.len() > 0,
        r[0] == '\n',
        0 <= s.pos < a.len(),
        !(scan_step(a, s).1 is Error),
    ensures
        scan_step(a + r, s) == scan_step(a, s),
{
    let src = a + r;
    let start = s.pos;
    let next = start + 1;
    assert(src[start] == a[start]);
    assert(src[a.len() as int] == r[0]);
    if next < a.len() {
        assert(src[next] == a[next]);
    }
    lemma_digits_prefix(a, r, next);
    lemma_word_prefix(a, r, next);
    lemma_digits_end(a, next);
    lemma_word_end(a, next);
    if next < a.len() {
        lemma_comment_prefix(a, r, next + 1);
    }
    let e = digits_end(a, next);
    if e + 1 <= a.len() {
        lemma_digits_prefix(a, r, e + 1);
        if e + 1 < a.len() {
            assert(src[e + 1] == a[e + 1]);
        }
        if e < a.len() {
            assert(src[e] == a[e]);
        }
    }
    lemma_string_scan_bounds(a, next, s.line, s.column + 1);
    if a[start] == '"' && string_scan(a, next, s.line, s.column + 1).0 < a.len() {
        lemma_string_prefix(a, r, next, s.line, s.column + 1);
    }
    lemma_step_progress(a, s);
    assert forall|x: int, y: int| 0 <= x <= y <= a.len() implies src.subrange(x, y) == a.subrange(x, y) by {
        assert(src.subrange(x, y) =~= a.subrange(x, y));
    }
}

proof fn lemma_digits_shift(p: Seq<char>, b: Seq<char>, j: int)
    requires
        0 <= j <= b.len(),
    ensures
        digits_end(p + b, p.len() + j) == p.len() + digits_end(b, j),
    decreases b.len() - j,
{
    if j < b.len() {
        assert((p + b)[p.len() + j] == b[j]);
        if is_digit_char(b[j]) {
            lemma_digits_shift(p, b, j + 1);
        }
    }
}

proof fn lemma_word_shift(p: Seq<char>, b: Seq<char>, j: int)
    requires
        0 <= j <= b.len(),
    ensures
        word_end(p + b, p.len() + j) == p.len() + word_end(b, j),
    decreases b.len() - j,
{
    if j < b.len() {
        assert((p + b)[p.len() + j] == b[j]);
        if is_alphanumeric_char(b[j]) {
            lemma_word_shift(p, b, j + 1);
        }
    }
}

proof fn lemma_comment_shift(p: Seq<char>, b: Seq<char>, j: int)
    requires
        0 <= j <= b.len(),
    ensures
        comment_end(p + b, p.len() + j) == p.len() + comment_end(b, j),
    decreases b.len() - j,
{
    if j < b.len() {
        assert((p + b)[p.len() + j] == b[j]);
        if b[j] != '\n' {
            lemma_comment_shift(p, b, j + 1);
        }
    }
}

proof fn lemma_string_shift(p: Seq<char>, b: Seq<char>, j: int, l1: int, c1: int, l2: int, c2: int)
    requires
        0 <= j <= b.len(),
    ensures
        string_scan(p + b, p.len() + j, l1, c1).0 == p.len() + string_scan(b, j, l2, c2).0,
    decreases b.len() - j,
{
    if j < b.len() {
        assert((p + b)[p.len() + j] == b[j]);
        if b[j] != '"' {
            if b[j] == '\n' {
                lemma_string_shift(p, b, j + 1, l1 + 1, 0, l2 + 1, 0);
            } else {
                lemma_string_shift(p, b, j + 1, l1, c1 + 1, l2, c2 + 1);
            }
        }
    }
}

/// A step in a text placed after some other text yields alike and moves as
/// far as in the text alone, whatever the lines and columns.
proof fn lemma_step_shift(p: Seq<char>, b: Seq<char>, s1: ScanState, s2: ScanState)
    requires
        0 <= s2.pos < b.len(),
        s1.pos == p.len() + s2.pos,
    ensures
        scan_step(p + b, s1).0.pos == p.len() + scan_step(b, s2).0.pos,
        lexed_alike(scan_step(p + b, s1).1, scan_step(b, s2).1),
{
    let src = p + b;
    let n = p.len() as int;
    let j = s2.pos;
    assert(src[n + j] == b[j]);
    if j + 1 < b.len() {
        assert(src[n + j + 1] == b[j + 1]);
    }
    lemma_digits_shift(p, b, j + 1);
    lemma_word_shift(p, b, j + 1);
    lemma_digits_end(b, j + 1);
    if j + 1 < b.len() {
        lemma_comment_shift(p, b, j + 2);
    }
    let e = digits_end(b, j + 1);
    if e + 1 <= b.len() {
        lemma_digits_shift(p, b, e + 1);
        if e < b.len() {
            assert(src[n + e] == b[e]);
        }
        if e + 1 < b.len() {
            assert(src[n + e + 1] == b[e + 1]);
        }
    }
    lemma_string_shift(p, b, j + 1, s1.line, s1.column + 1, s2.line, s2.column + 1);
    lemma_string_scan_bounds(b, j + 1, s2.line, s2.column + 1);
    lemma_word_end(b, j + 1);
    if j + 1 < b.len() {
        lemma_comment_end(b, j + 2);
    }
    if e + 1 <= b.len() {
        lemma_digits_end(b, e + 1);
    }
    lemma_step_progress(b, s2);
    assert forall|x: int, y: int| 0 <= x <= y <= b.len() implies src.subrange(n + x, n + y) == b.subrange(x, y) by {
        assert(src.subrange(n + x, n + y) =~= b.subrange(x, y));
    }
    let c = b[j];
    if is_digit_char(c) {
        assert(number_end(src, n + j) == n + number_end(b, j));
    }
}

/// Scanning a text followed by a newline and more: as long as the text alone
/// scans without errors, its tokens come first, and the scan then stands at
/// the newline.
proof fn lemma_scan_prefix(a: Seq<char>, r: Seq<char>, s: ScanState)
    requires
        r.len() > 0,
        r[0] == '\n',
        0 <= s.pos <= a.len(),
        scan_from(a, s).errors.len() == 0,
    ensures
        scan_from(a, s).end.pos == a.len(),
        scan_from(a + r, s).tokens == scan_from(a, s).tokens + scan_from(a + r, scan_from(a, s).end).tokens,
        scan_from(a + r, s).errors == scan_from(a + r, scan_from(a, s).end).errors,
        scan_from(a + r, s).end == scan_from(a + r, scan_from(a, s).end).end,
    decreases a.len() - s.pos,
{
    let ra = scan_from(a, s);
    if s.pos < a.len() {
        let (s2, lexed) = scan_step(a, s);
        lemma_step_progress(a, s);
        if lexed is Error {
            assert(ra.errors.len() > 0);
        }
        lemma_step_prefix(a, r, s);
        lemma_scan_prefix(a, r, s2);
        let rest = scan_from(a, s2);
        if let Lexed::Token(t) = lexed {
            assert(seq![t] + rest.tokens + scan_from(a + r, rest.end).tokens
                =~= seq![t] + (rest.tokens + scan_from(a + r, rest.end).tokens));
        }
    } else {
        assert(ra.tokens + scan_from(a + r, s).tokens =~= scan_from(a + r, s).tokens);
    }
}

proof fn lemma_kinds_lexemes_prepend(t: TokenView, ts: Seq<TokenView>)
    ensures
        kinds_lexemes(seq![t] + ts) == seq![kind_lexeme(t)] + kinds_lexemes(ts),
{
    assert(kinds_lexemes(seq![t] + ts) =~= seq![kind_lexeme(t)] + kinds_lexemes(ts));
}

/// Scanning a text placed after another from where it starts yields tokens
/// of the same kinds and texts, and as many errors, as scanning it alone.
proof fn lemma_scan_shift(p: Seq<char>, b: Seq<char>, s1: ScanState, s2: ScanState)
    requires
        0 <= s2.pos <= b.len(),
        s1.pos == p.len() + s2.pos,
    ensures
        kinds_lexemes(scan_from(p + b, s1).tokens) == kinds_lexemes(scan_from(b, s2).tokens),
        scan_from(p + b, s1).errors.len() == scan_from(b, s2).errors.len(),
    decreases b.len() - s2.pos,
{
    if s2.pos < b.len() {
        let (t1, l1) = scan_step(p + b, s1);
        let (t2, l2) = scan_step(b, s2);
        lemma_step_shift(p, b, s1, s2);
        lemma_step_progress(b, s2);
        lemma_scan_shift(p, b, t1, t2);
        let r1 = scan_from(p + b, t1);
        let r2 = scan_from(b, t2);
        match (l1, l2) {
            (Lexed::Token(x), Lexed::Token(y)) => {
                lemma_kinds_lexemes_prepend(x, r1.tokens);
                lemma_kinds_lexemes_prepend(y, r2.tokens);
            },
            _ => {},
        }
    } else {
        assert(kinds_lexemes(Seq::<TokenView>::empty()) =~= Seq::<(TokenKind, Seq<char>)>::empty());
    }
}

/// Joining two texts that scan without errors by a newline neither merges,
/// splits nor drops tokens: the joined text scans without errors, to the
/// tokens of the first text (without its end-of-file token) followed by the
/// tokens of the second, kind for kind and text for text.
pub proof fn lemma_scan_joined(a: Seq<char>, b: Seq<char>)
    requires
        source_errors(a).len() == 0,
        source_errors(b).len() == 0,
    ensures
        source_errors(a + seq!['\n'] + b).len() == 0,
        kinds_lexemes(source_tokens(a + seq!['\n'] + b))
            == kinds_lexemes(source_tokens(a).drop_last()) + kinds_lexemes(source_tokens(b)),
{
    let r = seq!['\n'] + b;
    let src = a + r;
    assert(a + seq!['\n'] + b =~= src);
    let init = initial_state();
    let ra = scan_from(a, init);
    lemma_scan_prefix(a, r, init);
    let mid = ra.end;
    assert(src[a.len() as int] == '\n');
    lemma_step_progress(src, mid);
    let s3 = ScanState { pos: a.len() + 1int, line: mid.line + 1, column: 0 };
    assert(scan_step(src, mid).0 == s3);
    assert(scan_from(src, mid) == scan_from(src, s3));
    let p = a + seq!['\n'];
    assert(src =~= p + b);
    lemma_scan_shift(p, b, s3, init);
    let rb = scan_from(b, init);
    let rs = scan_from(src, s3);
    // whole tokens of the joined text
    let eof_j = eof_token(rs.end);
    let eof_b = eof_token(rb.end);
    assert(source_tokens(src) == (ra.tokens + rs.tokens).push(eof_j));
    assert(source_tokens(a).drop_last() =~= ra.tokens);
    assert(kinds_lexemes((ra.tokens + rs.tokens).push(eof_j))
        =~= kinds_lexemes(ra.tokens) + kinds_lexemes(rs.tokens).push(kind_lexeme(eof_j)));
    assert(kinds_lexemes(rb.tokens.push(eof_b)) =~= kinds_lexemes(rb.tokens).push(kind_lexeme(eof_b)));
    assert(kind_lexeme(eof_j) == kind_lexeme(eof_b));
    assert(kinds_lexemes(ra.tokens) + kinds_lexemes(rs.tokens).push(kind_lexeme(eof_j))
        =~= kinds_lexemes(ra.tokens) + kinds_lexemes(rb.tokens).push(kind_lexeme(eof_b)));
}

} // verus!
