use vstd::prelude::*;

use crate::ast::{BinaryOp, ExprView, LiteralView, UnaryOp};
use crate::parser::{
    Parsed, binary_op_at, parse_level, parse_primary, parse_rest, parse_tokens,
    parse_unary, unary_op_of, equality_level, parseable, strings_quoted,
};
use crate::token::{TokenKind, TokenView, unquoted};

verus! {

// What the parser's results are, stated without the parser: every result is
// a well-formed tree whose tokens are the tokens it was parsed from, and every
// well-formed tree is what the parser returns for its tokens.

/// What of a token an expression tree keeps: its kind, a literal's text (a
/// string's without the quotes), and an operator's line.
pub struct TokenSig {
    pub kind: TokenKind,
    pub text: Seq<char>,
    pub line: nat,
}

/// The token kinds that stand for operators.
pub open spec fn is_operator_kind(k: TokenKind) -> bool {
    ||| unary_op_of(k) is Some
    ||| binary_op_at(1, k) is Some
    ||| binary_op_at(2, k) is Some
    ||| binary_op_at(3, k) is Some
    ||| binary_op_at(4, k) is Some
}

/// What an expression tree keeps of the token `t`.
pub open spec fn token_sig(t: TokenView) -> TokenSig {
    TokenSig {
        kind: t.kind,
        text: if t.kind == TokenKind::Number {
            t.lexeme
        } else if t.kind == TokenKind::Str {
            unquoted(t.lexeme)
        } else {
            Seq::empty()
        },
        line: if is_operator_kind(t.kind) { t.line } else { 0 },
    }
}

/// What an expression tree keeps of the tokens `ts[i..j]`.
pub open spec fn sigs(ts: Seq<TokenView>, i: int, j: int) -> Seq<TokenSig> {
    Seq::new((j - i) as nat, |k: int| token_sig(ts[i + k]))
}

/// The token kind of a unary operator.
pub open spec fn unary_op_kind(op: UnaryOp) -> TokenKind {
    match op {
        UnaryOp::Not => TokenKind::Bang,
        UnaryOp::Negate => TokenKind::Minus,
    }
}

/// The token kind of a binary operator.
pub open spec fn binary_op_kind(op: BinaryOp) -> TokenKind {
    match op {
        BinaryOp::Equal => TokenKind::EqualEqual,
        BinaryOp::NotEqual => TokenKind::BangEqual,
        BinaryOp::Less => TokenKind::Less,
        BinaryOp::LessEqual => TokenKind::LessEqual,
        BinaryOp::Greater => TokenKind::Greater,
        BinaryOp::GreaterEqual => TokenKind::GreaterEqual,
        BinaryOp::Add => TokenKind::Plus,
        BinaryOp::Subtract => TokenKind::Minus,
        BinaryOp::Multiply => TokenKind::Star,
        BinaryOp::Divide => TokenKind::Slash,
    }
}

/// The precedence level of a binary operator: 1 binds tightest (`*`, `/`),
/// then 2 (`+`, `-`), 3 (comparisons), 4 (equality).
pub open spec fn binary_op_level(op: BinaryOp) -> nat {
    match op {
        BinaryOp::Multiply | BinaryOp::Divide => 1,
        BinaryOp::Add | BinaryOp::Subtract => 2,
        BinaryOp::Less | BinaryOp::LessEqual | BinaryOp::Greater | BinaryOp::GreaterEqual => 3,
        BinaryOp::Equal | BinaryOp::NotEqual => 4,
    }
}

/// How tightly the binary operators bind: `*` and `/` tightest, then `+` and
/// `-`, then the comparisons `<`, `<=`, `>`, `>=`, and `==` and `!=` loosest.
pub proof fn lemma_operator_levels()
    ensures
        binary_op_level(BinaryOp::Multiply) == 1,
        binary_op_level(BinaryOp::Divide) == 1,
        binary_op_level(BinaryOp::Add) == 2,
        binary_op_level(BinaryOp::Subtract) == 2,
        binary_op_level(BinaryOp::Less) == 3,
        binary_op_level(BinaryOp::LessEqual) == 3,
        binary_op_level(BinaryOp::Greater) == 3,
        binary_op_level(BinaryOp::GreaterEqual) == 3,
        binary_op_level(BinaryOp::Equal) == 4,
        binary_op_level(BinaryOp::NotEqual) == 4,
{
}

/// The tokens of an expression tree, written back out: groups in
/// parentheses, operators between (binary) or before (unary) their operands.
pub open spec fn expr_tokens(e: ExprView) -> Seq<TokenSig>
    decreases e,
{
    match e {
        ExprView::Literal(v) => match v {
            LiteralView::Number(s) => seq![TokenSig { kind: TokenKind::Number, text: s, line: 0 }],
            LiteralView::Str(s) => seq![TokenSig { kind: TokenKind::Str, text: s, line: 0 }],
            LiteralView::True => seq![TokenSig { kind: TokenKind::True, text: Seq::empty(), line: 0 }],
            LiteralView::False => seq![TokenSig { kind: TokenKind::False, text: Seq::empty(), line: 0 }],
            LiteralView::Nil => seq![TokenSig { kind: TokenKind::Nil, text: Seq::empty(), line: 0 }],
        },
        ExprView::Unary { operator, operator_line, operand } =>
            seq![TokenSig { kind: unary_op_kind(operator), text: Seq::empty(), line: operator_line }]
                + expr_tokens(*operand),
        ExprView::Binary { left, operator, operator_line, right } =>
            expr_tokens(*left)
                + seq![TokenSig { kind: binary_op_kind(operator), text: Seq::empty(), line: operator_line }]
                + expr_tokens(*right),
        ExprView::Grouping(inner) =>
            seq![TokenSig { kind: TokenKind::LeftParen, text: Seq::empty(), line: 0 }]
                + expr_tokens(*inner)
                + seq![TokenSig { kind: TokenKind::RightParen, text: Seq::empty(), line: 0 }],
    }
}

/// How loosely an expression binds: 0 for literals, groups and unary
/// expressions, the operator's level for a binary expression.
pub open spec fn expr_rank(e: ExprView) -> nat {
    match e {
        ExprView::Binary { operator, .. } => binary_op_level(operator),
        _ => 0,
    }
}

/// The tree respects precedence and left associativity: a unary operand binds
/// at least as tightly as a unary expression, a binary operator's left operand
/// binds no more loosely than the operator and its right operand strictly
/// more tightly.
pub open spec fn well_formed(e: ExprView) -> bool
    decreases e,
{
    match e {
        ExprView::Literal(_) => true,
        ExprView::Unary { operand, .. } => expr_rank(*operand) == 0 && well_formed(*operand),
        ExprView::Binary { left, operator, right, .. } => {
            &&& expr_rank(*left) <= binary_op_level(operator)
            &&& expr_rank(*right) < binary_op_level(operator)
            &&& well_formed(*left)
            &&& well_formed(*right)
        },
        ExprView::Grouping(inner) => expr_rank(*inner) <= 4 && well_formed(*inner),
    }
}

/// The token kind `k` does not continue an expression of `level`: it is no
/// binary operator of that level or a tighter one.
pub open spec fn stops(level: nat, k: TokenKind) -> bool {
    forall|l: nat| 1 <= l <= level ==> #[trigger] binary_op_at(l, k) is None
}

/// There is an end-of-file token, and none before `pos`.
pub open spec fn open_at(ts: Seq<TokenView>, pos: int) -> bool {
    &&& 0 <= pos
    &&& exists|k: int| pos <= k < ts.len() && ts[k].kind == TokenKind::Eof
    &&& forall|j: int| 0 <= j < pos ==> ts[j].kind != TokenKind::Eof
}

/// What a rule's successful result satisfies, for a rule of `level` that
/// started at `pos` and yields `e` ending at `q`.
pub open spec fn sound_result(ts: Seq<TokenView>, pos: int, level: nat, e: ExprView, q: int) -> bool {
    &&& pos < q
    &&& open_at(ts, q)
    &&& expr_tokens(e) == sigs(ts, pos, q)
    &&& well_formed(e)
    &&& expr_rank(e) <= level
    &&& stops(level, ts[q].kind)
}

proof fn lemma_open_step(ts: Seq<TokenView>, pos: int)
    requires
        open_at(ts, pos),
        ts[pos].kind != TokenKind::Eof,
    ensures
        open_at(ts, pos + 1),
        pos + 1 < ts.len(),
{
    let k = choose|k: int| pos <= k < ts.len() && ts[k].kind == TokenKind::Eof;
    assert(pos + 1 <= k < ts.len() && ts[k].kind == TokenKind::Eof);
    assert forall|j: int| 0 <= j < pos + 1 implies ts[j].kind != TokenKind::Eof by {
        if j < pos {
        }
    }
}

proof fn lemma_open_in_range(ts: Seq<TokenView>, pos: int)
    requires
        open_at(ts, pos),
    ensures
        pos < ts.len(),
{
    let k = choose|k: int| pos <= k < ts.len() && ts[k].kind == TokenKind::Eof;
}

proof fn lemma_sigs_concat(ts: Seq<TokenView>, a: int, b: int, c: int)
    requires
        a <= b <= c,
    ensures
        sigs(ts, a, b) + sigs(ts, b, c) == sigs(ts, a, c),
{
    assert(sigs(ts, a, b) + sigs(ts, b, c) =~= sigs(ts, a, c));
}

proof fn lemma_sigs_one(ts: Seq<TokenView>, a: int)
    ensures
        sigs(ts, a, a + 1) == seq![token_sig(ts[a])],
{
    assert(sigs(ts, a, a + 1) =~= seq![token_sig(ts[a])]);
}

proof fn lemma_binary_op_kind(level: nat, k: TokenKind)
    requires
        binary_op_at(level, k) is Some,
    ensures
        binary_op_kind(binary_op_at(level, k)->0) == k,
        binary_op_level(binary_op_at(level, k)->0) == level,
        is_operator_kind(k),
{
}

proof fn lemma_unary_op_kind(k: TokenKind)
    requires
        unary_op_of(k) is Some,
    ensures
        unary_op_kind(unary_op_of(k)->0) == k,
        is_operator_kind(k),
{
}

proof fn lemma_sound_primary(ts: Seq<TokenView>, pos: int)
    requires
        open_at(ts, pos),
        strings_quoted(ts),
    ensures
        !(parse_primary(ts, pos) is Stuck),
        parse_primary(ts, pos) matches Parsed::Done(e, q) ==> sound_result(ts, pos, 0, e, q),
    decreases ts.len() - pos, 0int,
{
    lemma_open_in_range(ts, pos);
    let t = ts[pos];
    if t.kind != TokenKind::Eof {
        lemma_open_step(ts, pos);
        lemma_sigs_one(ts, pos);
    }
    if t.kind == TokenKind::LeftParen {
        lemma_sound_level(ts, pos + 1, equality_level());
        if let Parsed::Done(inner, q) = parse_level(ts, pos + 1, equality_level()) {
            lemma_open_in_range(ts, q);
            if ts[q].kind == TokenKind::RightParen {
                lemma_open_step(ts, q);
                lemma_sigs_one(ts, q);
                lemma_sigs_concat(ts, pos, pos + 1, q);
                lemma_sigs_concat(ts, pos, q, q + 1);
            }
        }
    }
}

proof fn lemma_sound_unary(ts: Seq<TokenView>, pos: int)
    requires
        open_at(ts, pos),
        strings_quoted(ts),
    ensures
        !(parse_unary(ts, pos) is Stuck),
        parse_unary(ts, pos) matches Parsed::Done(e, q) ==> sound_result(ts, pos, 0, e, q),
    decreases ts.len() - pos, 1int,
{
    lemma_open_in_range(ts, pos);
    if unary_op_of(ts[pos].kind) is Some {
        lemma_open_step(ts, pos);
        lemma_sigs_one(ts, pos);
        lemma_unary_op_kind(ts[pos].kind);
        lemma_sound_unary(ts, pos + 1);
        if let Parsed::Done(operand, q) = parse_unary(ts, pos + 1) {
            lemma_sigs_concat(ts, pos, pos + 1, q);
        }
    } else {
        lemma_sound_primary(ts, pos);
    }
}

proof fn lemma_sound_level(ts: Seq<TokenView>, pos: int, level: nat)
    requires
        open_at(ts, pos),
        strings_quoted(ts),
    ensures
        !(parse_level(ts, pos, level) is Stuck),
        parse_level(ts, pos, level) matches Parsed::Done(e, q) ==> sound_result(ts, pos, level, e, q),
    decreases ts.len() - pos, level + 2,
{
    if level == 0 {
        lemma_sound_unary(ts, pos);
    } else {
        lemma_sound_level(ts, pos, (level - 1) as nat);
        if let Parsed::Done(left, q) = parse_level(ts, pos, (level - 1) as nat) {
            lemma_open_in_range(ts, q);
            lemma_sound_rest(ts, q, level, left, pos);
        }
    }
}

proof fn lemma_sound_rest(ts: Seq<TokenView>, pos: int, level: nat, left: ExprView, start: int)
    requires
        open_at(ts, pos),
        strings_quoted(ts),
        level >= 1,
        start < pos,
        well_formed(left),
        expr_rank(left) <= level,
        expr_tokens(left) == sigs(ts, start, pos),
        stops((level - 1) as nat, ts[pos].kind),
    ensures
        !(parse_rest(ts, pos, level, left) is Stuck),
        parse_rest(ts, pos, level, left) matches Parsed::Done(e, q) ==> {
            &&& pos <= q
            &&& sound_result(ts, start, level, e, q)
        },
    decreases ts.len() - pos, 0int,
{
    lemma_open_in_range(ts, pos);
    let k = ts[pos].kind;
    if binary_op_at(level, k) is Some {
        lemma_binary_op_kind(level, k);
        lemma_open_step(ts, pos);
        lemma_sigs_one(ts, pos);
        lemma_sound_level(ts, pos + 1, (level - 1) as nat);
        if let Parsed::Done(right, q) = parse_level(ts, pos + 1, (level - 1) as nat) {
            lemma_open_in_range(ts, q);
            let e = ExprView::Binary {
                left: Box::new(left),
                operator: binary_op_at(level, k)->0,
                operator_line: ts[pos].line,
                right: Box::new(right),
            };
            lemma_sigs_concat(ts, start, pos, pos + 1);
            lemma_sigs_concat(ts, start, pos + 1, q);
            assert(expr_tokens(e) == sigs(ts, start, q));
            lemma_sound_rest(ts, q, level, e, start);
        }
    } else {
        assert forall|l: nat| 1 <= l <= level implies #[trigger] binary_op_at(l, k) is None by {
            if l < level {
                assert(binary_op_at(l, k) is None);
            }
        }
    }
}

/// The number of nodes of an expression tree.
pub open spec fn expr_size(e: ExprView) -> nat
    decreases e,
{
    match e {
        ExprView::Literal(_) => 1,
        ExprView::Unary { operand, .. } => 1 + expr_size(*operand),
        ExprView::Binary { left, right, .. } => 1 + expr_size(*left) + expr_size(*right),
        ExprView::Grouping(inner) => 1 + expr_size(*inner),
    }
}

/// The innermost left operand of the chain of `level` operators at the top
/// of `e` (`e` itself when its top is no such operator).
pub open spec fn chain_base(e: ExprView, level: nat) -> ExprView
    decreases e,
{
    match e {
        ExprView::Binary { left, operator, .. } => if binary_op_level(operator) == level {
            chain_base(*left, level)
        } else {
            e
        },
        _ => e,
    }
}

proof fn lemma_binary_op_at_kind(op: BinaryOp, l: nat)
    ensures
        binary_op_at(l, binary_op_kind(op)) == (if l == binary_op_level(op) { Some(op) } else { None::<BinaryOp> }),
        unary_op_of(binary_op_kind(op)) is Some ==> op == BinaryOp::Subtract,
{
}

proof fn lemma_tokens_nonempty(e: ExprView)
    ensures
        expr_tokens(e).len() >= 1,
    decreases e,
{
    if let ExprView::Binary { left, .. } = e {
        lemma_tokens_nonempty(*left);
    }
}

proof fn lemma_chain_base(e: ExprView, level: nat)
    requires
        level >= 1,
        well_formed(e),
        expr_rank(e) <= level,
    ensures
        ({
            let b = chain_base(e, level);
            &&& well_formed(b)
            &&& expr_rank(b) < level
            &&& expr_size(b) <= expr_size(e)
            &&& expr_tokens(b).len() <= expr_tokens(e).len()
            &&& expr_tokens(b) == expr_tokens(e).subrange(0, expr_tokens(b).len() as int)
            &&& b != e ==> {
                &&& expr_tokens(b).len() < expr_tokens(e).len()
                &&& binary_op_at(level, expr_tokens(e)[expr_tokens(b).len() as int].kind) is Some
            }
        }),
    decreases e,
{
    match e {
        ExprView::Binary { left, operator, right, operator_line } => {
            if binary_op_level(operator) == level {
                lemma_chain_base(*left, level);
                lemma_binary_op_at_kind(operator, level);
                let b = chain_base(*left, level);
                let tl = expr_tokens(*left);
                let te = expr_tokens(e);
                assert(te == tl + seq![TokenSig { kind: binary_op_kind(operator), text: Seq::empty(), line: operator_line }] + expr_tokens(*right));
                assert(te.subrange(0, tl.len() as int) =~= tl);
                assert(tl.subrange(0, expr_tokens(b).len() as int) =~= te.subrange(0, expr_tokens(b).len() as int));
                if b == *left {
                    assert(te[tl.len() as int].kind == binary_op_kind(operator));
                } else {
                    assert(te[expr_tokens(b).len() as int] == tl[expr_tokens(b).len() as int]);
                }
            } else {
                assert(expr_tokens(e).subrange(0, expr_tokens(e).len() as int) =~= expr_tokens(e));
            }
        },
        _ => {
            assert(expr_tokens(e).subrange(0, expr_tokens(e).len() as int) =~= expr_tokens(e));
        },
    }
}

proof fn lemma_sigs_split(ts: Seq<TokenView>, a: int, b: int, c: int, x: Seq<TokenSig>, y: Seq<TokenSig>)
    requires
        a <= b <= c,
        x.len() == b - a,
        sigs(ts, a, c) == x + y,
    ensures
        sigs(ts, a, b) == x,
        sigs(ts, b, c) == y,
{
    lemma_sigs_concat(ts, a, b, c);
    assert(sigs(ts, a, b) =~= (x + y).subrange(0, b - a));
    assert(x =~= (x + y).subrange(0, b - a));
    assert((x + y).len() == c - a);
    assert(y.len() == c - b);
    assert forall|i: int| 0 <= i < c - b implies sigs(ts, b, c)[i] == y[i] by {
        assert(sigs(ts, b, c)[i] == sigs(ts, a, c)[b - a + i]);
        assert((x + y)[b - a + i] == y[i]);
    }
    assert(sigs(ts, b, c) =~= y);
}

proof fn lemma_sig_one(ts: Seq<TokenView>, a: int, s: TokenSig)
    requires
        sigs(ts, a, a + 1) == seq![s],
    ensures
        token_sig(ts[a]) == s,
{
    lemma_sigs_one(ts, a);
    assert(seq![token_sig(ts[a])][0] == seq![s][0]);
}

/// Every well-formed tree of rank at most `level` is what the rule of
/// `level` yields on its own tokens, when the token after them does not
/// continue the rule.
proof fn lemma_complete_level(ts: Seq<TokenView>, pos: int, level: nat, e: ExprView)
    requires
        strings_quoted(ts),
        forall|j: int| 0 <= j < pos ==> ts[j].kind != TokenKind::Eof,
        0 <= pos,
        pos + expr_tokens(e).len() < ts.len(),
        well_formed(e),
        expr_rank(e) <= level,
        sigs(ts, pos, pos + expr_tokens(e).len()) == expr_tokens(e),
        stops(level, ts[pos + expr_tokens(e).len()].kind),
    ensures
        parse_level(ts, pos, level) == Parsed::Done(e, pos + expr_tokens(e).len()),
    decreases expr_size(e), level, 1int,
{
    let n = expr_tokens(e).len() as int;
    lemma_tokens_nonempty(e);
    if level == 0 {
        assert(parse_level(ts, pos, 0) == parse_unary(ts, pos));
        match e {
            ExprView::Literal(v) => {
                assert(expr_tokens(e) =~= seq![expr_tokens(e)[0]]);
                lemma_sig_one(ts, pos, expr_tokens(e)[0]);
                assert(unary_op_of(ts[pos].kind) is None);
                assert(parse_primary(ts, pos) == Parsed::Done(e, pos + 1));
            },
            ExprView::Unary { operator, operator_line, operand } => {
                let s0 = TokenSig { kind: unary_op_kind(operator), text: Seq::empty(), line: operator_line };
                lemma_sigs_split(ts, pos, pos + 1, pos + n, seq![s0], expr_tokens(*operand));
                lemma_sig_one(ts, pos, s0);
                lemma_no_eof_in(ts, pos, e);
                lemma_complete_level(ts, pos + 1, 0, *operand);
                assert(parse_level(ts, pos + 1, 0) == parse_unary(ts, pos + 1));
            },
            ExprView::Grouping(inner) => {
                let open = TokenSig { kind: TokenKind::LeftParen, text: Seq::empty(), line: 0 };
                let close = TokenSig { kind: TokenKind::RightParen, text: Seq::empty(), line: 0 };
                let ti = expr_tokens(*inner);
                assert(expr_tokens(e) =~= seq![open] + (ti + seq![close]));
                lemma_sigs_split(ts, pos, pos + 1, pos + n, seq![open], ti + seq![close]);
                lemma_sigs_split(ts, pos + 1, pos + 1 + ti.len(), pos + n, ti, seq![close]);
                lemma_sig_one(ts, pos, open);
                lemma_sig_one(ts, pos + n - 1, close);
                lemma_no_eof_in(ts, pos, e);
                lemma_complete_level(ts, pos + 1, equality_level(), *inner);
                assert(parse_primary(ts, pos) == Parsed::Done(e, pos + n));
            },
            ExprView::Binary { operator, .. } => {
                assert(expr_rank(e) >= 1);
            },
        }
    } else {
        let b = chain_base(e, level);
        lemma_chain_base(e, level);
        let nb = expr_tokens(b).len() as int;
        lemma_tokens_nonempty(b);
        assert(expr_tokens(e) =~= expr_tokens(b) + expr_tokens(e).subrange(nb, n));
        lemma_sigs_split(ts, pos, pos + nb, pos + n, expr_tokens(b), expr_tokens(e).subrange(nb, n));
        if b != e {
            let k = ts[pos + nb].kind;
            assert(sigs(ts, pos, pos + n)[nb] == token_sig(ts[pos + nb]));
            assert(binary_op_at(level, k) is Some);
            assert forall|l: nat| 1 <= l <= (level - 1) as nat implies #[trigger] binary_op_at(l, k) is None by {
                lemma_binary_op_at_kind(binary_op_at(level, k)->0, l);
                lemma_binary_op_kind(level, k);
            }
        } else {
            assert forall|l: nat| 1 <= l <= (level - 1) as nat implies #[trigger] binary_op_at(l, ts[pos + n].kind) is None by {
                assert(binary_op_at(l, ts[pos + n].kind) is None);
            }
        }
        lemma_complete_level(ts, pos, (level - 1) as nat, b);
        assert forall|l: nat| 1 <= l <= (level - 1) as nat implies #[trigger] binary_op_at(l, ts[pos + n].kind) is None by {
            assert(binary_op_at(l, ts[pos + n].kind) is None);
        }
        lemma_complete_rest(ts, pos, level, e);
        assert(binary_op_at(level, ts[pos + n].kind) is None);
    }
}

/// Along the chain of `level` operators at the top of `e`, the repetition
/// that starts after the chain's base reaches `e` itself.
proof fn lemma_complete_rest(ts: Seq<TokenView>, pos: int, level: nat, e: ExprView)
    requires
        strings_quoted(ts),
        forall|j: int| 0 <= j < pos ==> ts[j].kind != TokenKind::Eof,
        level >= 1,
        0 <= pos,
        pos + expr_tokens(e).len() < ts.len(),
        well_formed(e),
        expr_rank(e) <= level,
        sigs(ts, pos, pos + expr_tokens(e).len()) == expr_tokens(e),
        stops((level - 1) as nat, ts[pos + expr_tokens(e).len()].kind),
    ensures
        parse_rest(ts, pos + expr_tokens(chain_base(e, level)).len(), level, chain_base(e, level))
            == parse_rest(ts, pos + expr_tokens(e).len(), level, e),
    decreases expr_size(e), level, 0int,
{
    match e {
        ExprView::Binary { left, operator, operator_line, right } => {
            if binary_op_level(operator) == level {
                let tl = expr_tokens(*left);
                let tr = expr_tokens(*right);
                let n = expr_tokens(e).len() as int;
                let p = pos + tl.len();
                let sop = TokenSig { kind: binary_op_kind(operator), text: Seq::empty(), line: operator_line };
                lemma_tokens_nonempty(*left);
                lemma_tokens_nonempty(*right);
                assert(expr_tokens(e) =~= tl + (seq![sop] + tr));
                lemma_sigs_split(ts, pos, p, pos + n, tl, seq![sop] + tr);
                lemma_sigs_split(ts, p, p + 1, pos + n, seq![sop], tr);
                lemma_sig_one(ts, p, sop);
                lemma_binary_op_at_kind(operator, level);
                assert forall|l: nat| 1 <= l <= (level - 1) as nat implies #[trigger] binary_op_at(l, ts[p].kind) is None by {
                    lemma_binary_op_at_kind(operator, l);
                }
                lemma_complete_rest(ts, pos, level, *left);
                lemma_no_eof_in(ts, pos, e);
                lemma_complete_level(ts, p + 1, (level - 1) as nat, *right);
            }
        },
        _ => {},
    }
}

proof fn lemma_tokens_not_eof(e: ExprView)
    ensures
        forall|i: int| 0 <= i < expr_tokens(e).len() ==> (#[trigger] expr_tokens(e)[i]).kind != TokenKind::Eof,
    decreases e,
{
    match e {
        ExprView::Literal(_) => {},
        ExprView::Unary { operand, .. } => {
            lemma_tokens_not_eof(*operand);
        },
        ExprView::Binary { left, right, .. } => {
            lemma_tokens_not_eof(*left);
            lemma_tokens_not_eof(*right);
        },
        ExprView::Grouping(inner) => {
            lemma_tokens_not_eof(*inner);
        },
    }
}

/// The tokens of a tree hold no end-of-file token.
proof fn lemma_no_eof_in(ts: Seq<TokenView>, pos: int, e: ExprView)
    requires
        0 <= pos,
        sigs(ts, pos, pos + expr_tokens(e).len()) == expr_tokens(e),
    ensures
        forall|j: int| pos <= j < pos + expr_tokens(e).len() ==> ts[j].kind != TokenKind::Eof,
{
    lemma_tokens_not_eof(e);
    assert forall|j: int| pos <= j < pos + expr_tokens(e).len() implies ts[j].kind != TokenKind::Eof by {
        assert(sigs(ts, pos, pos + expr_tokens(e).len())[j - pos] == token_sig(ts[j]));
        assert(expr_tokens(e)[j - pos].kind != TokenKind::Eof);
    }
}

/// The tokens `ts` start with the tokens of the well-formed tree `e`, and the
/// token after them is no binary operator.
pub open spec fn starts_with_expr(ts: Seq<TokenView>, e: ExprView) -> bool {
    &&& expr_tokens(e).len() < ts.len()
    &&& well_formed(e)
    &&& sigs(ts, 0, expr_tokens(e).len() as int) == expr_tokens(e)
    &&& stops(equality_level(), ts[expr_tokens(e).len() as int].kind)
}

/// Completeness: a well-formed tree is what parsing its tokens yields, when
/// the token after them is no binary operator (and the strings before can
/// lose their quotes).
pub proof fn lemma_parse_complete(ts: Seq<TokenView>, e: ExprView)
    requires
        strings_quoted(ts),
        starts_with_expr(ts, e),
    ensures
        parse_tokens(ts) == Parsed::Done(e, expr_tokens(e).len() as int),
{
    assert(expr_rank(e) <= 4);
    lemma_complete_level(ts, 0, equality_level(), e);
}

/// Soundness: on tokens it can work on, parsing never gets stuck, and what
/// it yields is a well-formed tree whose tokens are a prefix of the input,
/// followed by a token that is no binary operator.
pub proof fn lemma_parse_sound(ts: Seq<TokenView>)
    requires
        parseable(ts),
    ensures
        !(parse_tokens(ts) is Stuck),
        parse_tokens(ts) matches Parsed::Done(e, n) ==> {
            &&& n == expr_tokens(e).len()
            &&& starts_with_expr(ts, e)
        },
{
    lemma_sound_level(ts, 0, equality_level());
    if let Parsed::Done(e, n) = parse_tokens(ts) {
        lemma_open_in_range(ts, n);
        lemma_tokens_len_sigs(ts, 0, n, e);
    }
}

/// Parsing succeeds exactly when the tokens start with a well-formed
/// expression, and then yields that expression; otherwise it reports an error.
pub proof fn lemma_parse_succeeds_iff(ts: Seq<TokenView>)
    requires
        parseable(ts),
    ensures
        parse_tokens(ts) is Done <==> exists|e: ExprView| starts_with_expr(ts, e),
        parse_tokens(ts) is Done || parse_tokens(ts) is Failed,
        forall|e: ExprView| #[trigger] starts_with_expr(ts, e)
            ==> parse_tokens(ts) == Parsed::Done(e, expr_tokens(e).len() as int),
{
    lemma_parse_sound(ts);
    if let Parsed::Done(e, n) = parse_tokens(ts) {
        assert(starts_with_expr(ts, e));
    }
    assert forall|e: ExprView| #[trigger] starts_with_expr(ts, e)
        implies parse_tokens(ts) == Parsed::Done(e, expr_tokens(e).len() as int) by {
        lemma_parse_complete(ts, e);
    }
}

proof fn lemma_tokens_len_sigs(ts: Seq<TokenView>, a: int, b: int, e: ExprView)
    requires
        a <= b,
        expr_tokens(e) == sigs(ts, a, b),
    ensures
        expr_tokens(e).len() == b - a,
{
}

} // verus!
