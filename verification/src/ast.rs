use vstd::prelude::*;

use crate::text::{number_text, push_number_text, chars_of, push_char};

verus! {

// The AST is a semantic representation: the parser validates structure at
// the boundary, operators use dedicated enums rather than tokens, literals
// hold their values, and grouping keeps only what it groups.

/// A unary operator.
#[derive(Clone, Copy, Debug, PartialEq, Eq, Structural)]
pub enum UnaryOp {
    Negate,  // -
    Not,  // !
}

/// A binary operator.
#[derive(Clone, Copy, Debug, PartialEq, Eq, Structural)]
pub enum BinaryOp {
    Equal,
    NotEqual,
    Less,
    LessEqual,
    Greater,
    GreaterEqual,
    Add,
    Subtract,
    Multiply,
    Divide,
}

/// A Lox literal value.
///
/// A number is held as the decimal text it was written with; a string as its
/// contents, without the quotes.
#[derive(Clone, Debug, PartialEq)]
pub enum LiteralValue {
    Number(String),
    Str(String),
    True,
    False,
    Nil,
}

/// A Lox expression tree node. Operators remember the line they were on,
/// which is all a runtime error message needs.
#[derive(Debug)]
#[allow(inconsistent_fields)]
pub enum Expr {
    Literal(LiteralValue),
    Unary { operator: UnaryOp, operator_line: usize, operand: Box<Expr> },
    Binary { left: Box<Expr>, operator: BinaryOp, operator_line: usize, right: Box<Expr> },
    Grouping(Box<Expr>),
}

/// The model of a literal value.
pub enum LiteralView {
    Number(Seq<char>),
    Str(Seq<char>),
    True,
    False,
    Nil,
}

/// The model of an expression tree.
#[allow(inconsistent_fields)]
pub enum ExprView {
    Literal(LiteralView),
    Unary { operator: UnaryOp, operator_line: nat, operand: Box<ExprView> },
    Binary { left: Box<ExprView>, operator: BinaryOp, operator_line: nat, right: Box<ExprView> },
    Grouping(Box<ExprView>),
}

impl View for LiteralValue {
    type V = LiteralView;

    open spec fn view(&self) -> LiteralView {
        match self {
            LiteralValue::Number(s) => LiteralView::Number(s@),
            LiteralValue::Str(s) => LiteralView::Str(s@),
            LiteralValue::True => LiteralView::True,
            LiteralValue::False => LiteralView::False,
            LiteralValue::Nil => LiteralView::Nil,
        }
    }
}

/// The model of an expression.
pub open spec fn expr_view(e: Expr) -> ExprView
    decreases e,
{
    match e {
        Expr::Literal(v) => ExprView::Literal(v@),
        Expr::Unary { operator, operator_line, operand } => ExprView::Unary {
            operator,
            operator_line: operator_line as nat,
            operand: Box::new(expr_view(*operand)),
        },
        Expr::Binary { left, operator, operator_line, right } => ExprView::Binary {
            left: Box::new(expr_view(*left)),
            operator,
            operator_line: operator_line as nat,
            right: Box::new(expr_view(*right)),
        },
        Expr::Grouping(inner) => ExprView::Grouping(Box::new(expr_view(*inner))),
    }
}

impl View for Expr {
    type V = ExprView;

    open spec fn view(&self) -> ExprView {
        expr_view(*self)
    }
}

/// How a unary operator is printed.
pub open spec fn unary_op_text(op: UnaryOp) -> Seq<char> {
    match op {
        UnaryOp::Negate => seq!['-'],
        UnaryOp::Not => seq!['!'],
    }
}

/// How a binary operator is printed.
pub open spec fn binary_op_text(op: BinaryOp) -> Seq<char> {
    match op {
        BinaryOp::Equal => seq!['=', '='],
        BinaryOp::NotEqual => seq!['!', '='],
        BinaryOp::Less => seq!['<'],
        BinaryOp::LessEqual => seq!['<', '='],
        BinaryOp::Greater => seq!['>'],
        BinaryOp::GreaterEqual => seq!['>', '='],
        BinaryOp::Add => seq!['+'],
        BinaryOp::Subtract => seq!['-'],
        BinaryOp::Multiply => seq!['*'],
        BinaryOp::Divide => seq!['/'],
    }
}

/// How a literal is printed: numbers always with a fractional part, strings
/// as their bare contents.
pub open spec fn literal_value_text(v: LiteralView) -> Seq<char> {
    match v {
        LiteralView::Number(lexeme) => number_text(lexeme),
        LiteralView::Str(s) => s,
        LiteralView::True => seq!['t', 'r', 'u', 'e'],
        LiteralView::False => seq!['f', 'a', 'l', 's', 'e'],
        LiteralView::Nil => seq!['n', 'i', 'l'],
    }
}

/// How an expression is printed: fully parenthesised prefix form, such as
/// `(* (- 123.0) (group 45.67))`.
pub open spec fn expr_text(e: ExprView) -> Seq<char>
    decreases e,
{
    match e {
        ExprView::Literal(v) => literal_value_text(v),
        ExprView::Unary { operator, operand, .. } =>
            seq!['('] + unary_op_text(operator) + seq![' '] + expr_text(*operand) + seq![')'],
        ExprView::Binary { left, operator, right, .. } =>
            seq!['('] + binary_op_text(operator) + seq![' '] + expr_text(*left) + seq![' ']
                + expr_text(*right) + seq![')'],
        ExprView::Grouping(inner) =>
            seq!['(', 'g', 'r', 'o', 'u', 'p', ' '] + expr_text(*inner) + seq![')'],
    }
}

/// Printing a tree: a grouping prints as `(group`, its inner expression and
/// `)`, whatever the inner expression is; a unary or binary expression prints
/// as its operator's symbol and its operands, in order, in parentheses; the
/// literals `true`, `false` and `nil` print as those words, and a string as its
/// contents.
pub proof fn lemma_expr_text_shape(e: ExprView, f: ExprView, line: nat, contents: Seq<char>)
    ensures
        expr_text(ExprView::Grouping(Box::new(e))) == "(group "@ + expr_text(e) + ")"@,
        expr_text(ExprView::Unary { operator: UnaryOp::Negate, operator_line: line, operand: Box::new(e) })
            == "(- "@ + expr_text(e) + ")"@,
        expr_text(ExprView::Unary { operator: UnaryOp::Not, operator_line: line, operand: Box::new(e) })
            == "(! "@ + expr_text(e) + ")"@,
        expr_text(ExprView::Binary { left: Box::new(e), operator: BinaryOp::Equal, operator_line: line, right: Box::new(f) })
            == "(== "@ + expr_text(e) + " "@ + expr_text(f) + ")"@,
        expr_text(ExprView::Binary { left: Box::new(e), operator: BinaryOp::NotEqual, operator_line: line, right: Box::new(f) })
            == "(!= "@ + expr_text(e) + " "@ + expr_text(f) + ")"@,
        expr_text(ExprView::Binary { left: Box::new(e), operator: BinaryOp::Less, operator_line: line, right: Box::new(f) })
            == "(< "@ + expr_text(e) + " "@ + expr_text(f) + ")"@,
        expr_text(ExprView::Binary { left: Box::new(e), operator: BinaryOp::LessEqual, operator_line: line, right: Box::new(f) })
            == "(<= "@ + expr_text(e) + " "@ + expr_text(f) + ")"@,
        expr_text(ExprView::Binary { left: Box::new(e), operator: BinaryOp::Greater, operator_line: line, right: Box::new(f) })
            == "(> "@ + expr_text(e) + " "@ + expr_text(f) + ")"@,
        expr_text(ExprView::Binary { left: Box::new(e), operator: BinaryOp::GreaterEqual, operator_line: line, right: Box::new(f) })
            == "(>= "@ + expr_text(e) + " "@ + expr_text(f) + ")"@,
        expr_text(ExprView::Binary { left: Box::new(e), operator: BinaryOp::Add, operator_line: line, right: Box::new(f) })
            == "(+ "@ + expr_text(e) + " "@ + expr_text(f) + ")"@,
        expr_text(ExprView::Binary { left: Box::new(e), operator: BinaryOp::Subtract, operator_line: line, right: Box::new(f) })
            == "(- "@ + expr_text(e) + " "@ + expr_text(f) + ")"@,
        expr_text(ExprView::Binary { left: Box::new(e), operator: BinaryOp::Multiply, operator_line: line, right: Box::new(f) })
            == "(* "@ + expr_text(e) + " "@ + expr_text(f) + ")"@,
        expr_text(ExprView::Binary { left: Box::new(e), operator: BinaryOp::Divide, operator_line: line, right: Box::new(f) })
            == "(/ "@ + expr_text(e) + " "@ + expr_text(f) + ")"@,
        expr_text(ExprView::Literal(LiteralView::True)) == "true"@,
        expr_text(ExprView::Literal(LiteralView::False)) == "false"@,
        expr_text(ExprView::Literal(LiteralView::Nil)) == "nil"@,
        expr_text(ExprView::Literal(LiteralView::Str(contents))) == contents,
{
    reveal_strlit("(group ");
    reveal_strlit("(- ");
    reveal_strlit("(! ");
    reveal_strlit(")");
    reveal_strlit(" ");
    reveal_strlit("true");
    reveal_strlit("false");
    reveal_strlit("nil");
    reveal_strlit("(== ");
    reveal_strlit("(!= ");
    reveal_strlit("(< ");
    reveal_strlit("(<= ");
    reveal_strlit("(> ");
    reveal_strlit("(>= ");
    reveal_strlit("(+ ");
    reveal_strlit("(- ");
    reveal_strlit("(* ");
    reveal_strlit("(/ ");
    assert(expr_text(ExprView::Grouping(Box::new(e))) =~= "(group "@ + expr_text(e) + ")"@);
}

impl UnaryOp {
    /// The printed form of this operator.
    pub fn to_string(&self) -> (res: String)
        ensures
            res@ == unary_op_text(*self),
    {
        let mut res = String::new();
        match self {
            UnaryOp::Negate => push_char(&mut res, '-'),
            UnaryOp::Not => push_char(&mut res, '!'),
        }
        assert(res@ =~= unary_op_text(*self));
        res
    }
}

impl BinaryOp {
    /// The printed form of this operator.
    pub fn to_string(&self) -> (res: String)
        ensures
            res@ == binary_op_text(*self),
    {
        let mut res = String::new();
        match self {
            BinaryOp::Equal => {
                push_char(&mut res, '=');
                push_char(&mut res, '=');
            },
            BinaryOp::NotEqual => {
                push_char(&mut res, '!');
                push_char(&mut res, '=');
            },
            BinaryOp::Less => push_char(&mut res, '<'),
            BinaryOp::LessEqual => {
                push_char(&mut res, '<');
                push_char(&mut res, '=');
            },
            BinaryOp::Greater => push_char(&mut res, '>'),
            BinaryOp::GreaterEqual => {
                push_char(&mut res, '>');
                push_char(&mut res, '=');
            },
            BinaryOp::Add => push_char(&mut res, '+'),
            BinaryOp::Subtract => push_char(&mut res, '-'),
            BinaryOp::Multiply => push_char(&mut res, '*'),
            BinaryOp::Divide => push_char(&mut res, '/'),
        }
        assert(res@ =~= binary_op_text(*self));
        res
    }
}

impl LiteralValue {
    /// The printed form of this literal.
    pub fn to_string(&self) -> (res: String)
        ensures
            res@ == literal_value_text(self@),
    {
        let mut res = String::new();
        match self {
            LiteralValue::Number(lexeme) => {
                let chars = chars_of(lexeme.as_str());
                push_number_text(&mut res, &chars);
            },
            LiteralValue::Str(s) => res.append(s.as_str()),
            LiteralValue::True => {
                push_char(&mut res, 't');
                push_char(&mut res, 'r');
                push_char(&mut res, 'u');
                push_char(&mut res, 'e');
            },
            LiteralValue::False => {
                push_char(&mut res, 'f');
                push_char(&mut res, 'a');
                push_char(&mut res, 'l');
                push_char(&mut res, 's');
                push_char(&mut res, 'e');
            },
            LiteralValue::Nil => {
                push_char(&mut res, 'n');
                push_char(&mut res, 'i');
                push_char(&mut res, 'l');
            },
        }
        assert(res@ =~= literal_value_text(self@));
        res
    }
}

impl Expr {
    fn push_text(&self, s: &mut String)
        ensures
            final(s)@ == old(s)@ + expr_text(self@),
        decreases self,
    {
        match self {
            Expr::Literal(v) => {
                let t = v.to_string();
                s.append(t.as_str());
            },
            Expr::Unary { operator, operand, .. } => {
                push_char(s, '(');
                let t = operator.to_string();
                s.append(t.as_str());
                push_char(s, ' ');
                operand.push_text(s);
                push_char(s, ')');
            },
            Expr::Binary { left, operator, right, .. } => {
                push_char(s, '(');
                let t = operator.to_string();
                s.append(t.as_str());
                push_char(s, ' ');
                left.push_text(s);
                push_char(s, ' ');
                right.push_text(s);
                push_char(s, ')');
            },
            Expr::Grouping(inner) => {
                push_char(s, '(');
                push_char(s, 'g');
                push_char(s, 'r');
                push_char(s, 'o');
                push_char(s, 'u');
                push_char(s, 'p');
                push_char(s, ' ');
                inner.push_text(s);
                push_char(s, ')');
            },
        }
        assert(s@ =~= old(s)@ + expr_text(self@));
    }

    /// The printed form of this expression (see [`expr_text`]).
    pub fn to_string(&self) -> (res: String)
        ensures
            res@ == expr_text(self@),
    {
        let mut res = String::new();
        self.push_text(&mut res);
        assert(res@ =~= expr_text(self@));
        res
    }
}

} // verus!
