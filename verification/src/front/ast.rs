//! The syntax tree, and the same tree as plain values for contracts to speak of.

use crate::front::Span;
use crate::binary64::Real;
use crate::symbol::Symbol;
use vstd::prelude::*;

verus! {

/// The prefix operators.
#[derive(Clone, Copy, Debug, PartialEq, Eq, Hash, Structural)]
pub enum Unary {
    Positive,
    Negate,
    Invert,
    BitInvert,
}

/// The operators that also have a compound assignment form.
#[derive(Clone, Copy, Debug, PartialEq, Eq, Hash, Structural)]
pub enum Op {
    Add,
    Subtract,
    Multiply,
    Divide,
    BitAnd,
    BitOr,
    BitXor,
}

/// The infix operators.
#[derive(Clone, Copy, Debug, PartialEq, Eq, Hash, Structural)]
pub enum Binary {
    Lt,
    Le,
    Eq,
    Ne,
    Ge,
    Gt,
    Op(Op),
    Div,
    Mod,
    And,
    Or,
    Xor,
    ShiftLeft,
    ShiftRight,
}

/// The two kinds of declaration.
#[derive(Clone, Copy, Debug, PartialEq, Eq, Hash, Structural)]
pub enum Declare {
    Local,
    Global,
}

/// The statements that leave a loop, an iteration or the script.
#[derive(Clone, Copy, Debug, PartialEq, Eq, Hash, Structural)]
pub enum Jump {
    Break,
    Continue,
    Exit,
}

/// An expression that has no parts.
#[derive(Clone, Copy, Debug, PartialEq, Eq, Hash, Structural)]
pub enum Value {
    Real(Real),
    String(Symbol),
    Ident(Symbol),
}

/// A call: what is called, and the arguments.
#[derive(Debug, PartialEq, Eq)]
pub struct Call(pub Box<(Expr, Span)>, pub Vec<(Expr, Span)>);

/// An expression. Every part carries its span.
#[derive(Debug, PartialEq, Eq)]
pub enum Expr {
    Value(Value),
    Unary(Unary, Box<(Expr, Span)>),
    Binary(Binary, Box<(Expr, Span)>, Box<(Expr, Span)>),
    Field(Box<(Expr, Span)>, (Symbol, Span)),
    Index(Box<(Expr, Span)>, Vec<(Expr, Span)>),
    Call(Call),
}

/// A statement. Every part carries its span.
#[derive(Debug, PartialEq, Eq)]
pub enum Stmt {
    Assign(Option<Op>, Box<(Expr, Span)>, Box<(Expr, Span)>),
    Invoke(Call),
    Declare(Declare, Vec<(Symbol, Span)>),
    Block(Vec<(Stmt, Span)>),
    If(Box<(Expr, Span)>, Box<(Stmt, Span)>, Option<Box<(Stmt, Span)>>),
    Repeat(Box<(Expr, Span)>, Box<(Stmt, Span)>),
    While(Box<(Expr, Span)>, Box<(Stmt, Span)>),
    With(Box<(Expr, Span)>, Box<(Stmt, Span)>),
    Do(Box<(Stmt, Span)>, Box<(Expr, Span)>),
    For(Box<(Stmt, Span)>, Box<(Expr, Span)>, Box<(Stmt, Span)>, Box<(Stmt, Span)>),
    Switch(Box<(Expr, Span)>, Vec<(Stmt, Span)>),
    Jump(Jump),
    Return(Box<(Expr, Span)>),
    Case(Option<Box<(Expr, Span)>>),
    Error(Expr),
}

/// An expression as a mathematical tree: `Expr` with sequences in place of vectors.
pub enum ExprView {
    Value(Value),
    Unary(Unary, Box<(ExprView, Span)>),
    Binary(Binary, Box<(ExprView, Span)>, Box<(ExprView, Span)>),
    Field(Box<(ExprView, Span)>, (Symbol, Span)),
    Index(Box<(ExprView, Span)>, Seq<(ExprView, Span)>),
    Call(Box<(ExprView, Span)>, Seq<(ExprView, Span)>),
}

/// A statement as a mathematical tree: `Stmt` with sequences in place of vectors.
pub enum StmtView {
    Assign(Option<Op>, Box<(ExprView, Span)>, Box<(ExprView, Span)>),
    Invoke(Box<(ExprView, Span)>, Seq<(ExprView, Span)>),
    Declare(Declare, Seq<(Symbol, Span)>),
    Block(Seq<(StmtView, Span)>),
    If(Box<(ExprView, Span)>, Box<(StmtView, Span)>, Option<Box<(StmtView, Span)>>),
    Repeat(Box<(ExprView, Span)>, Box<(StmtView, Span)>),
    While(Box<(ExprView, Span)>, Box<(StmtView, Span)>),
    With(Box<(ExprView, Span)>, Box<(StmtView, Span)>),
    Do(Box<(StmtView, Span)>, Box<(ExprView, Span)>),
    For(
        Box<(StmtView, Span)>,
        Box<(ExprView, Span)>,
        Box<(StmtView, Span)>,
        Box<(StmtView, Span)>,
    ),
    Switch(Box<(ExprView, Span)>, Seq<(StmtView, Span)>),
    Jump(Jump),
    Return(Box<(ExprView, Span)>),
    Case(Option<Box<(ExprView, Span)>>),
    Error(ExprView),
}

impl Expr {
    /// The expression as a mathematical tree.
    pub open spec fn view(&self) -> ExprView
        decreases self,
    {
        match self {
            Expr::Value(value) => ExprView::Value(*value),
            Expr::Unary(op, arg) => ExprView::Unary(*op, Box::new((arg.0.view(), arg.1))),
            Expr::Binary(op, left, right) => ExprView::Binary(
                *op,
                Box::new((left.0.view(), left.1)),
                Box::new((right.0.view(), right.1)),
            ),
            Expr::Field(of, field) => ExprView::Field(Box::new((of.0.view(), of.1)), *field),
            Expr::Index(of, args) => ExprView::Index(
                Box::new((of.0.view(), of.1)),
                Seq::new(
                    args@.len(),
                    |i: int|
                        if 0 <= i < args@.len() {
                            (args@[i].0.view(), args@[i].1)
                        } else {
                            arbitrary()
                        },
                ),
            ),
            Expr::Call(call) => ExprView::Call(
                Box::new((call.0.0.view(), call.0.1)),
                Seq::new(
                    call.1@.len(),
                    |i: int|
                        if 0 <= i < call.1@.len() {
                            (call.1@[i].0.view(), call.1@[i].1)
                        } else {
                            arbitrary()
                        },
                ),
            ),
        }
    }
}

impl Stmt {
    /// The statement as a mathematical tree.
    pub open spec fn view(&self) -> StmtView
        decreases self,
    {
        match self {
            Stmt::Assign(op, left, right) => StmtView::Assign(
                *op,
                Box::new((left.0@, left.1)),
                Box::new((right.0@, right.1)),
            ),
            Stmt::Invoke(call) => StmtView::Invoke(
                Box::new((call.0.0@, call.0.1)),
                exprs_view(call.1@),
            ),
            Stmt::Declare(declare, names) => StmtView::Declare(*declare, names@),
            Stmt::Block(stmts) => StmtView::Block(
                Seq::new(
                    stmts@.len(),
                    |i: int|
                        if 0 <= i < stmts@.len() {
                            (stmts@[i].0.view(), stmts@[i].1)
                        } else {
                            arbitrary()
                        },
                ),
            ),
            Stmt::If(cond, then, otherwise) => StmtView::If(
                Box::new((cond.0@, cond.1)),
                Box::new((then.0.view(), then.1)),
                match otherwise {
                    Some(stmt) => Some(Box::new((stmt.0.view(), stmt.1))),
                    None => None,
                },
            ),
            Stmt::Repeat(count, body) => StmtView::Repeat(
                Box::new((count.0@, count.1)),
                Box::new((body.0.view(), body.1)),
            ),
            Stmt::While(cond, body) => StmtView::While(
                Box::new((cond.0@, cond.1)),
                Box::new((body.0.view(), body.1)),
            ),
            Stmt::With(scope, body) => StmtView::With(
                Box::new((scope.0@, scope.1)),
                Box::new((body.0.view(), body.1)),
            ),
            Stmt::Do(body, cond) => StmtView::Do(
                Box::new((body.0.view(), body.1)),
                Box::new((cond.0@, cond.1)),
            ),
            Stmt::For(init, cond, next, body) => StmtView::For(
                Box::new((init.0.view(), init.1)),
                Box::new((cond.0@, cond.1)),
                Box::new((next.0.view(), next.1)),
                Box::new((body.0.view(), body.1)),
            ),
            Stmt::Switch(scrutinee, stmts) => StmtView::Switch(
                Box::new((scrutinee.0@, scrutinee.1)),
                Seq::new(
                    stmts@.len(),
                    |i: int|
                        if 0 <= i < stmts@.len() {
                            (stmts@[i].0.view(), stmts@[i].1)
                        } else {
                            arbitrary()
                        },
                ),
            ),
            Stmt::Jump(jump) => StmtView::Jump(*jump),
            Stmt::Return(value) => StmtView::Return(Box::new((value.0@, value.1))),
            Stmt::Case(label) => StmtView::Case(
                match label {
                    Some(expr) => Some(Box::new((expr.0@, expr.1))),
                    None => None,
                },
            ),
            Stmt::Error(expr) => StmtView::Error(expr@),
        }
    }
}

/// The trees of a list of expressions.
pub open spec fn exprs_view(exprs: Seq<(Expr, Span)>) -> Seq<(ExprView, Span)> {
    Seq::new(exprs.len(), |i: int| (exprs[i].0@, exprs[i].1))
}

/// The trees of a list of statements.
pub open spec fn stmts_view(stmts: Seq<(Stmt, Span)>) -> Seq<(StmtView, Span)> {
    Seq::new(stmts.len(), |i: int| (stmts[i].0@, stmts[i].1))
}

/// The tree of an index expression is made of the trees of its parts.
pub proof fn lemma_index_view(of: Box<(Expr, Span)>, args: Vec<(Expr, Span)>)
    ensures
        Expr::Index(of, args)@ == ExprView::Index(Box::new((of.0@, of.1)), exprs_view(args@)),
{
    assert(Expr::Index(of, args)@->Index_1 =~= exprs_view(args@));
}

/// The tree of a call is made of the trees of its parts.
pub proof fn lemma_call_view(of: Box<(Expr, Span)>, args: Vec<(Expr, Span)>)
    ensures
        Expr::Call(Call(of, args))@ == ExprView::Call(Box::new((of.0@, of.1)), exprs_view(args@)),
{
    assert(Expr::Call(Call(of, args))@->Call_1 =~= exprs_view(args@));
}

/// The tree of a block is made of the trees of its statements.
pub proof fn lemma_block_view(stmts: Vec<(Stmt, Span)>)
    ensures
        Stmt::Block(stmts)@ == StmtView::Block(stmts_view(stmts@)),
{
    assert(Stmt::Block(stmts)@->Block_0 =~= stmts_view(stmts@));
}

/// The tree of a `switch` is made of the trees of its parts.
pub proof fn lemma_switch_view(scrutinee: Box<(Expr, Span)>, stmts: Vec<(Stmt, Span)>)
    ensures
        Stmt::Switch(scrutinee, stmts)@ == StmtView::Switch(
            Box::new((scrutinee.0@, scrutinee.1)),
            stmts_view(stmts@),
        ),
{
    assert(Stmt::Switch(scrutinee, stmts)@->Switch_1 =~= stmts_view(stmts@));
}

/// The trees of a list with one more expression at its end.
pub proof fn lemma_exprs_push(exprs: Seq<(Expr, Span)>, last: (Expr, Span))
    ensures
        exprs_view(exprs.push(last)) == exprs_view(exprs).push((last.0@, last.1)),
{
    assert(exprs_view(exprs.push(last)) =~= exprs_view(exprs).push((last.0@, last.1)));
}

/// The trees of a list with one more statement at its end.
pub proof fn lemma_stmts_push(stmts: Seq<(Stmt, Span)>, last: (Stmt, Span))
    ensures
        stmts_view(stmts.push(last)) == stmts_view(stmts).push((last.0@, last.1)),
{
    assert(stmts_view(stmts.push(last)) =~= stmts_view(stmts).push((last.0@, last.1)));
}

} // verus!
