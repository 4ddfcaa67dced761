//! The parser: what every construct of the language parses to, as functions of the state of
//! a parser, and the parser that computes them.

use crate::binary64::{literal_value, parse_literal, Real};
use crate::front::ast;
use crate::front::ast::{
    exprs_view, lemma_block_view, lemma_call_view, lemma_exprs_push, lemma_index_view,
    lemma_stmts_push, lemma_switch_view, stmts_view, ExprView, StmtView,
};
use crate::ascii::DOLLAR;
use crate::front::lexer::Lexer;
use crate::front::state::{lemma_advance, State};
use crate::front::token::{BinOp, Delim, Token};
use crate::front::{Diagnostic, ErrorHandler, Message, Span};
use crate::symbol::{symbol_of, Interner, Keyword, Symbol};
use vstd::prelude::*;
use vstd::slice::{slice_subrange, slice_to_vec};

verus! {

/// What stands on the left of an infix token.
#[derive(Clone, Copy, Debug, PartialEq, Eq, Structural)]
pub enum Infix {
    Binary(ast::Binary),
    Field,
    Index,
    Call,
}

/// The operator that a token of the compound assignment family names.
pub open spec fn op_of(op: BinOp) -> ast::Op {
    match op {
        BinOp::Plus => ast::Op::Add,
        BinOp::Minus => ast::Op::Subtract,
        BinOp::Star => ast::Op::Multiply,
        BinOp::Slash => ast::Op::Divide,
        BinOp::Ampersand => ast::Op::BitAnd,
        BinOp::Pipe => ast::Op::BitOr,
        BinOp::Caret => ast::Op::BitXor,
    }
}

/// The infix operator that a token is, if it is one.
pub open spec fn binary_of(token: Token) -> Option<ast::Binary> {
    match token {
        Token::Lt => Some(ast::Binary::Lt),
        Token::Le => Some(ast::Binary::Le),
        Token::Eq => Some(ast::Binary::Eq),
        Token::EqEq => Some(ast::Binary::Eq),
        Token::Ne => Some(ast::Binary::Ne),
        Token::Ge => Some(ast::Binary::Ge),
        Token::Gt => Some(ast::Binary::Gt),
        Token::BinOp(op) => Some(ast::Binary::Op(op_of(op))),
        Token::Keyword(Keyword::Div) => Some(ast::Binary::Div),
        Token::Keyword(Keyword::Mod) => Some(ast::Binary::Mod),
        Token::And => Some(ast::Binary::And),
        Token::Keyword(Keyword::And) => Some(ast::Binary::And),
        Token::Or => Some(ast::Binary::Or),
        Token::Keyword(Keyword::Or) => Some(ast::Binary::Or),
        Token::Xor => Some(ast::Binary::Xor),
        Token::Keyword(Keyword::Xor) => Some(ast::Binary::Xor),
        Token::Shl => Some(ast::Binary::ShiftLeft),
        Token::Shr => Some(ast::Binary::ShiftRight),
        _ => None,
    }
}

/// How tightly an infix operator binds: from 1, the loosest, to 6.
pub open spec fn binary_precedence(op: ast::Binary) -> nat {
    match op {
        ast::Binary::Op(ast::Op::Multiply) | ast::Binary::Op(ast::Op::Divide) | ast::Binary::Div
        | ast::Binary::Mod => 6,
        ast::Binary::Op(ast::Op::Add) | ast::Binary::Op(ast::Op::Subtract) => 5,
        ast::Binary::ShiftLeft | ast::Binary::ShiftRight => 4,
        ast::Binary::Op(ast::Op::BitAnd) | ast::Binary::Op(ast::Op::BitXor) | ast::Binary::Op(
            ast::Op::BitOr,
        ) => 3,
        ast::Binary::Lt | ast::Binary::Le | ast::Binary::Eq | ast::Binary::Ne | ast::Binary::Ge
        | ast::Binary::Gt => 2,
        ast::Binary::And | ast::Binary::Or | ast::Binary::Xor => 1,
    }
}

/// What a token means after an expression, and how tightly it binds: 7 for field access,
/// indexing and calls, which bind tightest. `None` for a token that continues no expression.
pub open spec fn infix_of(token: Token) -> Option<(Infix, nat)> {
    match token {
        Token::Dot => Some((Infix::Field, 7)),
        Token::OpenDelim(Delim::Bracket) => Some((Infix::Index, 7)),
        Token::OpenDelim(Delim::Paren) => Some((Infix::Call, 7)),
        _ => match binary_of(token) {
            Some(op) => Some((Infix::Binary(op), binary_precedence(op))),
            None => None,
        },
    }
}

/// What an assignment operator does with the old value: `Some(None)` for plain assignment,
/// `Some(Some(op))` for a compound one, `None` for a token that is no assignment operator.
pub open spec fn assign_of(token: Token) -> Option<Option<ast::Op>> {
    match token {
        Token::Eq | Token::ColonEq => Some(None),
        Token::BinOpEq(op) => Some(Some(op_of(op))),
        _ => None,
    }
}

/// The prefix operator that a token is, if it is one.
pub open spec fn unary_of(token: Token) -> Option<ast::Unary> {
    match token {
        Token::BinOp(BinOp::Plus) => Some(ast::Unary::Positive),
        Token::BinOp(BinOp::Minus) => Some(ast::Unary::Negate),
        Token::Bang => Some(ast::Unary::Invert),
        Token::Keyword(Keyword::Not) => Some(ast::Unary::Invert),
        Token::Tilde => Some(ast::Unary::BitInvert),
        _ => None,
    }
}

/// Whether a keyword stands for a value in an expression: the two truth values and the
/// pseudo-instances.
pub open spec fn names_value(keyword: Keyword) -> bool {
    keyword == Keyword::True || keyword == Keyword::False || keyword == Keyword::Self_ || keyword
        == Keyword::Other || keyword == Keyword::All || keyword == Keyword::NoOne || keyword
        == Keyword::Global || keyword == Keyword::Local
}

/// What a string literal holds: the literal without its opening quote, and without its
/// closing quote where it has one.
pub open spec fn strip_quotes(text: Seq<u8>) -> Seq<u8> {
    if text.len() >= 2 && text[text.len() - 1] == text[0] {
        text.subrange(1, text.len() - 1)
    } else if text.len() >= 1 {
        text.subrange(1, text.len() as int)
    } else {
        text
    }
}

impl State {
    /// Passes the semicolons that follow a statement. Gives the end of the last one, or
    /// `high` where there is none.
    pub open spec fn semicolons(self, high: usize) -> (usize, State)
        decreases self.measure(),
        when self.wf()
    {
        if self.current == Token::Semicolon {
            proof {
                lemma_advance(self);
            }
            self.advance().semicolons(self.span.high)
        } else {
            (high, self)
        }
    }

    /// The names of a declaration, each with its span: identifiers, with or without commas
    /// between them.
    pub open spec fn declare_items(self) -> (Seq<(Symbol, Span)>, State)
        decreases self.measure(),
        when self.wf()
    {
        match self.current {
            Token::Ident(symbol) => {
                proof {
                    lemma_advance(self);
                    lemma_advance(self.advance());
                }
                let rest = self.advance().skip(Token::Comma).declare_items();
                (seq![(symbol, self.span)] + rest.0, rest.1)
            },
            _ => (Seq::empty(), self),
        }
    }

    /// A declaration: `var` or `globalvar`, the names, and a semicolon.
    pub open spec fn parse_declare(self) -> (StmtView, Span, State) {
        let declare = if self.current == Token::Keyword(Keyword::Var) {
            ast::Declare::Local
        } else {
            ast::Declare::Global
        };
        let items = self.advance().declare_items();
        (
            StmtView::Declare(declare, items.0),
            Span { low: self.span.low, high: items.1.span.high },
            items.1.expect(Token::Semicolon),
        )
    }

    /// A jump: the keyword alone.
    pub open spec fn parse_jump(self) -> (StmtView, Span, State) {
        let jump = if self.current == Token::Keyword(Keyword::Break) {
            ast::Jump::Break
        } else if self.current == Token::Keyword(Keyword::Continue) {
            ast::Jump::Continue
        } else {
            ast::Jump::Exit
        };
        (StmtView::Jump(jump), self.span, self.advance())
    }

    /// A program: one block in braces, or statements up to the end of the source. Whatever
    /// follows the block is reported.
    pub open spec fn parse_program(self) -> (StmtView, Span, State) {
        let low = self.span.low;
        let (stmt, high, state) = if self.current == Token::OpenDelim(Delim::Brace) {
            let block = self.parse_statement();
            (block.0, block.1.high, block.2)
        } else {
            let items = self.program_items(low);
            (StmtView::Block(items.0), items.1, items.2)
        };
        (
            stmt,
            Span { low, high },
            if state.current != Token::Eof {
                state.error(state.span, Message::ExpectedEndOfFile)
            } else {
                state
            },
        )
    }

    /// The statements up to the end of the source, and the end of the last one, or `high`
    /// where there is none.
    pub open spec fn program_items(self, high: usize) -> (Seq<(StmtView, Span)>, usize, State)
        decreases self.measure(), 9int,
        when self.wf()
    {
        if self.current == Token::Eof {
            (Seq::empty(), high, self)
        } else {
            let first = self.parse_statement();
            let rest = first.2.past(self).program_items(first.1.high);
            (seq![(first.0, first.1)] + rest.0, rest.1, rest.2)
        }
    }

    /// A statement, and the semicolons after it. The current token decides which kind of
    /// statement it is; a token that starts none of the others starts an assignment or a call.
    pub open spec fn parse_statement(self) -> (StmtView, Span, State)
        decreases self.measure(), 8int,
        when self.wf()
    {
        let stmt = match self.current {
            Token::Keyword(Keyword::Var)
            | Token::Keyword(Keyword::GlobalVar) => self.parse_declare(),
            Token::OpenDelim(Delim::Brace) | Token::Keyword(Keyword::Begin) => self.parse_block(),
            Token::Keyword(Keyword::If) => self.parse_if(),
            Token::Keyword(Keyword::Repeat) => self.parse_repeat(),
            Token::Keyword(Keyword::While)
            | Token::Keyword(Keyword::With) => self.parse_while_or_with(),
            Token::Keyword(Keyword::Do) => self.parse_do(),
            Token::Keyword(Keyword::For) => self.parse_for(),
            Token::Keyword(Keyword::Switch) => self.parse_switch(),
            Token::Keyword(Keyword::Break) | Token::Keyword(Keyword::Continue) | Token::Keyword(
                Keyword::Exit,
            ) => self.parse_jump(),
            Token::Keyword(Keyword::Return) => self.parse_return(),
            Token::Keyword(Keyword::Case) | Token::Keyword(Keyword::Default) => self.parse_case(),
            _ => self.parse_assign_or_invoke(),
        };
        let end = stmt.2.following(self).semicolons(stmt.1.high);
        (stmt.0, Span { low: self.span.low, high: end.0 }, end.1)
    }

    /// An assignment, or a call that stands as a statement.
    ///
    /// A term comes first. If it is a call, that is the statement. Otherwise an assignment
    /// operator and an expression follow; where the operator is missing, that is reported and
    /// the next term stands in for the statement.
    pub open spec fn parse_assign_or_invoke(self) -> (StmtView, Span, State)
    {
        let left = self.parse_term();
        let state = left.2.following(self);
        match left.0 {
            ExprView::Call(function, args) => (StmtView::Invoke(function, args), left.1, state),
            _ => match assign_of(state.current) {
                None => {
                    let reported = state.error(state.span, Message::ExpectedAssignment);
                    let next = reported.parse_term();
                    (StmtView::Error(next.0), next.1, next.2.following(reported))
                },
                Some(op) => {
                    let after = state.advance();
                    let right = after.parse_expression(0);
                    (
                        StmtView::Assign(
                            op,
                            Box::new((left.0, left.1)),
                            Box::new((right.0, right.1)),
                        ),
                        Span { low: self.span.low, high: right.1.high },
                        right.2.following(after),
                    )
                },
            },
        }
    }

    /// A block: `{` or `begin`, statements, and `}` or `end`. A block that the end of the
    /// source cuts short is reported and ends there.
    pub open spec fn parse_block(self) -> (StmtView, Span, State)
        decreases self.measure(), 7int,
        when self.wf()
    {
        proof {
            lemma_advance(self);
        }
        let open = self.advance();
        let items = open.block_items();
        let state = items.1.following(open);
        if state.current == Token::Eof {
            (
                StmtView::Block(items.0),
                Span { low: self.span.low, high: state.span.low },
                state.error(state.span, Message::UnclosedBlock),
            )
        } else {
            (
                StmtView::Block(items.0),
                Span { low: self.span.low, high: state.span.high },
                state.advance(),
            )
        }
    }

    /// The statements of a block, up to its closing token or the end of the source.
    pub open spec fn block_items(self) -> (Seq<(StmtView, Span)>, State)
        decreases self.measure(), (if self.current == Token::Eof { 0int } else { 9int }),
        when self.wf()
    {
        if self.current == Token::CloseDelim(Delim::Brace) || self.current == Token::Keyword(
            Keyword::End,
        ) || self.current == Token::Eof {
            (Seq::empty(), self)
        } else {
            let first = self.parse_statement();
            let rest = first.2.past(self).block_items();
            (seq![(first.0, first.1)] + rest.0, rest.1)
        }
    }

    /// `if`, a condition, `then` or not, a statement, and `else` with a statement, or not.
    pub open spec fn parse_if(self) -> (StmtView, Span, State)
        decreases self.measure(), 7int,
        when self.wf() && self.current != Token::Eof
    {
        proof {
            lemma_advance(self);
        }
        let start = self.advance();
        let cond = start.parse_expression(0);
        proof {
            lemma_advance(cond.2.following(start));
        }
        let then_at = cond.2.following(start).skip(Token::Keyword(Keyword::Then));
        let then = then_at.parse_statement();
        let state = then.2.following(then_at);
        if state.current == Token::Keyword(Keyword::Else) {
            proof {
                lemma_advance(state);
            }
            let else_at = state.advance();
            let otherwise = else_at.parse_statement();
            (
                StmtView::If(
                    Box::new((cond.0, cond.1)),
                    Box::new((then.0, then.1)),
                    Some(Box::new((otherwise.0, otherwise.1))),
                ),
                Span { low: self.span.low, high: otherwise.1.high },
                otherwise.2.following(else_at),
            )
        } else {
            (
                StmtView::If(Box::new((cond.0, cond.1)), Box::new((then.0, then.1)), None),
                Span { low: self.span.low, high: then.1.high },
                state,
            )
        }
    }

    /// `repeat`, a count and a statement.
    pub open spec fn parse_repeat(self) -> (StmtView, Span, State)
        decreases self.measure(), 7int,
        when self.wf() && self.current != Token::Eof
    {
        proof {
            lemma_advance(self);
        }
        let start = self.advance();
        let count = start.parse_expression(0);
        let body_at = count.2.following(start);
        let body = body_at.parse_statement();
        (
            StmtView::Repeat(Box::new((count.0, count.1)), Box::new((body.0, body.1))),
            Span { low: self.span.low, high: body.1.high },
            body.2.following(body_at),
        )
    }

    /// `while` or `with`, an expression, `do` or not, and a statement.
    pub open spec fn parse_while_or_with(self) -> (StmtView, Span, State)
        decreases self.measure(), 7int,
        when self.wf() && self.current != Token::Eof
    {
        proof {
            lemma_advance(self);
        }
        let start = self.advance();
        let head = start.parse_expression(0);
        proof {
            lemma_advance(head.2.following(start));
        }
        let body_at = head.2.following(start).skip(Token::Keyword(Keyword::Do));
        let body = body_at.parse_statement();
        (
            if self.current == Token::Keyword(Keyword::While) {
                StmtView::While(Box::new((head.0, head.1)), Box::new((body.0, body.1)))
            } else {
                StmtView::With(Box::new((head.0, head.1)), Box::new((body.0, body.1)))
            },
            Span { low: self.span.low, high: body.1.high },
            body.2.following(body_at),
        )
    }

    /// `do`, a statement, `until` and a condition.
    pub open spec fn parse_do(self) -> (StmtView, Span, State)
        decreases self.measure(), 7int,
        when self.wf() && self.current != Token::Eof
    {
        proof {
            lemma_advance(self);
        }
        let start = self.advance();
        let body = start.parse_statement();
        proof {
            lemma_advance(body.2.following(start));
        }
        let cond_at = body.2.following(start).expect(Token::Keyword(Keyword::Until));
        let cond = cond_at.parse_expression(0);
        (
            StmtView::Do(Box::new((body.0, body.1)), Box::new((cond.0, cond.1))),
            Span { low: self.span.low, high: cond.1.high },
            cond.2.following(cond_at),
        )
    }

    /// `for`, then in parentheses a statement, a condition, a semicolon or not, and a
    /// statement, then the body. The span ends with the closing parenthesis.
    pub open spec fn parse_for(self) -> (StmtView, Span, State)
        decreases self.measure(), 7int,
        when self.wf() && self.current != Token::Eof
    {
        proof {
            lemma_advance(self);
            lemma_advance(self.advance());
        }
        let start = self.advance().expect(Token::OpenDelim(Delim::Paren));
        let init = start.parse_statement();
        let cond_at = init.2.following(start);
        let cond = cond_at.parse_expression(0);
        proof {
            lemma_advance(cond.2.following(cond_at));
        }
        let next_at = cond.2.following(cond_at).skip(Token::Semicolon);
        let next = next_at.parse_statement();
        let close = next.2.following(next_at);
        proof {
            lemma_advance(close);
        }
        let body_at = close.expect(Token::CloseDelim(Delim::Paren));
        let body = body_at.parse_statement();
        (
            StmtView::For(
                Box::new((init.0, init.1)),
                Box::new((cond.0, cond.1)),
                Box::new((next.0, next.1)),
                Box::new((body.0, body.1)),
            ),
            Span { low: self.span.low, high: close.span.high },
            body.2.following(body_at),
        )
    }

    /// `switch`, an expression and a block. A body that does not start like a block is
    /// reported and read as one all the same.
    pub open spec fn parse_switch(self) -> (StmtView, Span, State)
        decreases self.measure(), 7int,
        when self.wf() && self.current != Token::Eof
    {
        proof {
            lemma_advance(self);
        }
        let start = self.advance();
        let scrutinee = start.parse_expression(0);
        let state = scrutinee.2.following(start);
        let body_at = if state.current != Token::OpenDelim(Delim::Brace) && state.current
            != Token::Keyword(Keyword::Begin) {
            state.error(state.span, Message::ExpectedOpenBrace)
        } else {
            state
        };
        let body = body_at.parse_block();
        (
            StmtView::Switch(
                Box::new((scrutinee.0, scrutinee.1)),
                match body.0 {
                    StmtView::Block(stmts) => stmts,
                    _ => Seq::empty(),
                },
            ),
            Span { low: self.span.low, high: body.1.high },
            body.2.following(body_at),
        )
    }

    /// `return` and an expression.
    pub open spec fn parse_return(self) -> (StmtView, Span, State)
    {
        let start = self.advance();
        let value = start.parse_expression(0);
        (
            StmtView::Return(Box::new((value.0, value.1))),
            Span { low: self.span.low, high: value.1.high },
            value.2.following(start),
        )
    }

    /// A label of a `switch`: `case` with an expression, or `default`, and a colon.
    pub open spec fn parse_case(self) -> (StmtView, Span, State)
    {
        let start = self.advance();
        if self.current == Token::Keyword(Keyword::Case) {
            let label = start.parse_expression(0);
            let state = label.2.following(start);
            (
                StmtView::Case(Some(Box::new((label.0, label.1)))),
                Span { low: self.span.low, high: state.span.high },
                state.expect(Token::Colon),
            )
        } else {
            (
                StmtView::Case(None),
                Span { low: self.span.low, high: start.span.high },
                start.expect(Token::Colon),
            )
        }
    }

    /// A term: an expression of which every infix operator binds tightest.
    pub open spec fn parse_term(self) -> (ExprView, Span, State)
        decreases self.measure(), 5int,
        when self.wf()
    {
        self.parse_expression(7)
    }

    /// An expression of which every infix operator at its top binds as tightly as
    /// `min_precedence` at least.
    pub open spec fn parse_expression(self, min_precedence: nat) -> (ExprView, Span, State)
        decreases self.measure(), 4int,
        when self.wf()
    {
        let left = self.parse_prefix_expression();
        left.3.following(self).parse_infix(left.0, left.1, left.2, min_precedence)
    }

    /// What follows an expression `left` that has been read: the infix operators that bind
    /// as tightly as `min_precedence` at least, each with its right side.
    ///
    /// A call follows an identifier only. An index follows an identifier or a field access
    /// that do not stand in parentheses, and `parens` says whether `left` does. A field
    /// access follows an identifier, a field access or an index. The right side of a binary
    /// operator holds only operators that bind tighter, so operators of one level group to
    /// the left.
    pub open spec fn parse_infix(
        self,
        left: ExprView,
        left_span: Span,
        parens: bool,
        min_precedence: nat,
    ) -> (ExprView, Span, State)
        decreases self.measure(), 3int,
        when self.wf()
    {
        match infix_of(self.current) {
            None => (left, left_span, self),
            Some((infix, precedence)) => if precedence < min_precedence {
                (left, left_span, self)
            } else if infix == Infix::Call && left is Value && left->Value_0 is Ident {
                let args = self.parse_args(Delim::Paren);
                args.2.past(self).parse_infix(
                    ExprView::Call(Box::new((left, left_span)), args.0),
                    Span { low: left_span.low, high: args.1 },
                    true,
                    min_precedence,
                )
            } else if infix == Infix::Index && !parens && ((left is Value && left->Value_0 is Ident)
                || left is Field) {
                let args = self.parse_args(Delim::Bracket);
                args.2.past(self).parse_infix(
                    ExprView::Index(Box::new((left, left_span)), args.0),
                    Span { low: left_span.low, high: args.1 },
                    false,
                    min_precedence,
                )
            } else if infix == Infix::Field && ((left is Value && left->Value_0 is Ident)
                || left is Field || left is Index) {
                proof {
                    lemma_advance(self);
                    lemma_advance(self.advance());
                }
                let dot = self.advance();
                match dot.current {
                    Token::Ident(field) => dot.advance().parse_infix(
                        ExprView::Field(Box::new((left, left_span)), (field, dot.span)),
                        Span { low: left_span.low, high: dot.span.high },
                        false,
                        min_precedence,
                    ),
                    _ => (left, left_span, dot.error(dot.span, Message::ExpectedIdentifier)),
                }
            } else if infix is Binary {
                proof {
                    lemma_advance(self);
                }
                let after = self.advance();
                let right = after.parse_expression(precedence + 1);
                right.2.following(after).parse_infix(
                    ExprView::Binary(
                        infix->Binary_0,
                        Box::new((left, left_span)),
                        Box::new((right.0, right.1)),
                    ),
                    Span { low: left_span.low, high: right.1.high },
                    parens,
                    min_precedence,
                )
            } else {
                (left, left_span, self)
            },
        }
    }

    /// An expression up to its first infix operator, and whether it stands in parentheses or
    /// under a prefix operator.
    ///
    /// The current token is passed whatever it is. An identifier, a truth value or a
    /// pseudo-instance is a name. A literal is its value; one that has none is reported and
    /// is zero. A string is its contents, interned. A prefix operator applies to the term
    /// after it. An opening parenthesis holds an expression and is closed. Any other token is
    /// reported and stands for zero.
    pub open spec fn parse_prefix_expression(self) -> (ExprView, Span, bool, State)
        decreases self.measure(), 1int,
        when self.wf()
    {
        proof {
            lemma_advance(self);
        }
        let next = self.advance();
        let plain = ExprView::Value(ast::Value::Real(Real::spec_zero()));
        match self.current {
            Token::Ident(symbol) => (
                ExprView::Value(ast::Value::Ident(symbol)),
                self.span,
                false,
                next,
            ),
            Token::Real(symbol) => {
                let text = self.names[symbol.0 as int];
                match literal_value(text) {
                    Some(value) => (
                        ExprView::Value(ast::Value::Real(value)),
                        self.span,
                        false,
                        next,
                    ),
                    None => (
                        plain,
                        self.span,
                        false,
                        next.error(
                            self.span,
                            if text.len() > 0 && text[0] == DOLLAR {
                                Message::InvalidInteger
                            } else {
                                Message::InvalidReal
                            },
                        ),
                    ),
                }
            },
            Token::String(symbol) => {
                let contents = strip_quotes(self.names[symbol.0 as int]);
                (
                    ExprView::Value(ast::Value::String(symbol_of(next.names, contents))),
                    self.span,
                    false,
                    next.intern(contents),
                )
            },
            Token::OpenDelim(Delim::Paren) => {
                let inner = next.parse_expression(0);
                (
                    inner.0,
                    inner.1,
                    true,
                    inner.2.following(next).expect(Token::CloseDelim(Delim::Paren)),
                )
            },
            _ => if self.current is Keyword && names_value(self.current->Keyword_0) {
                (
                    ExprView::Value(ast::Value::Ident(self.current->Keyword_0.spec_symbol())),
                    self.span,
                    false,
                    next,
                )
            } else if unary_of(self.current) is Some {
                let arg = next.parse_term();
                (
                    ExprView::Unary(unary_of(self.current)->0, Box::new((arg.0, arg.1))),
                    Span { low: self.span.low, high: arg.1.high },
                    true,
                    arg.2.following(next),
                )
            } else {
                (
                    plain,
                    Span { low: self.span.low, high: self.span.low },
                    false,
                    next.error(next.span, Message::ExpectedExpression),
                )
            },
        }
    }

    /// The arguments of a call or of an index, from the opening token on, and the end of the
    /// token at which they stop. A list that stops at anything but its closing token is
    /// reported.
    pub open spec fn parse_args(self, delim: Delim) -> (Seq<(ExprView, Span)>, usize, State)
        decreases self.measure(), 2int,
        when self.wf() && self.current != Token::Eof
    {
        proof {
            lemma_advance(self);
        }
        let items = self.advance().args_items(delim);
        let state = items.1.following(self.advance());
        (
            items.0,
            state.span.high,
            if state.current != Token::CloseDelim(delim) {
                state.error(state.span, Message::ExpectedCloseOrComma)
            } else {
                state.advance()
            },
        )
    }

    /// Expressions with commas between them, up to the closing token, the end of the source,
    /// or an expression that no comma follows.
    pub open spec fn args_items(self, delim: Delim) -> (Seq<(ExprView, Span)>, State)
        decreases self.measure(), 6int,
        when self.wf()
    {
        if self.current == Token::CloseDelim(delim) || self.current == Token::Eof {
            (Seq::empty(), self)
        } else {
            let first = self.parse_expression(0);
            let state = first.2.past(self);
            if state.current == Token::Comma {
                proof {
                    lemma_advance(state);
                }
                let rest = state.advance().args_items(delim);
                (seq![(first.0, first.1)] + rest.0, rest.1)
            } else {
                (seq![(first.0, first.1)], state)
            }
        }
    }
}

impl Infix {
    /// What a token means after an expression, and how tightly it binds.
    pub fn from_token(token: Token) -> (infix: Option<(Infix, usize)>)
        ensures
            infix is Some <==> infix_of(token) is Some,
            infix matches Some(found) ==> infix_of(token) == Some((found.0, found.1 as nat)),
    {
        let op = match token {
            Token::Dot => {
                return Some((Infix::Field, 7));
            },
            Token::OpenDelim(Delim::Bracket) => {
                return Some((Infix::Index, 7));
            },
            Token::OpenDelim(Delim::Paren) => {
                return Some((Infix::Call, 7));
            },
            Token::Lt => ast::Binary::Lt,
            Token::Le => ast::Binary::Le,
            Token::Eq => ast::Binary::Eq,
            Token::EqEq => ast::Binary::Eq,
            Token::Ne => ast::Binary::Ne,
            Token::Ge => ast::Binary::Ge,
            Token::Gt => ast::Binary::Gt,
            Token::BinOp(op) => ast::Binary::Op(from_binop(op)),
            Token::Keyword(Keyword::Div) => ast::Binary::Div,
            Token::Keyword(Keyword::Mod) => ast::Binary::Mod,
            Token::And | Token::Keyword(Keyword::And) => ast::Binary::And,
            Token::Or | Token::Keyword(Keyword::Or) => ast::Binary::Or,
            Token::Xor | Token::Keyword(Keyword::Xor) => ast::Binary::Xor,
            Token::Shl => ast::Binary::ShiftLeft,
            Token::Shr => ast::Binary::ShiftRight,
            _ => {
                return None;
            },
        };
        let precedence: usize = match op {
            ast::Binary::Op(ast::Op::Multiply) | ast::Binary::Op(ast::Op::Divide)
            | ast::Binary::Div | ast::Binary::Mod => 6,
            ast::Binary::Op(ast::Op::Add) | ast::Binary::Op(ast::Op::Subtract) => 5,
            ast::Binary::ShiftLeft | ast::Binary::ShiftRight => 4,
            ast::Binary::Op(ast::Op::BitAnd) | ast::Binary::Op(ast::Op::BitXor)
            | ast::Binary::Op(ast::Op::BitOr) => 3,
            ast::Binary::Lt | ast::Binary::Le | ast::Binary::Eq | ast::Binary::Ne
            | ast::Binary::Ge | ast::Binary::Gt => 2,
            ast::Binary::And | ast::Binary::Or | ast::Binary::Xor => 1,
        };
        Some((Infix::Binary(op), precedence))
    }
}

/// The operator that a token of the compound assignment family names.
pub fn from_binop(op: BinOp) -> (named: ast::Op)
    ensures
        named == op_of(op),
{
    match op {
        BinOp::Plus => ast::Op::Add,
        BinOp::Minus => ast::Op::Subtract,
        BinOp::Star => ast::Op::Multiply,
        BinOp::Slash => ast::Op::Divide,
        BinOp::Ampersand => ast::Op::BitAnd,
        BinOp::Pipe => ast::Op::BitOr,
        BinOp::Caret => ast::Op::BitXor,
    }
}

/// A parser: a reader of tokens, the token it looks at, the table of names and the
/// diagnostics.
///
/// The parser never gives up. What it cannot read it reports, puts a stand-in in the tree
/// and goes on.
pub struct Parser<'s> {
    reader: Lexer<'s>,
    names: Interner,
    errors: ErrorHandler,
    current: Token,
    span: Span,
}

impl<'s> View for Parser<'s> {
    type V = State;

    closed spec fn view(&self) -> State {
        State {
            source: self.reader.source(),
            position: self.reader.position(),
            current: self.current,
            span: self.span,
            names: self.names@,
            errors: self.errors@,
        }
    }
}

/// Whether a table of names has room for all that `len` bytes of source may add to it: two
/// symbols for every byte, and one more.
pub open spec fn has_room(names: Seq<Seq<u8>>, len: nat) -> bool {
    names.len() + 2 * len + 1 <= u32::MAX
}

/// The state of a parser that has not read its first token, over a source of which
/// `position` bytes have been read.
pub open spec fn initial(
    source: Seq<u8>,
    position: int,
    names: Seq<Seq<u8>>,
    errors: Seq<Diagnostic>,
) -> State {
    State {
        source,
        position,
        current: Token::Eof,
        span: Span { low: position as usize, high: position as usize },
        names,
        errors,
    }
}

impl<'s> Parser<'s> {
    /// A parser that looks at the next token of the reader.
    ///
    /// The table of names needs room for two symbols for every byte that the reader has not
    /// read.
    pub fn new(reader: Lexer<'s>, names: Interner, errors: ErrorHandler) -> (parser: Parser<'s>)
        requires
            reader.wf(),
            names.wf(),
            has_room(names@, (reader.source().len() - reader.position()) as nat),
        ensures
            parser@ == initial(reader.source(), reader.position(), names@, errors@).advance(),
            parser@.wf(),
    {
        let start = reader.offset();
        let mut parser = Parser {
            reader,
            names,
            errors,
            current: Token::Eof,
            span: Span { low: start, high: start },
        };
        parser.advance_token();
        parser
    }

    /// Whether a table of names has room for all that `len` bytes of source may add to it.
    pub fn has_room(names: &Interner, len: usize) -> (fits: bool)
        ensures
            fits == has_room(names@, len as nat),
    {
        let limit: u64 = 0xffff_ffff;
        let held = names.len() as u64;
        let wanted = len as u64;
        held < limit && wanted <= (limit - 1 - held) / 2
    }

    /// The token that the parser looks at.
    pub fn current(&self) -> (token: Token)
        ensures
            token == self@.current,
    {
        self.current
    }

    /// The span of the token that the parser looks at.
    pub fn span(&self) -> (span: Span)
        ensures
            span == self@.span,
    {
        self.span
    }

    /// Gives back the table of names and the diagnostics.
    pub fn finish(self) -> (parts: (Interner, ErrorHandler))
        ensures
            parts.0@ == self@.names,
            parts.1@ == self@.errors,
            self@.wf() ==> parts.0.wf(),
    {
        (self.names, self.errors)
    }

    /// Reads the next token and gives the one that was current, with its span.
    fn advance_token(&mut self) -> (passed: (Token, Span))
        requires
            old(self)@.wf(),
        ensures
            final(self)@ == old(self)@.advance(),
            passed.0 == old(self)@.current,
            passed.1 == old(self)@.span,
            final(self)@.wf(),
            final(self)@.measure() <= old(self)@.measure(),
            old(self)@.current != Token::Eof ==> final(self)@.measure() < old(self)@.measure(),
    {
        proof {
            reveal(State::advance);
            lemma_advance(self@);
        }
        let (token, span) = self.reader.read_token(&mut self.names, &mut self.errors);
        let passed = (self.current, self.span);
        self.current = token;
        self.span = span;
        passed
    }

    /// Passes `token` where it is the current one, and reports its absence where it is not.
    fn expect(&mut self, token: Token) -> (found: bool)
        requires
            old(self)@.wf(),
        ensures
            final(self)@ == old(self)@.expect(token),
            found == (old(self)@.current == token),
            final(self)@.wf(),
            final(self)@.measure() <= old(self)@.measure(),
    {
        if self.current == token {
            self.advance_token();
            true
        } else {
            self.errors.error(self.span, Message::ExpectedToken);
            false
        }
    }

    /// Passes `token` where it is the current one.
    fn skip(&mut self, token: Token)
        requires
            old(self)@.wf(),
        ensures
            final(self)@ == old(self)@.skip(token),
            final(self)@.wf(),
            final(self)@.measure() <= old(self)@.measure(),
    {
        if self.current == token {
            self.advance_token();
        }
    }

    /// Parses a program: `State::parse_program` says what comes out.
    pub fn parse_program(&mut self) -> (program: (ast::Stmt, Span))
        requires
            old(self)@.wf(),
        ensures
            program.0@ == old(self)@.parse_program().0,
            program.1 == old(self)@.parse_program().1,
            final(self)@ == old(self)@.parse_program().2,
            final(self)@.wf(),
            final(self)@.measure() <= old(self)@.measure(),
    {
        let low = self.span.low;
        let ghost start = self@;
        let (stmt, high) = if self.current == Token::OpenDelim(Delim::Brace) {
            let (stmt, span) = self.parse_statement();
            (stmt, span.high)
        } else {
            let mut stmts: Vec<(ast::Stmt, Span)> = Vec::new();
            let mut high = low;
            assert(stmts_view(stmts@) + start.program_items(low).0 =~= start.program_items(low).0);
            while self.current != Token::Eof
                invariant
                    self@.wf(),
                    self@.measure() <= start.measure(),
                    start.wf(),
                    start.program_items(low) == (
                        stmts_view(stmts@) + self@.program_items(high).0,
                        self@.program_items(high).1,
                        self@.program_items(high).2,
                    ),
                decreases self@.measure(),
            {
                let ghost before = self@;
                let ghost rest = before.parse_statement().2.program_items(
                    before.parse_statement().1.high,
                );
                let (stmt, span) = self.parse_statement();
                proof {
                    lemma_stmts_push(stmts@, (stmt, span));
                    assert(stmts_view(stmts@) + (seq![(stmt@, span)] + rest.0) =~= stmts_view(
                        stmts@,
                    ).push((stmt@, span)) + rest.0);
                }
                stmts.push((stmt, span));
                high = span.high;
            }
            proof {
                lemma_block_view(stmts);
                assert(stmts_view(stmts@) + Seq::<(StmtView, Span)>::empty() =~= stmts_view(
                    stmts@,
                ));
            }
            (ast::Stmt::Block(stmts), high)
        };
        if self.current != Token::Eof {
            self.errors.error(self.span, Message::ExpectedEndOfFile);
        }
        (stmt, Span { low, high })
    }

    /// Parses a statement: `State::parse_statement` says what comes out.
    pub fn parse_statement(&mut self) -> (stmt: (ast::Stmt, Span))
        requires
            old(self)@.wf(),
        ensures
            stmt.0@ == old(self)@.parse_statement().0,
            stmt.1 == old(self)@.parse_statement().1,
            final(self)@ == old(self)@.parse_statement().2,
            final(self)@.wf(),
            final(self)@.measure() <= old(self)@.measure(),
            old(self)@.current != Token::Eof ==> final(self)@.measure() < old(self)@.measure(),
        decreases old(self)@.measure(), 8int,
    {
        let low = self.span.low;
        let (stmt, span) = match self.current {
            Token::Keyword(Keyword::Var)
            | Token::Keyword(Keyword::GlobalVar) => self.parse_declare(),
            Token::OpenDelim(Delim::Brace) | Token::Keyword(Keyword::Begin) => self.parse_block(),
            Token::Keyword(Keyword::If) => self.parse_if(),
            Token::Keyword(Keyword::Repeat) => self.parse_repeat(),
            Token::Keyword(Keyword::While)
            | Token::Keyword(Keyword::With) => self.parse_while_or_with(),
            Token::Keyword(Keyword::Do) => self.parse_do(),
            Token::Keyword(Keyword::For) => self.parse_for(),
            Token::Keyword(Keyword::Switch) => self.parse_switch(),
            Token::Keyword(Keyword::Break) | Token::Keyword(Keyword::Continue) | Token::Keyword(
                Keyword::Exit,
            ) => self.parse_jump(),
            Token::Keyword(Keyword::Return) => self.parse_return(),
            Token::Keyword(Keyword::Case) | Token::Keyword(Keyword::Default) => self.parse_case(),
            _ => self.parse_assign_or_invoke(),
        };
        let ghost after = self@;
        let mut high = span.high;
        while self.current == Token::Semicolon
            invariant
                self@.wf(),
                self@.measure() <= after.measure(),
                after.wf(),
                after.semicolons(span.high) == self@.semicolons(high),
            decreases self@.measure(),
        {
            proof {
                lemma_advance(self@);
            }
            high = self.span.high;
            self.advance_token();
        }
        (stmt, Span { low, high })
    }

    /// Parses an assignment or a call that stands as a statement.
    fn parse_assign_or_invoke(&mut self) -> (stmt: (ast::Stmt, Span))
        requires
            old(self)@.wf(),
        ensures
            stmt.0@ == old(self)@.parse_assign_or_invoke().0,
            stmt.1 == old(self)@.parse_assign_or_invoke().1,
            final(self)@ == old(self)@.parse_assign_or_invoke().2,
            final(self)@.wf(),
            final(self)@.measure() <= old(self)@.measure(),
            old(self)@.current != Token::Eof ==> final(self)@.measure() < old(self)@.measure(),
    {
        let low = self.span.low;
        let (lvalue, left_span) = self.parse_term();
        let lvalue = match lvalue {
            ast::Expr::Call(call) => {
                proof {
                    lemma_call_view(call.0, call.1);
                }
                return (ast::Stmt::Invoke(call), left_span);
            },
            other => other,
        };
        let op = match self.current {
            Token::Eq | Token::ColonEq => None,
            Token::BinOpEq(op) => Some(from_binop(op)),
            _ => {
                self.errors.error(self.span, Message::ExpectedAssignment);
                let (expr, expr_span) = self.parse_term();
                return (ast::Stmt::Error(expr), expr_span);
            },
        };
        self.advance_token();
        let (rvalue, right_span) = self.parse_expression(0);
        let span = Span { low, high: right_span.high };
        (
            ast::Stmt::Assign(op, Box::new((lvalue, left_span)), Box::new((rvalue, right_span))),
            span,
        )
    }

    /// Parses a declaration.
    fn parse_declare(&mut self) -> (stmt: (ast::Stmt, Span))
        requires
            old(self)@.wf(),
            old(self)@.current != Token::Eof,
        ensures
            stmt.0@ == old(self)@.parse_declare().0,
            stmt.1 == old(self)@.parse_declare().1,
            final(self)@ == old(self)@.parse_declare().2,
            final(self)@.wf(),
            final(self)@.measure() <= old(self)@.measure(),
            final(self)@.measure() < old(self)@.measure(),
    {
        let low = self.span.low;
        let (keyword, _) = self.advance_token();
        let declare = match keyword {
            Token::Keyword(Keyword::Var) => ast::Declare::Local,
            _ => ast::Declare::Global,
        };
        let ghost start = self@;
        let mut idents: Vec<(Symbol, Span)> = Vec::new();
        assert(idents@ + start.declare_items().0 =~= start.declare_items().0);
        loop
            invariant_except_break
                self@.wf(),
                self@.measure() <= start.measure(),
                start.wf(),
                start.declare_items() == (
                    idents@ + self@.declare_items().0,
                    self@.declare_items().1,
                ),
            ensures
                self@.wf(),
                self@.measure() <= start.measure(),
                start.wf(),
                start.declare_items() == (idents@, self@),
            decreases self@.measure(),
        {
            let ghost before = self@;
            let symbol = match self.current {
                Token::Ident(symbol) => symbol,
                _ => {
                    assert(idents@ + Seq::<(Symbol, Span)>::empty() =~= idents@);
                    break ;
                },
            };
            proof {
                lemma_advance(before);
                lemma_advance(before.advance());
                let rest = before.advance().skip(Token::Comma).declare_items();
                assert(idents@ + (seq![(symbol, before.span)] + rest.0) =~= idents@.push(
                    (symbol, before.span),
                ) + rest.0);
            }
            idents.push((symbol, self.span));
            self.advance_token();
            self.skip(Token::Comma);
        }
        let high = self.span.high;
        self.expect(Token::Semicolon);
        (ast::Stmt::Declare(declare, idents), Span { low, high })
    }

    /// Parses the statements of a block and its closing token. Gives the statements and the
    /// end of the block.
    fn parse_block_items(&mut self) -> (block: (Vec<(ast::Stmt, Span)>, usize))
        requires
            old(self)@.wf(),
        ensures
            StmtView::Block(stmts_view(block.0@)) == old(self)@.parse_block().0,
            block.1 == old(self)@.parse_block().1.high,
            final(self)@ == old(self)@.parse_block().2,
            final(self)@.wf(),
            final(self)@.measure() <= old(self)@.measure(),
            old(self)@.current != Token::Eof ==> final(self)@.measure() < old(self)@.measure(),
        decreases old(self)@.measure(), 6int,
    {
        let ghost entry = self@;
        proof {
            lemma_advance(entry);
        }
        self.advance_token();
        let ghost open = self@;
        let mut stmts: Vec<(ast::Stmt, Span)> = Vec::new();
        assert(stmts_view(stmts@) + open.block_items().0 =~= open.block_items().0);
        while self.current != Token::CloseDelim(Delim::Brace) && self.current != Token::Keyword(
            Keyword::End,
        ) && self.current != Token::Eof
            invariant
                self@.wf(),
                self@.measure() <= open.measure(),
                open.wf(),
                entry == old(self)@,
                open.measure() <= entry.measure(),
                open.current != Token::Eof ==> open.measure() < entry.measure(),
                open.current == Token::Eof ==> open.measure() == 0,
                open.block_items() == (
                    stmts_view(stmts@) + self@.block_items().0,
                    self@.block_items().1,
                ),
            decreases self@.measure(),
        {
            let ghost before = self@;
            let ghost rest = before.parse_statement().2.block_items();
            let (stmt, span) = self.parse_statement();
            proof {
                lemma_stmts_push(stmts@, (stmt, span));
                assert(stmts_view(stmts@) + (seq![(stmt@, span)] + rest.0) =~= stmts_view(
                    stmts@,
                ).push((stmt@, span)) + rest.0);
            }
            stmts.push((stmt, span));
        }
        proof {
            assert(stmts_view(stmts@) + Seq::<(StmtView, Span)>::empty() =~= stmts_view(stmts@));
        }
        let high;
        if self.current == Token::Eof {
            self.errors.error(self.span, Message::UnclosedBlock);
            high = self.span.low;
        } else {
            let (_, span) = self.advance_token();
            high = span.high;
        }
        (stmts, high)
    }

    /// Parses a block.
    fn parse_block(&mut self) -> (stmt: (ast::Stmt, Span))
        requires
            old(self)@.wf(),
        ensures
            stmt.0@ == old(self)@.parse_block().0,
            stmt.1 == old(self)@.parse_block().1,
            final(self)@ == old(self)@.parse_block().2,
            final(self)@.wf(),
            final(self)@.measure() <= old(self)@.measure(),
            old(self)@.current != Token::Eof ==> final(self)@.measure() < old(self)@.measure(),
        decreases old(self)@.measure(), 7int,
    {
        let low = self.span.low;
        let (stmts, high) = self.parse_block_items();
        proof {
            lemma_block_view(stmts);
        }
        (ast::Stmt::Block(stmts), Span { low, high })
    }

    /// Parses an `if`.
    fn parse_if(&mut self) -> (stmt: (ast::Stmt, Span))
        requires
            old(self)@.wf(),
            old(self)@.current != Token::Eof,
        ensures
            stmt.0@ == old(self)@.parse_if().0,
            stmt.1 == old(self)@.parse_if().1,
            final(self)@ == old(self)@.parse_if().2,
            final(self)@.wf(),
            final(self)@.measure() <= old(self)@.measure(),
            final(self)@.measure() < old(self)@.measure(),
        decreases old(self)@.measure(), 7int,
    {
        let low = self.span.low;
        self.advance_token();
        let (expr, expr_span) = self.parse_expression(0);
        self.skip(Token::Keyword(Keyword::Then));
        let (true_branch, true_span) = self.parse_statement();
        if self.current == Token::Keyword(Keyword::Else) {
            self.advance_token();
            let (false_branch, false_span) = self.parse_statement();
            (
                ast::Stmt::If(
                    Box::new((expr, expr_span)),
                    Box::new((true_branch, true_span)),
                    Some(Box::new((false_branch, false_span))),
                ),
                Span { low, high: false_span.high },
            )
        } else {
            (
                ast::Stmt::If(
                    Box::new((expr, expr_span)),
                    Box::new((true_branch, true_span)),
                    None,
                ),
                Span { low, high: true_span.high },
            )
        }
    }

    /// Parses a `repeat`.
    fn parse_repeat(&mut self) -> (stmt: (ast::Stmt, Span))
        requires
            old(self)@.wf(),
            old(self)@.current != Token::Eof,
        ensures
            stmt.0@ == old(self)@.parse_repeat().0,
            stmt.1 == old(self)@.parse_repeat().1,
            final(self)@ == old(self)@.parse_repeat().2,
            final(self)@.wf(),
            final(self)@.measure() <= old(self)@.measure(),
            final(self)@.measure() < old(self)@.measure(),
        decreases old(self)@.measure(), 7int,
    {
        let low = self.span.low;
        self.advance_token();
        let (count, count_span) = self.parse_expression(0);
        let (body, body_span) = self.parse_statement();
        (
            ast::Stmt::Repeat(Box::new((count, count_span)), Box::new((body, body_span))),
            Span { low, high: body_span.high },
        )
    }

    /// Parses a `while` or a `with`.
    fn parse_while_or_with(&mut self) -> (stmt: (ast::Stmt, Span))
        requires
            old(self)@.wf(),
            old(self)@.current != Token::Eof,
        ensures
            stmt.0@ == old(self)@.parse_while_or_with().0,
            stmt.1 == old(self)@.parse_while_or_with().1,
            final(self)@ == old(self)@.parse_while_or_with().2,
            final(self)@.wf(),
            final(self)@.measure() <= old(self)@.measure(),
            final(self)@.measure() < old(self)@.measure(),
        decreases old(self)@.measure(), 7int,
    {
        let low = self.span.low;
        let (kind, _) = self.advance_token();
        let (expr, expr_span) = self.parse_expression(0);
        self.skip(Token::Keyword(Keyword::Do));
        let (body, body_span) = self.parse_statement();
        let span = Span { low, high: body_span.high };
        match kind {
            Token::Keyword(Keyword::While) => (
                ast::Stmt::While(Box::new((expr, expr_span)), Box::new((body, body_span))),
                span,
            ),
            _ => (ast::Stmt::With(Box::new((expr, expr_span)), Box::new((body, body_span))), span),
        }
    }

    /// Parses a `do` with its `until`.
    fn parse_do(&mut self) -> (stmt: (ast::Stmt, Span))
        requires
            old(self)@.wf(),
            old(self)@.current != Token::Eof,
        ensures
            stmt.0@ == old(self)@.parse_do().0,
            stmt.1 == old(self)@.parse_do().1,
            final(self)@ == old(self)@.parse_do().2,
            final(self)@.wf(),
            final(self)@.measure() <= old(self)@.measure(),
            final(self)@.measure() < old(self)@.measure(),
        decreases old(self)@.measure(), 7int,
    {
        let low = self.span.low;
        self.advance_token();
        let (body, body_span) = self.parse_statement();
        self.expect(Token::Keyword(Keyword::Until));
        let (expr, expr_span) = self.parse_expression(0);
        (
            ast::Stmt::Do(Box::new((body, body_span)), Box::new((expr, expr_span))),
            Span { low, high: expr_span.high },
        )
    }

    /// Parses a `for`.
    #[verifier::rlimit(40)]
    fn parse_for(&mut self) -> (stmt: (ast::Stmt, Span))
        requires
            old(self)@.wf(),
            old(self)@.current != Token::Eof,
        ensures
            stmt.0@ == old(self)@.parse_for().0,
            stmt.1 == old(self)@.parse_for().1,
            final(self)@ == old(self)@.parse_for().2,
            final(self)@.wf(),
            final(self)@.measure() <= old(self)@.measure(),
            final(self)@.measure() < old(self)@.measure(),
        decreases old(self)@.measure(), 7int,
    {
        let low = self.span.low;
        self.advance_token();
        self.expect(Token::OpenDelim(Delim::Paren));
        let (init, init_span) = self.parse_statement();
        let (cond, cond_span) = self.parse_expression(0);
        self.skip(Token::Semicolon);
        let (next, next_span) = self.parse_statement();
        let high = self.span.high;
        self.expect(Token::CloseDelim(Delim::Paren));
        let (body, body_span) = self.parse_statement();
        (
            ast::Stmt::For(
                Box::new((init, init_span)),
                Box::new((cond, cond_span)),
                Box::new((next, next_span)),
                Box::new((body, body_span)),
            ),
            Span { low, high },
        )
    }

    /// Parses a `switch`.
    fn parse_switch(&mut self) -> (stmt: (ast::Stmt, Span))
        requires
            old(self)@.wf(),
            old(self)@.current != Token::Eof,
        ensures
            stmt.0@ == old(self)@.parse_switch().0,
            stmt.1 == old(self)@.parse_switch().1,
            final(self)@ == old(self)@.parse_switch().2,
            final(self)@.wf(),
            final(self)@.measure() <= old(self)@.measure(),
            final(self)@.measure() < old(self)@.measure(),
        decreases old(self)@.measure(), 7int,
    {
        let low = self.span.low;
        self.advance_token();
        let (expr, expr_span) = self.parse_expression(0);
        if self.current != Token::OpenDelim(Delim::Brace) && self.current != Token::Keyword(
            Keyword::Begin,
        ) {
            self.errors.error(self.span, Message::ExpectedOpenBrace);
        }
        let (body, high) = self.parse_block_items();
        let scrutinee = Box::new((expr, expr_span));
        proof {
            lemma_switch_view(scrutinee, body);
        }
        (ast::Stmt::Switch(scrutinee, body), Span { low, high })
    }

    /// Parses a `break`, a `continue` or an `exit`.
    fn parse_jump(&mut self) -> (stmt: (ast::Stmt, Span))
        requires
            old(self)@.wf(),
            old(self)@.current != Token::Eof,
        ensures
            stmt.0@ == old(self)@.parse_jump().0,
            stmt.1 == old(self)@.parse_jump().1,
            final(self)@ == old(self)@.parse_jump().2,
            final(self)@.wf(),
            final(self)@.measure() <= old(self)@.measure(),
            final(self)@.measure() < old(self)@.measure(),
    {
        let (jump, span) = self.advance_token();
        let jump = match jump {
            Token::Keyword(Keyword::Break) => ast::Jump::Break,
            Token::Keyword(Keyword::Continue) => ast::Jump::Continue,
            _ => ast::Jump::Exit,
        };
        (ast::Stmt::Jump(jump), span)
    }

    /// Parses a `return`.
    fn parse_return(&mut self) -> (stmt: (ast::Stmt, Span))
        requires
            old(self)@.wf(),
            old(self)@.current != Token::Eof,
        ensures
            stmt.0@ == old(self)@.parse_return().0,
            stmt.1 == old(self)@.parse_return().1,
            final(self)@ == old(self)@.parse_return().2,
            final(self)@.wf(),
            final(self)@.measure() <= old(self)@.measure(),
            final(self)@.measure() < old(self)@.measure(),
    {
        let low = self.span.low;
        self.advance_token();
        let (expr, expr_span) = self.parse_expression(0);
        (ast::Stmt::Return(Box::new((expr, expr_span))), Span { low, high: expr_span.high })
    }

    /// Parses a `case` or a `default`.
    fn parse_case(&mut self) -> (stmt: (ast::Stmt, Span))
        requires
            old(self)@.wf(),
            old(self)@.current != Token::Eof,
        ensures
            stmt.0@ == old(self)@.parse_case().0,
            stmt.1 == old(self)@.parse_case().1,
            final(self)@ == old(self)@.parse_case().2,
            final(self)@.wf(),
            final(self)@.measure() <= old(self)@.measure(),
            final(self)@.measure() < old(self)@.measure(),
    {
        let low = self.span.low;
        let (case, _) = self.advance_token();
        let expr = match case {
            Token::Keyword(Keyword::Case) => Some(Box::new(self.parse_expression(0))),
            _ => None,
        };
        let high = self.span.high;
        self.expect(Token::Colon);
        (ast::Stmt::Case(expr), Span { low, high })
    }

    /// Parses an expression: `State::parse_expression` says what comes out.
    pub fn parse_expression(&mut self, min_precedence: usize) -> (expr: (ast::Expr, Span))
        requires
            old(self)@.wf(),
        ensures
            expr.0@ == old(self)@.parse_expression(min_precedence as nat).0,
            expr.1 == old(self)@.parse_expression(min_precedence as nat).1,
            final(self)@ == old(self)@.parse_expression(min_precedence as nat).2,
            final(self)@.wf(),
            final(self)@.measure() <= old(self)@.measure(),
            old(self)@.current != Token::Eof ==> final(self)@.measure() < old(self)@.measure(),
        decreases old(self)@.measure(), 4int,
    {
        let ghost entry = self@;
        let (mut left, mut left_span, mut parens) = self.parse_prefix_expression();
        let ghost start = self@;
        let ghost min = min_precedence as nat;
        loop
            invariant_except_break
                self@.wf(),
                self@.measure() <= start.measure(),
                entry.wf(),
                entry == old(self)@,
                min == min_precedence,
                start.measure() <= entry.measure(),
                entry.current != Token::Eof ==> start.measure() < entry.measure(),
                entry.parse_expression(min) == self@.parse_infix(left@, left_span, parens, min),
            ensures
                self@.wf(),
                self@.measure() <= start.measure(),
                entry.wf(),
                start.measure() <= entry.measure(),
                entry.current != Token::Eof ==> start.measure() < entry.measure(),
                entry.parse_expression(min) == (left@, left_span, self@),
            decreases self@.measure(),
        {
            let ghost before = self@;
            let (op, precedence) = match Infix::from_token(self.current) {
                Some(found) => found,
                None => {
                    break ;
                },
            };
            if precedence < min_precedence {
                break ;
            }
            let is_ident = match &left {
                ast::Expr::Value(ast::Value::Ident(_)) => true,
                _ => false,
            };
            let is_field = match &left {
                ast::Expr::Field(_, _) => true,
                _ => false,
            };
            let is_index = match &left {
                ast::Expr::Index(_, _) => true,
                _ => false,
            };
            let low = left_span.low;
            match op {
                Infix::Call => {
                    if !is_ident {
                        break ;
                    }
                    let (args, high) = self.parse_args(Delim::Paren);
                    let function = Box::new((left, left_span));
                    proof {
                        lemma_call_view(function, args);
                    }
                    left = ast::Expr::Call(ast::Call(function, args));
                    left_span = Span { low, high };
                    parens = true;
                },
                Infix::Index => {
                    if parens || !(is_ident || is_field) {
                        break ;
                    }
                    let (args, high) = self.parse_args(Delim::Bracket);
                    let indexed = Box::new((left, left_span));
                    proof {
                        lemma_index_view(indexed, args);
                    }
                    left = ast::Expr::Index(indexed, args);
                    left_span = Span { low, high };
                    parens = false;
                },
                Infix::Field => {
                    if !(is_ident || is_field || is_index) {
                        break ;
                    }
                    proof {
                        lemma_advance(before);
                        lemma_advance(before.advance());
                    }
                    self.advance_token();
                    let (field, field_span) = match self.current {
                        Token::Ident(field) => {
                            let (_, field_span) = self.advance_token();
                            (field, field_span)
                        },
                        _ => {
                            self.errors.error(self.span, Message::ExpectedIdentifier);
                            break ;
                        },
                    };
                    left = ast::Expr::Field(Box::new((left, left_span)), (field, field_span));
                    left_span = Span { low, high: field_span.high };
                    parens = false;
                },
                Infix::Binary(op) => {
                    proof {
                        lemma_advance(before);
                    }
                    self.advance_token();
                    let (right, right_span) = self.parse_expression(precedence + 1);
                    left = ast::Expr::Binary(
                        op,
                        Box::new((left, left_span)),
                        Box::new((right, right_span)),
                    );
                    left_span = Span { low, high: right_span.high };
                },
            }
        }
        (left, left_span)
    }

    /// Parses an expression up to its first infix operator.
    fn parse_prefix_expression(&mut self) -> (expr: (ast::Expr, Span, bool))
        requires
            old(self)@.wf(),
        ensures
            expr.0@ == old(self)@.parse_prefix_expression().0,
            expr.1 == old(self)@.parse_prefix_expression().1,
            expr.2 == old(self)@.parse_prefix_expression().2,
            final(self)@ == old(self)@.parse_prefix_expression().3,
            final(self)@.wf(),
            final(self)@.measure() <= old(self)@.measure(),
            old(self)@.current != Token::Eof ==> final(self)@.measure() < old(self)@.measure(),
        decreases old(self)@.measure(), 1int,
    {
        let ghost entry = self@;
        proof {
            lemma_advance(entry);
        }
        let low = self.span.low;
        let (current, span) = self.advance_token();
        match current {
            Token::Ident(symbol) => (ast::Expr::Value(ast::Value::Ident(symbol)), span, false),
            Token::Real(symbol) => {
                let text = self.names.as_bytes(symbol);
                let value = match parse_literal(text) {
                    Some(value) => value,
                    None => {
                        let message = if text.len() > 0 && text[0] == DOLLAR {
                            Message::InvalidInteger
                        } else {
                            Message::InvalidReal
                        };
                        self.errors.error(span, message);
                        Real::zero()
                    },
                };
                (ast::Expr::Value(ast::Value::Real(value)), span, false)
            },
            Token::String(symbol) => {
                let text = self.names.as_bytes(symbol);
                let len = text.len();
                let contents = if len >= 2 && text[len - 1] == text[0] {
                    slice_to_vec(slice_subrange(text, 1, len - 1))
                } else if len >= 1 {
                    slice_to_vec(slice_subrange(text, 1, len))
                } else {
                    slice_to_vec(text)
                };
                let symbol = self.names.intern_bytes(contents.as_slice());
                (ast::Expr::Value(ast::Value::String(symbol)), span, false)
            },
            Token::OpenDelim(Delim::Paren) => {
                let (expr, expr_span) = self.parse_expression(0);
                self.expect(Token::CloseDelim(Delim::Paren));
                (expr, expr_span, true)
            },
            Token::Keyword(keyword) if value_keyword(keyword) => (
                ast::Expr::Value(ast::Value::Ident(keyword.symbol())),
                span,
                false,
            ),
            _ => match prefix_operator(current) {
                Some(op) => {
                    let (expr, expr_span) = self.parse_term();
                    (
                        ast::Expr::Unary(op, Box::new((expr, expr_span))),
                        Span { low, high: expr_span.high },
                        true,
                    )
                },
                None => {
                    self.errors.error(self.span, Message::ExpectedExpression);
                    (
                        ast::Expr::Value(ast::Value::Real(Real::zero())),
                        Span { low, high: low },
                        false,
                    )
                },
            },
        }
    }

    /// Parses the arguments of a call or of an index. Gives them, and the end of the token at
    /// which they stop.
    fn parse_args(&mut self, delim: Delim) -> (args: (Vec<(ast::Expr, Span)>, usize))
        requires
            old(self)@.wf(),
            old(self)@.current != Token::Eof,
        ensures
            exprs_view(args.0@) == old(self)@.parse_args(delim).0,
            args.1 == old(self)@.parse_args(delim).1,
            final(self)@ == old(self)@.parse_args(delim).2,
            final(self)@.wf(),
            final(self)@.measure() <= old(self)@.measure(),
            final(self)@.measure() < old(self)@.measure(),
        decreases old(self)@.measure(), 2int,
    {
        let ghost entry = self@;
        proof {
            lemma_advance(entry);
        }
        self.advance_token();
        let ghost start = self@;
        let mut args: Vec<(ast::Expr, Span)> = Vec::new();
        assert(exprs_view(args@) + start.args_items(delim).0 =~= start.args_items(delim).0);
        loop
            invariant_except_break
                self@.wf(),
                self@.measure() <= start.measure(),
                start.wf(),
                entry == old(self)@,
                start.measure() < entry.measure(),
                start.args_items(delim) == (
                    exprs_view(args@) + self@.args_items(delim).0,
                    self@.args_items(delim).1,
                ),
            ensures
                self@.wf(),
                self@.measure() <= start.measure(),
                start.wf(),
                start.measure() < entry.measure(),
                start.args_items(delim) == (exprs_view(args@), self@),
            decreases self@.measure(),
        {
            if self.current == Token::CloseDelim(delim) || self.current == Token::Eof {
                assert(exprs_view(args@) + Seq::<(ExprView, Span)>::empty() =~= exprs_view(
                    args@,
                ));
                break ;
            }
            let arg = self.parse_expression(0);
            let ghost after = self@;
            proof {
                lemma_exprs_push(args@, arg);
                lemma_advance(after);
                if after.current == Token::Comma {
                    let rest = after.advance().args_items(delim);
                    assert(exprs_view(args@) + (seq![(arg.0@, arg.1)] + rest.0) =~= exprs_view(
                        args@,
                    ).push((arg.0@, arg.1)) + rest.0);
                } else {
                    assert(exprs_view(args@) + seq![(arg.0@, arg.1)] =~= exprs_view(args@).push(
                        (arg.0@, arg.1),
                    ));
                }
            }
            args.push(arg);
            if self.current == Token::Comma {
                self.advance_token();
            } else {
                break ;
            }
        }
        let high = self.span.high;
        if self.current != Token::CloseDelim(delim) {
            self.errors.error(self.span, Message::ExpectedCloseOrComma);
        } else {
            self.advance_token();
        }
        (args, high)
    }

    /// Parses a term.
    fn parse_term(&mut self) -> (expr: (ast::Expr, Span))
        requires
            old(self)@.wf(),
        ensures
            expr.0@ == old(self)@.parse_term().0,
            expr.1 == old(self)@.parse_term().1,
            final(self)@ == old(self)@.parse_term().2,
            final(self)@.wf(),
            final(self)@.measure() <= old(self)@.measure(),
            old(self)@.current != Token::Eof ==> final(self)@.measure() < old(self)@.measure(),
        decreases old(self)@.measure(), 5int,
    {
        self.parse_expression(7)
    }
}

/// Whether a keyword stands for a value in an expression.
pub fn value_keyword(keyword: Keyword) -> (names: bool)
    ensures
        names == names_value(keyword),
{
    match keyword {
        Keyword::True | Keyword::False | Keyword::Self_ | Keyword::Other | Keyword::All
        | Keyword::NoOne | Keyword::Global | Keyword::Local => true,
        _ => false,
    }
}

/// The prefix operator that a token is, if it is one.
pub fn prefix_operator(token: Token) -> (op: Option<ast::Unary>)
    ensures
        op == unary_of(token),
{
    match token {
        Token::BinOp(BinOp::Plus) => Some(ast::Unary::Positive),
        Token::BinOp(BinOp::Minus) => Some(ast::Unary::Negate),
        Token::Bang => Some(ast::Unary::Invert),
        Token::Keyword(Keyword::Not) => Some(ast::Unary::Invert),
        Token::Tilde => Some(ast::Unary::BitInvert),
        _ => None,
    }
}

} // verus!
