//! What holds of every parse: the parser goes forward and keeps what it has, every span is a
//! range of the source, and trees have the forms of the grammar.

use crate::front::ast::{ExprView, StmtView};
use crate::front::parser::{assign_of, infix_of, names_value, strip_quotes, unary_of, Infix};
use crate::front::state::{lemma_advance, State};
use crate::front::token::{Delim, Token};
use crate::front::{Message, Span};
use crate::symbol::{lemma_with_name, Keyword};
use vstd::prelude::*;

verus! {

impl State {
    /// Whether this state comes after `from` and, unless `from` stood at the end of the
    /// source, is closer to the end.
    pub open spec fn progresses(self, from: State) -> bool {
        self.extends(from) && (from.current != Token::Eof ==> self.measure() < from.measure())
    }
}

/// Passing or missing a token keeps the state, but for the token passed or the diagnostic.
pub proof fn lemma_skip(state: State, token: Token)
    requires
        state.wf(),
    ensures
        state.skip(token).extends(state),
        state.expect(token).extends(state),
        state.error(state.span, Message::ExpectedToken).extends(state),
{
    lemma_advance(state);
}

/// A diagnostic more keeps the state in every other respect.
pub proof fn lemma_error(state: State, span: Span, message: Message)
    requires
        state.wf(),
    ensures
        state.error(span, message).extends(state),
        state.error(span, message).measure() == state.measure(),
        state.error(span, message).current == state.current,
{
}

/// Semicolons are passed forward.
pub proof fn lemma_semicolons(state: State, high: usize)
    requires
        state.wf(),
    ensures
        state.semicolons(high).1.extends(state),
    decreases state.measure(),
{
    if state.current == Token::Semicolon {
        lemma_advance(state);
        lemma_semicolons(state.advance(), state.span.high);
    }
}

/// The names of a declaration are read forward.
pub proof fn lemma_declare_items(state: State)
    requires
        state.wf(),
    ensures
        state.declare_items().1.extends(state),
    decreases state.measure(),
{
    if state.current is Ident {
        lemma_advance(state);
        lemma_advance(state.advance());
        lemma_declare_items(state.advance().skip(Token::Comma));
    }
}

/// A declaration is read forward.
pub proof fn lemma_declare(state: State)
    requires
        state.wf(),
    ensures
        state.parse_declare().2.progresses(state),
{
    lemma_advance(state);
    lemma_declare_items(state.advance());
    lemma_skip(state.advance().declare_items().1, Token::Semicolon);
}

/// A jump is read forward.
pub proof fn lemma_jump(state: State)
    requires
        state.wf(),
    ensures
        state.parse_jump().2.progresses(state),
{
    lemma_advance(state);
}

/// A term is read forward, and what it gives back is what the parser goes on from.
pub proof fn lemma_term(state: State)
    requires
        state.wf(),
    ensures
        state.parse_term().2.progresses(state),
    decreases state.measure(), 5int,
{
    lemma_expression(state, 7);
}

/// An expression is read forward.
pub proof fn lemma_expression(state: State, min_precedence: nat)
    requires
        state.wf(),
    ensures
        state.parse_expression(min_precedence).2.progresses(state),
    decreases state.measure(), 4int,
{
    lemma_prefix(state);
    let left = state.parse_prefix_expression();
    lemma_infix(left.3, left.0, left.1, left.2, min_precedence);
}

/// What follows an expression is read forward.
pub proof fn lemma_infix(
    state: State,
    left: ExprView,
    left_span: Span,
    parens: bool,
    min_precedence: nat,
)
    requires
        state.wf(),
    ensures
        state.parse_infix(left, left_span, parens, min_precedence).2.extends(state),
    decreases state.measure(), 3int,
{
    match infix_of(state.current) {
        None => {},
        Some((infix, precedence)) => {
            if precedence < min_precedence {
            } else if infix == Infix::Call && left is Value && left->Value_0 is Ident {
                lemma_args(state, Delim::Paren);
                let args = state.parse_args(Delim::Paren);
                lemma_infix(
                    args.2,
                    ExprView::Call(Box::new((left, left_span)), args.0),
                    Span { low: left_span.low, high: args.1 },
                    true,
                    min_precedence,
                );
            } else if infix == Infix::Index && !parens && ((left is Value && left->Value_0
                is Ident) || left is Field) {
                lemma_args(state, Delim::Bracket);
                let args = state.parse_args(Delim::Bracket);
                lemma_infix(
                    args.2,
                    ExprView::Index(Box::new((left, left_span)), args.0),
                    Span { low: left_span.low, high: args.1 },
                    false,
                    min_precedence,
                );
            } else if infix == Infix::Field && ((left is Value && left->Value_0 is Ident)
                || left is Field || left is Index) {
                lemma_advance(state);
                let dot = state.advance();
                lemma_advance(dot);
                match dot.current {
                    Token::Ident(field) => {
                        lemma_infix(
                            dot.advance(),
                            ExprView::Field(Box::new((left, left_span)), (field, dot.span)),
                            Span { low: left_span.low, high: dot.span.high },
                            false,
                            min_precedence,
                        );
                    },
                    _ => {},
                }
            } else if infix is Binary {
                lemma_advance(state);
                let after = state.advance();
                lemma_expression(after, precedence + 1);
                let right = after.parse_expression(precedence + 1);
                lemma_infix(
                    right.2,
                    ExprView::Binary(
                        infix->Binary_0,
                        Box::new((left, left_span)),
                        Box::new((right.0, right.1)),
                    ),
                    Span { low: left_span.low, high: right.1.high },
                    parens,
                    min_precedence,
                );
            }
        },
    }
}

/// An expression up to its first infix operator is read forward.
pub proof fn lemma_prefix(state: State)
    requires
        state.wf(),
    ensures
        state.parse_prefix_expression().3.progresses(state),
    decreases state.measure(), 1int,
{
    lemma_advance(state);
    let next = state.advance();
    match state.current {
        Token::String(symbol) => {
            lemma_with_name(next.names, strip_quotes(state.names[symbol.0 as int]));
        },
        Token::OpenDelim(Delim::Paren) => {
            lemma_expression(next, 0);
            lemma_skip(next.parse_expression(0).2, Token::CloseDelim(Delim::Paren));
        },
        Token::Ident(_) => {},
        Token::Real(_) => {},
        _ => {
            if state.current is Keyword && names_value(state.current->Keyword_0) {
            } else if unary_of(state.current) is Some {
                lemma_term(next);
            }
        },
    }
}

/// The arguments of a call or of an index are read forward.
pub proof fn lemma_args(state: State, delim: Delim)
    requires
        state.wf(),
        state.current != Token::Eof,
    ensures
        state.parse_args(delim).2.progresses(state),
    decreases state.measure(), 2int,
{
    lemma_advance(state);
    lemma_args_items(state.advance(), delim);
    lemma_advance(state.advance().args_items(delim).1);
}

/// Expressions with commas between them are read forward.
pub proof fn lemma_args_items(state: State, delim: Delim)
    requires
        state.wf(),
    ensures
        state.args_items(delim).1.extends(state),
    decreases state.measure(), 6int,
{
    if !(state.current == Token::CloseDelim(delim) || state.current == Token::Eof) {
        lemma_expression(state, 0);
        let first = state.parse_expression(0);
        if first.2.current == Token::Comma {
            lemma_advance(first.2);
            lemma_args_items(first.2.advance(), delim);
        }
    }
}

/// An assignment or a call is read forward.
pub proof fn lemma_assign_or_invoke(state: State)
    requires
        state.wf(),
    ensures
        state.parse_assign_or_invoke().2.progresses(state),
{
    lemma_term(state);
    let left = state.parse_term();
    match left.0 {
        ExprView::Call(_, _) => {},
        _ => match assign_of(left.2.current) {
            None => {
                lemma_term(left.2.error(left.2.span, Message::ExpectedAssignment));
            },
            Some(_) => {
                lemma_advance(left.2);
                lemma_expression(left.2.advance(), 0);
            },
        },
    }
}

/// A `return` is read forward.
pub proof fn lemma_return(state: State)
    requires
        state.wf(),
        state.current != Token::Eof,
    ensures
        state.parse_return().2.progresses(state),
{
    lemma_advance(state);
    lemma_expression(state.advance(), 0);
}

/// A `case` or a `default` is read forward.
pub proof fn lemma_case(state: State)
    requires
        state.wf(),
        state.current != Token::Eof,
    ensures
        state.parse_case().2.progresses(state),
{
    lemma_advance(state);
    let start = state.advance();
    if state.current == Token::Keyword(Keyword::Case) {
        lemma_expression(start, 0);
        lemma_skip(start.parse_expression(0).2, Token::Colon);
    } else {
        lemma_skip(start, Token::Colon);
    }
}

/// A statement is read forward.
pub proof fn lemma_statement(state: State)
    requires
        state.wf(),
    ensures
        state.parse_statement().2.progresses(state),
    decreases state.measure(), 8int,
{
    let stmt = match state.current {
        Token::Keyword(Keyword::Var) | Token::Keyword(Keyword::GlobalVar) => {
            lemma_declare(state);
            state.parse_declare()
        },
        Token::OpenDelim(Delim::Brace) | Token::Keyword(Keyword::Begin) => {
            lemma_block(state);
            state.parse_block()
        },
        Token::Keyword(Keyword::If) => {
            lemma_if(state);
            state.parse_if()
        },
        Token::Keyword(Keyword::Repeat) => {
            lemma_repeat(state);
            state.parse_repeat()
        },
        Token::Keyword(Keyword::While) | Token::Keyword(Keyword::With) => {
            lemma_while_or_with(state);
            state.parse_while_or_with()
        },
        Token::Keyword(Keyword::Do) => {
            lemma_do(state);
            state.parse_do()
        },
        Token::Keyword(Keyword::For) => {
            lemma_for(state);
            state.parse_for()
        },
        Token::Keyword(Keyword::Switch) => {
            lemma_switch(state);
            state.parse_switch()
        },
        Token::Keyword(Keyword::Break) | Token::Keyword(Keyword::Continue) | Token::Keyword(
            Keyword::Exit,
        ) => {
            lemma_jump(state);
            state.parse_jump()
        },
        Token::Keyword(Keyword::Return) => {
            lemma_return(state);
            state.parse_return()
        },
        Token::Keyword(Keyword::Case) | Token::Keyword(Keyword::Default) => {
            lemma_case(state);
            state.parse_case()
        },
        _ => {
            lemma_assign_or_invoke(state);
            state.parse_assign_or_invoke()
        },
    };
    lemma_semicolons(stmt.2, stmt.1.high);
}

/// A block is read forward.
pub proof fn lemma_block(state: State)
    requires
        state.wf(),
    ensures
        state.parse_block().2.progresses(state),
    decreases state.measure(), 7int,
{
    lemma_advance(state);
    let open = state.advance();
    lemma_block_items(open);
    let items = open.block_items();
    if items.1.current == Token::Eof {
        lemma_error(items.1, items.1.span, Message::UnclosedBlock);
    } else {
        lemma_advance(items.1);
    }
}

/// The statements of a block are read forward.
pub proof fn lemma_block_items(state: State)
    requires
        state.wf(),
    ensures
        state.block_items().1.extends(state),
    decreases state.measure(), (if state.current == Token::Eof { 0int } else { 9int }),
{
    if !(state.current == Token::CloseDelim(Delim::Brace) || state.current == Token::Keyword(
        Keyword::End,
    ) || state.current == Token::Eof) {
        lemma_statement(state);
        lemma_block_items(state.parse_statement().2);
    }
}

/// An `if` is read forward.
pub proof fn lemma_if(state: State)
    requires
        state.wf(),
        state.current != Token::Eof,
    ensures
        state.parse_if().2.progresses(state),
    decreases state.measure(), 7int,
{
    lemma_advance(state);
    let start = state.advance();
    lemma_expression(start, 0);
    let cond = start.parse_expression(0);
    lemma_skip(cond.2, Token::Keyword(Keyword::Then));
    let then_at = cond.2.skip(Token::Keyword(Keyword::Then));
    lemma_statement(then_at);
    let then = then_at.parse_statement();
    if then.2.current == Token::Keyword(Keyword::Else) {
        lemma_advance(then.2);
        lemma_statement(then.2.advance());
    }
}

/// A `repeat` is read forward.
pub proof fn lemma_repeat(state: State)
    requires
        state.wf(),
        state.current != Token::Eof,
    ensures
        state.parse_repeat().2.progresses(state),
    decreases state.measure(), 7int,
{
    lemma_advance(state);
    let start = state.advance();
    lemma_expression(start, 0);
    lemma_statement(start.parse_expression(0).2);
}

/// A `while` or a `with` is read forward.
pub proof fn lemma_while_or_with(state: State)
    requires
        state.wf(),
        state.current != Token::Eof,
    ensures
        state.parse_while_or_with().2.progresses(state),
    decreases state.measure(), 7int,
{
    lemma_advance(state);
    let start = state.advance();
    lemma_expression(start, 0);
    let head = start.parse_expression(0);
    lemma_skip(head.2, Token::Keyword(Keyword::Do));
    lemma_statement(head.2.skip(Token::Keyword(Keyword::Do)));
}

/// A `do` is read forward.
pub proof fn lemma_do(state: State)
    requires
        state.wf(),
        state.current != Token::Eof,
    ensures
        state.parse_do().2.progresses(state),
    decreases state.measure(), 7int,
{
    lemma_advance(state);
    let start = state.advance();
    lemma_statement(start);
    let body = start.parse_statement();
    lemma_skip(body.2, Token::Keyword(Keyword::Until));
    lemma_expression(body.2.expect(Token::Keyword(Keyword::Until)), 0);
}

/// A `for` is read forward.
pub proof fn lemma_for(state: State)
    requires
        state.wf(),
        state.current != Token::Eof,
    ensures
        state.parse_for().2.progresses(state),
    decreases state.measure(), 7int,
{
    lemma_advance(state);
    lemma_skip(state.advance(), Token::OpenDelim(Delim::Paren));
    let start = state.advance().expect(Token::OpenDelim(Delim::Paren));
    lemma_statement(start);
    let init = start.parse_statement();
    lemma_expression(init.2, 0);
    let cond = init.2.parse_expression(0);
    lemma_skip(cond.2, Token::Semicolon);
    let next_at = cond.2.skip(Token::Semicolon);
    lemma_statement(next_at);
    let next = next_at.parse_statement();
    lemma_skip(next.2, Token::CloseDelim(Delim::Paren));
    lemma_statement(next.2.expect(Token::CloseDelim(Delim::Paren)));
}

/// A `switch` is read forward.
pub proof fn lemma_switch(state: State)
    requires
        state.wf(),
        state.current != Token::Eof,
    ensures
        state.parse_switch().2.progresses(state),
    decreases state.measure(), 7int,
{
    lemma_advance(state);
    let start = state.advance();
    lemma_expression(start, 0);
    let scrutinee = start.parse_expression(0);
    let body_at = if scrutinee.2.current != Token::OpenDelim(Delim::Brace) && scrutinee.2.current
        != Token::Keyword(Keyword::Begin) {
        scrutinee.2.error(scrutinee.2.span, Message::ExpectedOpenBrace)
    } else {
        scrutinee.2
    };
    lemma_error(scrutinee.2, scrutinee.2.span, Message::ExpectedOpenBrace);
    lemma_block(body_at);
}

/// The statements of a program are read forward.
pub proof fn lemma_program_items(state: State, high: usize)
    requires
        state.wf(),
    ensures
        state.program_items(high).2.extends(state),
    decreases state.measure(),
{
    if state.current != Token::Eof {
        lemma_statement(state);
        let first = state.parse_statement();
        lemma_program_items(first.2, first.1.high);
    }
}

/// A parser goes forward and keeps what it has: whatever the source holds, the state after a
/// program has been parsed comes after the state before. The source is the same, and every
/// name and every diagnostic is kept.
pub proof fn lemma_program(state: State)
    requires
        state.wf(),
    ensures
        state.parse_program().2.extends(state),
{
    if state.current == Token::OpenDelim(Delim::Brace) {
        lemma_statement(state);
    } else {
        lemma_program_items(state, state.span.low);
    }
}

/// Whether a span is a range of a text of `len` bytes.
pub open spec fn in_text(span: Span, len: int) -> bool {
    span.low <= span.high <= len
}

/// Whether a span lies between the token that `from` looks at and the place where `to`
/// stands.
pub open spec fn between(span: Span, from: State, to: State) -> bool {
    from.span.low <= span.low <= span.high <= to.position
}

impl ExprView {
    /// Whether every span in the tree is a range of a text of `len` bytes.
    pub open spec fn placed(self, len: int) -> bool
        decreases self,
    {
        match self {
            ExprView::Value(_) => true,
            ExprView::Unary(_, arg) => in_text(arg.1, len) && arg.0.placed(len),
            ExprView::Binary(_, left, right) => in_text(left.1, len) && left.0.placed(len)
                && in_text(right.1, len) && right.0.placed(len),
            ExprView::Field(of, field) => in_text(of.1, len) && of.0.placed(len) && in_text(
                field.1,
                len,
            ),
            ExprView::Index(of, args) => in_text(of.1, len) && of.0.placed(len) && forall|i: int|
                0 <= i < args.len() ==> in_text((#[trigger] args[i]).1, len) && args[i].0.placed(
                    len,
                ),
            ExprView::Call(function, args) => in_text(function.1, len) && function.0.placed(len)
                && forall|i: int|
                0 <= i < args.len() ==> in_text((#[trigger] args[i]).1, len) && args[i].0.placed(
                    len,
                ),
        }
    }
}

/// Whether every span in a list of expressions is a range of a text of `len` bytes.
pub open spec fn exprs_placed(exprs: Seq<(ExprView, Span)>, len: int) -> bool {
    forall|i: int|
        0 <= i < exprs.len() ==> in_text((#[trigger] exprs[i]).1, len) && exprs[i].0.placed(len)
}

impl StmtView {
    /// Whether every span in the tree is a range of a text of `len` bytes.
    pub open spec fn placed(self, len: int) -> bool
        decreases self,
    {
        match self {
            StmtView::Assign(_, left, right) => in_text(left.1, len) && left.0.placed(len)
                && in_text(right.1, len) && right.0.placed(len),
            StmtView::Invoke(function, args) => in_text(function.1, len) && function.0.placed(len)
                && exprs_placed(args, len),
            StmtView::Declare(_, names) => forall|i: int|
                0 <= i < names.len() ==> in_text((#[trigger] names[i]).1, len),
            StmtView::Block(stmts) => forall|i: int|
                0 <= i < stmts.len() ==> in_text((#[trigger] stmts[i]).1, len) && stmts[i].0.placed(
                    len,
                ),
            StmtView::If(cond, then, otherwise) => in_text(cond.1, len) && cond.0.placed(len)
                && in_text(then.1, len) && then.0.placed(len) && (otherwise matches Some(stmt)
                ==> in_text(stmt.1, len) && stmt.0.placed(len)),
            StmtView::Repeat(count, body) => in_text(count.1, len) && count.0.placed(len)
                && in_text(body.1, len) && body.0.placed(len),
            StmtView::While(cond, body) => in_text(cond.1, len) && cond.0.placed(len) && in_text(
                body.1,
                len,
            ) && body.0.placed(len),
            StmtView::With(scope, body) => in_text(scope.1, len) && scope.0.placed(len)
                && in_text(body.1, len) && body.0.placed(len),
            StmtView::Do(body, cond) => in_text(body.1, len) && body.0.placed(len) && in_text(
                cond.1,
                len,
            ) && cond.0.placed(len),
            StmtView::For(init, cond, next, body) => in_text(init.1, len) && init.0.placed(len)
                && in_text(cond.1, len) && cond.0.placed(len) && in_text(next.1, len)
                && next.0.placed(len) && in_text(body.1, len) && body.0.placed(len),
            StmtView::Switch(scrutinee, stmts) => in_text(scrutinee.1, len)
                && scrutinee.0.placed(len) && forall|i: int|
                0 <= i < stmts.len() ==> in_text((#[trigger] stmts[i]).1, len) && stmts[i].0.placed(
                    len,
                ),
            StmtView::Jump(_) => true,
            StmtView::Return(value) => in_text(value.1, len) && value.0.placed(len),
            StmtView::Case(label) => label matches Some(expr) ==> in_text(expr.1, len)
                && expr.0.placed(len),
            StmtView::Error(expr) => expr.placed(len),
        }
    }
}

/// Whether every span in a list of statements is a range of a text of `len` bytes.
pub open spec fn stmts_placed(stmts: Seq<(StmtView, Span)>, len: int) -> bool {
    forall|i: int|
        0 <= i < stmts.len() ==> in_text((#[trigger] stmts[i]).1, len) && stmts[i].0.placed(len)
}

/// The end that the semicolons give is that of a span.
pub proof fn lemma_semicolons_span(state: State, high: usize)
    requires
        state.wf(),
        high <= state.position,
    ensures
        high <= state.semicolons(high).0 <= state.semicolons(high).1.position,
    decreases state.measure(),
{
    lemma_semicolons(state, high);
    if state.current == Token::Semicolon {
        lemma_advance(state);
        lemma_semicolons_span(state.advance(), state.span.high);
    }
}

/// The names of a declaration have spans in the text.
pub proof fn lemma_declare_items_span(state: State)
    requires
        state.wf(),
    ensures
        forall|i: int|
            0 <= i < state.declare_items().0.len() ==> in_text(
                (#[trigger] state.declare_items().0[i]).1,
                state.source.len() as int,
            ),
    decreases state.measure(),
{
    if state.current is Ident {
        lemma_advance(state);
        lemma_advance(state.advance());
        let rest = state.advance().skip(Token::Comma);
        lemma_declare_items_span(rest);
        let first = seq![(state.current->Ident_0, state.span)];
        let all = state.declare_items().0;
        assert forall|i: int| 0 <= i < all.len() implies in_text(
            (#[trigger] all[i]).1,
            state.source.len() as int,
        ) by {
            if i > 0 {
                assert(all[i] == rest.declare_items().0[i - 1]);
            }
        }
    }
}

/// A term has its spans in the text.
pub proof fn lemma_term_span(state: State)
    requires
        state.wf(),
    ensures
        state.parse_term().0.placed(state.source.len() as int),
        between(state.parse_term().1, state, state.parse_term().2),
    decreases state.measure(), 5int,
{
    lemma_expression_span(state, 7);
}

/// An expression has its spans in the text, and its own span between the token it starts
/// with and the place where the parser stops.
pub proof fn lemma_expression_span(state: State, min_precedence: nat)
    requires
        state.wf(),
    ensures
        state.parse_expression(min_precedence).0.placed(state.source.len() as int),
        between(
            state.parse_expression(min_precedence).1,
            state,
            state.parse_expression(min_precedence).2,
        ),
    decreases state.measure(), 4int,
{
    lemma_prefix(state);
    lemma_prefix_span(state);
    let left = state.parse_prefix_expression();
    lemma_infix_span(left.3, left.0, left.1, left.2, min_precedence);
}

/// What follows an expression keeps the spans in the text.
pub proof fn lemma_infix_span(
    state: State,
    left: ExprView,
    left_span: Span,
    parens: bool,
    min_precedence: nat,
)
    requires
        state.wf(),
        left.placed(state.source.len() as int),
        left_span.low <= left_span.high <= state.position,
    ensures
        state.parse_infix(left, left_span, parens, min_precedence).0.placed(
            state.source.len() as int,
        ),
        state.parse_infix(left, left_span, parens, min_precedence).1.low == left_span.low,
        left_span.low <= state.parse_infix(left, left_span, parens, min_precedence).1.high
            <= state.parse_infix(left, left_span, parens, min_precedence).2.position,
    decreases state.measure(), 3int,
{
    let len = state.source.len() as int;
    lemma_infix(state, left, left_span, parens, min_precedence);
    match infix_of(state.current) {
        None => {},
        Some((infix, precedence)) => {
            if precedence < min_precedence {
            } else if infix == Infix::Call && left is Value && left->Value_0 is Ident {
                lemma_args(state, Delim::Paren);
                lemma_args_span(state, Delim::Paren);
                let args = state.parse_args(Delim::Paren);
                let call = ExprView::Call(Box::new((left, left_span)), args.0);
                assert(call.placed(len));
                lemma_infix_span(
                    args.2,
                    call,
                    Span { low: left_span.low, high: args.1 },
                    true,
                    min_precedence,
                );
            } else if infix == Infix::Index && !parens && ((left is Value && left->Value_0
                is Ident) || left is Field) {
                lemma_args(state, Delim::Bracket);
                lemma_args_span(state, Delim::Bracket);
                let args = state.parse_args(Delim::Bracket);
                let index = ExprView::Index(Box::new((left, left_span)), args.0);
                assert(index.placed(len));
                lemma_infix_span(
                    args.2,
                    index,
                    Span { low: left_span.low, high: args.1 },
                    false,
                    min_precedence,
                );
            } else if infix == Infix::Field && ((left is Value && left->Value_0 is Ident)
                || left is Field || left is Index) {
                lemma_advance(state);
                let dot = state.advance();
                lemma_advance(dot);
                match dot.current {
                    Token::Ident(field) => {
                        lemma_infix_span(
                            dot.advance(),
                            ExprView::Field(Box::new((left, left_span)), (field, dot.span)),
                            Span { low: left_span.low, high: dot.span.high },
                            false,
                            min_precedence,
                        );
                    },
                    _ => {},
                }
            } else if infix is Binary {
                lemma_advance(state);
                let after = state.advance();
                lemma_expression(after, precedence + 1);
                lemma_expression_span(after, precedence + 1);
                let right = after.parse_expression(precedence + 1);
                lemma_infix_span(
                    right.2,
                    ExprView::Binary(
                        infix->Binary_0,
                        Box::new((left, left_span)),
                        Box::new((right.0, right.1)),
                    ),
                    Span { low: left_span.low, high: right.1.high },
                    parens,
                    min_precedence,
                );
            }
        },
    }
}

/// An expression up to its first infix operator has its spans in the text.
pub proof fn lemma_prefix_span(state: State)
    requires
        state.wf(),
    ensures
        state.parse_prefix_expression().0.placed(state.source.len() as int),
        between(
            state.parse_prefix_expression().1,
            state,
            state.parse_prefix_expression().3,
        ),
    decreases state.measure(), 1int,
{
    lemma_prefix(state);
    lemma_advance(state);
    let next = state.advance();
    match state.current {
        Token::OpenDelim(Delim::Paren) => {
            lemma_expression(next, 0);
            lemma_expression_span(next, 0);
            lemma_skip(next.parse_expression(0).2, Token::CloseDelim(Delim::Paren));
        },
        Token::Ident(_) => {},
        Token::Real(_) => {},
        Token::String(_) => {},
        _ => {
            if state.current is Keyword && names_value(state.current->Keyword_0) {
            } else if unary_of(state.current) is Some {
                lemma_term(next);
                lemma_term_span(next);
            }
        },
    }
}

/// The arguments of a call or of an index have their spans in the text, and end inside it.
pub proof fn lemma_args_span(state: State, delim: Delim)
    requires
        state.wf(),
        state.current != Token::Eof,
    ensures
        exprs_placed(state.parse_args(delim).0, state.source.len() as int),
        state.position <= state.parse_args(delim).1 <= state.parse_args(delim).2.position,
    decreases state.measure(), 2int,
{
    lemma_args(state, delim);
    lemma_advance(state);
    lemma_args_items(state.advance(), delim);
    lemma_args_items_span(state.advance(), delim);
    lemma_advance(state.advance().args_items(delim).1);
}

/// Expressions with commas between them have their spans in the text.
pub proof fn lemma_args_items_span(state: State, delim: Delim)
    requires
        state.wf(),
    ensures
        exprs_placed(state.args_items(delim).0, state.source.len() as int),
    decreases state.measure(), 6int,
{
    let len = state.source.len() as int;
    if !(state.current == Token::CloseDelim(delim) || state.current == Token::Eof) {
        lemma_expression(state, 0);
        lemma_expression_span(state, 0);
        let first = state.parse_expression(0);
        if first.2.current == Token::Comma {
            lemma_advance(first.2);
            lemma_args_items_span(first.2.advance(), delim);
            let rest = first.2.advance().args_items(delim).0;
            let all = state.args_items(delim).0;
            assert forall|i: int| 0 <= i < all.len() implies in_text((#[trigger] all[i]).1, len)
                && all[i].0.placed(len) by {
                if i > 0 {
                    assert(all[i] == rest[i - 1]);
                }
            }
        }
    }
}

/// An assignment or a call has its spans in the text.
pub proof fn lemma_assign_or_invoke_span(state: State)
    requires
        state.wf(),
    ensures
        state.parse_assign_or_invoke().0.placed(state.source.len() as int),
        between(state.parse_assign_or_invoke().1, state, state.parse_assign_or_invoke().2),
{
    lemma_assign_or_invoke(state);
    lemma_term(state);
    lemma_term_span(state);
    let left = state.parse_term();
    match left.0 {
        ExprView::Call(_, _) => {},
        _ => match assign_of(left.2.current) {
            None => {
                let reported = left.2.error(left.2.span, Message::ExpectedAssignment);
                lemma_term(reported);
                lemma_term_span(reported);
            },
            Some(_) => {
                lemma_advance(left.2);
                lemma_expression(left.2.advance(), 0);
                lemma_expression_span(left.2.advance(), 0);
            },
        },
    }
}

/// A statement has its spans in the text, and its own span between the token it starts with
/// and the place where the parser stops.
pub proof fn lemma_statement_span(state: State)
    requires
        state.wf(),
    ensures
        state.parse_statement().0.placed(state.source.len() as int),
        between(state.parse_statement().1, state, state.parse_statement().2),
    decreases state.measure(), 8int,
{
    lemma_statement(state);
    let stmt = match state.current {
        Token::Keyword(Keyword::Var) | Token::Keyword(Keyword::GlobalVar) => {
            lemma_declare(state);
            lemma_advance(state);
            lemma_declare_items(state.advance());
            lemma_declare_items_span(state.advance());
            lemma_skip(state.advance().declare_items().1, Token::Semicolon);
            state.parse_declare()
        },
        Token::OpenDelim(Delim::Brace) | Token::Keyword(Keyword::Begin) => {
            lemma_block(state);
            lemma_block_span(state);
            state.parse_block()
        },
        Token::Keyword(Keyword::If) => {
            lemma_if(state);
            lemma_if_span(state);
            state.parse_if()
        },
        Token::Keyword(Keyword::Repeat) => {
            lemma_repeat(state);
            lemma_repeat_span(state);
            state.parse_repeat()
        },
        Token::Keyword(Keyword::While) | Token::Keyword(Keyword::With) => {
            lemma_while_or_with(state);
            lemma_while_or_with_span(state);
            state.parse_while_or_with()
        },
        Token::Keyword(Keyword::Do) => {
            lemma_do(state);
            lemma_do_span(state);
            state.parse_do()
        },
        Token::Keyword(Keyword::For) => {
            lemma_for(state);
            lemma_for_span(state);
            state.parse_for()
        },
        Token::Keyword(Keyword::Switch) => {
            lemma_switch(state);
            lemma_switch_span(state);
            state.parse_switch()
        },
        Token::Keyword(Keyword::Break) | Token::Keyword(Keyword::Continue) | Token::Keyword(
            Keyword::Exit,
        ) => {
            lemma_jump(state);
            lemma_advance(state);
            state.parse_jump()
        },
        Token::Keyword(Keyword::Return) => {
            lemma_return(state);
            lemma_advance(state);
            lemma_expression(state.advance(), 0);
            lemma_expression_span(state.advance(), 0);
            state.parse_return()
        },
        Token::Keyword(Keyword::Case) | Token::Keyword(Keyword::Default) => {
            lemma_case(state);
            lemma_advance(state);
            if state.current == Token::Keyword(Keyword::Case) {
                lemma_expression(state.advance(), 0);
                lemma_expression_span(state.advance(), 0);
                lemma_skip(state.advance().parse_expression(0).2, Token::Colon);
            } else {
                lemma_skip(state.advance(), Token::Colon);
            }
            state.parse_case()
        },
        _ => {
            lemma_assign_or_invoke(state);
            lemma_assign_or_invoke_span(state);
            state.parse_assign_or_invoke()
        },
    };
    lemma_semicolons_span(stmt.2, stmt.1.high);
}

/// A block has its spans in the text.
pub proof fn lemma_block_span(state: State)
    requires
        state.wf(),
    ensures
        state.parse_block().0.placed(state.source.len() as int),
        between(state.parse_block().1, state, state.parse_block().2),
    decreases state.measure(), 7int,
{
    lemma_block(state);
    lemma_advance(state);
    let open = state.advance();
    lemma_block_items(open);
    lemma_block_items_span(open);
    let items = open.block_items();
    if items.1.current != Token::Eof {
        lemma_advance(items.1);
    }
}

/// The statements of a block have their spans in the text.
pub proof fn lemma_block_items_span(state: State)
    requires
        state.wf(),
    ensures
        stmts_placed(state.block_items().0, state.source.len() as int),
    decreases state.measure(), (if state.current == Token::Eof { 0int } else { 9int }),
{
    let len = state.source.len() as int;
    if !(state.current == Token::CloseDelim(Delim::Brace) || state.current == Token::Keyword(
        Keyword::End,
    ) || state.current == Token::Eof) {
        lemma_statement(state);
        lemma_statement_span(state);
        let first = state.parse_statement();
        lemma_block_items_span(first.2);
        let rest = first.2.block_items().0;
        let all = state.block_items().0;
        assert forall|i: int| 0 <= i < all.len() implies in_text((#[trigger] all[i]).1, len)
            && all[i].0.placed(len) by {
            if i > 0 {
                assert(all[i] == rest[i - 1]);
            }
        }
    }
}

/// An `if` has its spans in the text.
pub proof fn lemma_if_span(state: State)
    requires
        state.wf(),
        state.current != Token::Eof,
    ensures
        state.parse_if().0.placed(state.source.len() as int),
        between(state.parse_if().1, state, state.parse_if().2),
    decreases state.measure(), 7int,
{
    lemma_if(state);
    lemma_advance(state);
    let start = state.advance();
    lemma_expression(start, 0);
    lemma_expression_span(start, 0);
    let cond = start.parse_expression(0);
    lemma_skip(cond.2, Token::Keyword(Keyword::Then));
    let then_at = cond.2.skip(Token::Keyword(Keyword::Then));
    lemma_statement(then_at);
    lemma_statement_span(then_at);
    let then = then_at.parse_statement();
    if then.2.current == Token::Keyword(Keyword::Else) {
        lemma_advance(then.2);
        lemma_statement(then.2.advance());
        lemma_statement_span(then.2.advance());
    }
}

/// A `repeat` has its spans in the text.
pub proof fn lemma_repeat_span(state: State)
    requires
        state.wf(),
        state.current != Token::Eof,
    ensures
        state.parse_repeat().0.placed(state.source.len() as int),
        between(state.parse_repeat().1, state, state.parse_repeat().2),
    decreases state.measure(), 7int,
{
    lemma_repeat(state);
    lemma_advance(state);
    let start = state.advance();
    lemma_expression(start, 0);
    lemma_expression_span(start, 0);
    lemma_statement(start.parse_expression(0).2);
    lemma_statement_span(start.parse_expression(0).2);
}

/// A `while` or a `with` has its spans in the text.
pub proof fn lemma_while_or_with_span(state: State)
    requires
        state.wf(),
        state.current != Token::Eof,
    ensures
        state.parse_while_or_with().0.placed(state.source.len() as int),
        between(state.parse_while_or_with().1, state, state.parse_while_or_with().2),
    decreases state.measure(), 7int,
{
    lemma_while_or_with(state);
    lemma_advance(state);
    let start = state.advance();
    lemma_expression(start, 0);
    lemma_expression_span(start, 0);
    let head = start.parse_expression(0);
    lemma_skip(head.2, Token::Keyword(Keyword::Do));
    lemma_statement(head.2.skip(Token::Keyword(Keyword::Do)));
    lemma_statement_span(head.2.skip(Token::Keyword(Keyword::Do)));
}

/// A `do` has its spans in the text.
pub proof fn lemma_do_span(state: State)
    requires
        state.wf(),
        state.current != Token::Eof,
    ensures
        state.parse_do().0.placed(state.source.len() as int),
        between(state.parse_do().1, state, state.parse_do().2),
    decreases state.measure(), 7int,
{
    lemma_do(state);
    lemma_advance(state);
    let start = state.advance();
    lemma_statement(start);
    lemma_statement_span(start);
    let body = start.parse_statement();
    lemma_skip(body.2, Token::Keyword(Keyword::Until));
    lemma_expression(body.2.expect(Token::Keyword(Keyword::Until)), 0);
    lemma_expression_span(body.2.expect(Token::Keyword(Keyword::Until)), 0);
}

/// A `for` has its spans in the text.
pub proof fn lemma_for_span(state: State)
    requires
        state.wf(),
        state.current != Token::Eof,
    ensures
        state.parse_for().0.placed(state.source.len() as int),
        between(state.parse_for().1, state, state.parse_for().2),
    decreases state.measure(), 7int,
{
    lemma_for(state);
    lemma_advance(state);
    lemma_skip(state.advance(), Token::OpenDelim(Delim::Paren));
    let start = state.advance().expect(Token::OpenDelim(Delim::Paren));
    lemma_statement(start);
    lemma_statement_span(start);
    let init = start.parse_statement();
    lemma_expression(init.2, 0);
    lemma_expression_span(init.2, 0);
    let cond = init.2.parse_expression(0);
    lemma_skip(cond.2, Token::Semicolon);
    let next_at = cond.2.skip(Token::Semicolon);
    lemma_statement(next_at);
    lemma_statement_span(next_at);
    let next = next_at.parse_statement();
    lemma_skip(next.2, Token::CloseDelim(Delim::Paren));
    lemma_statement(next.2.expect(Token::CloseDelim(Delim::Paren)));
    lemma_statement_span(next.2.expect(Token::CloseDelim(Delim::Paren)));
}

/// A `switch` has its spans in the text.
pub proof fn lemma_switch_span(state: State)
    requires
        state.wf(),
        state.current != Token::Eof,
    ensures
        state.parse_switch().0.placed(state.source.len() as int),
        between(state.parse_switch().1, state, state.parse_switch().2),
    decreases state.measure(), 7int,
{
    lemma_switch(state);
    lemma_advance(state);
    let start = state.advance();
    lemma_expression(start, 0);
    lemma_expression_span(start, 0);
    let scrutinee = start.parse_expression(0);
    let body_at = if scrutinee.2.current != Token::OpenDelim(Delim::Brace) && scrutinee.2.current
        != Token::Keyword(Keyword::Begin) {
        scrutinee.2.error(scrutinee.2.span, Message::ExpectedOpenBrace)
    } else {
        scrutinee.2
    };
    lemma_error(scrutinee.2, scrutinee.2.span, Message::ExpectedOpenBrace);
    lemma_block(body_at);
    lemma_block_span(body_at);
}

/// The statements of a program have their spans in the text, and end inside it, after
/// `low` where the program starts after `low`.
pub proof fn lemma_program_items_span(state: State, high: usize, low: int)
    requires
        state.wf(),
        low <= high <= state.position,
        low <= state.span.low,
    ensures
        stmts_placed(state.program_items(high).0, state.source.len() as int),
        low <= state.program_items(high).1 <= state.program_items(high).2.position,
    decreases state.measure(),
{
    let len = state.source.len() as int;
    lemma_program_items(state, high);
    if state.current != Token::Eof {
        lemma_statement(state);
        lemma_statement_span(state);
        let first = state.parse_statement();
        lemma_program_items(first.2, first.1.high);
        lemma_program_items_span(first.2, first.1.high, low);
        let rest = first.2.program_items(first.1.high).0;
        let all = state.program_items(high).0;
        assert forall|i: int| 0 <= i < all.len() implies in_text((#[trigger] all[i]).1, len)
            && all[i].0.placed(len) by {
            if i > 0 {
                assert(all[i] == rest[i - 1]);
            }
        }
    }
}

/// Every span is a range of the source: in the tree of a program, whatever the source holds,
/// every span has its low end before its high end, and its high end inside the source. So has
/// the span of the program.
pub proof fn lemma_program_span(state: State)
    requires
        state.wf(),
    ensures
        state.parse_program().0.placed(state.source.len() as int),
        in_text(state.parse_program().1, state.source.len() as int),
{
    lemma_program(state);
    if state.current == Token::OpenDelim(Delim::Brace) {
        lemma_statement(state);
        lemma_statement_span(state);
    } else {
        lemma_program_items(state, state.span.low);
        lemma_program_items_span(state, state.span.low, state.span.low as int);
    }
}

impl ExprView {
    /// Whether the expression is a name.
    pub open spec fn is_name(self) -> bool {
        self is Value && self->Value_0 is Ident
    }

    /// Whether the tree has a form that the grammar gives: everywhere in it, what is called is
    /// a name, what is indexed is a name or a field, and what a field is taken of is a name, a
    /// field or an indexed value.
    pub open spec fn shaped(self) -> bool
        decreases self,
    {
        match self {
            ExprView::Value(_) => true,
            ExprView::Unary(_, arg) => arg.0.shaped(),
            ExprView::Binary(_, left, right) => left.0.shaped() && right.0.shaped(),
            ExprView::Field(of, _) => (of.0.is_name() || of.0 is Field || of.0 is Index)
                && of.0.shaped(),
            ExprView::Index(of, args) => (of.0.is_name() || of.0 is Field) && of.0.shaped()
                && forall|i: int| 0 <= i < args.len() ==> (#[trigger] args[i]).0.shaped(),
            ExprView::Call(function, args) => function.0.is_name() && forall|i: int|
                0 <= i < args.len() ==> (#[trigger] args[i]).0.shaped(),
        }
    }
}

/// Whether every expression of a list has a form that the grammar gives.
pub open spec fn exprs_shaped(exprs: Seq<(ExprView, Span)>) -> bool {
    forall|i: int| 0 <= i < exprs.len() ==> (#[trigger] exprs[i]).0.shaped()
}

impl StmtView {
    /// Whether the tree has a form that the grammar gives: every expression in it has, what
    /// is assigned to is no call, and what is invoked is a name.
    pub open spec fn shaped(self) -> bool
        decreases self,
    {
        match self {
            StmtView::Assign(_, left, right) => !(left.0 is Call) && left.0.shaped()
                && right.0.shaped(),
            StmtView::Invoke(function, args) => function.0.is_name() && exprs_shaped(args),
            StmtView::Declare(_, _) => true,
            StmtView::Block(stmts) => forall|i: int|
                0 <= i < stmts.len() ==> (#[trigger] stmts[i]).0.shaped(),
            StmtView::If(cond, then, otherwise) => cond.0.shaped() && then.0.shaped() && (
            otherwise matches Some(stmt) ==> stmt.0.shaped()),
            StmtView::Repeat(count, body) => count.0.shaped() && body.0.shaped(),
            StmtView::While(cond, body) => cond.0.shaped() && body.0.shaped(),
            StmtView::With(scope, body) => scope.0.shaped() && body.0.shaped(),
            StmtView::Do(body, cond) => body.0.shaped() && cond.0.shaped(),
            StmtView::For(init, cond, next, body) => init.0.shaped() && cond.0.shaped()
                && next.0.shaped() && body.0.shaped(),
            StmtView::Switch(scrutinee, stmts) => scrutinee.0.shaped() && forall|i: int|
                0 <= i < stmts.len() ==> (#[trigger] stmts[i]).0.shaped(),
            StmtView::Jump(_) => true,
            StmtView::Return(value) => value.0.shaped(),
            StmtView::Case(label) => label matches Some(expr) ==> expr.0.shaped(),
            StmtView::Error(expr) => expr.shaped(),
        }
    }
}

/// Whether every statement of a list has a form that the grammar gives.
pub open spec fn stmts_shaped(stmts: Seq<(StmtView, Span)>) -> bool {
    forall|i: int| 0 <= i < stmts.len() ==> (#[trigger] stmts[i]).0.shaped()
}

/// A term has a form that the grammar gives.
pub proof fn lemma_term_shape(state: State)
    requires
        state.wf(),
    ensures
        state.parse_term().0.shaped(),
    decreases state.measure(), 5int,
{
    lemma_expression_shape(state, 7);
}

/// An expression has a form that the grammar gives.
pub proof fn lemma_expression_shape(state: State, min_precedence: nat)
    requires
        state.wf(),
    ensures
        state.parse_expression(min_precedence).0.shaped(),
    decreases state.measure(), 4int,
{
    lemma_prefix(state);
    lemma_prefix_shape(state);
    let left = state.parse_prefix_expression();
    lemma_infix_shape(left.3, left.0, left.1, left.2, min_precedence);
}

/// What follows an expression keeps the form that the grammar gives.
pub proof fn lemma_infix_shape(
    state: State,
    left: ExprView,
    left_span: Span,
    parens: bool,
    min_precedence: nat,
)
    requires
        state.wf(),
        left.shaped(),
    ensures
        state.parse_infix(left, left_span, parens, min_precedence).0.shaped(),
    decreases state.measure(), 3int,
{
    match infix_of(state.current) {
        None => {},
        Some((infix, precedence)) => {
            if precedence < min_precedence {
            } else if infix == Infix::Call && left is Value && left->Value_0 is Ident {
                lemma_args(state, Delim::Paren);
                lemma_args_shape(state, Delim::Paren);
                let args = state.parse_args(Delim::Paren);
                let call = ExprView::Call(Box::new((left, left_span)), args.0);
                assert(call.shaped());
                lemma_infix_shape(
                    args.2,
                    call,
                    Span { low: left_span.low, high: args.1 },
                    true,
                    min_precedence,
                );
            } else if infix == Infix::Index && !parens && ((left is Value && left->Value_0
                is Ident) || left is Field) {
                lemma_args(state, Delim::Bracket);
                lemma_args_shape(state, Delim::Bracket);
                let args = state.parse_args(Delim::Bracket);
                let index = ExprView::Index(Box::new((left, left_span)), args.0);
                assert(index.shaped());
                lemma_infix_shape(
                    args.2,
                    index,
                    Span { low: left_span.low, high: args.1 },
                    false,
                    min_precedence,
                );
            } else if infix == Infix::Field && ((left is Value && left->Value_0 is Ident)
                || left is Field || left is Index) {
                lemma_advance(state);
                let dot = state.advance();
                lemma_advance(dot);
                match dot.current {
                    Token::Ident(field) => {
                        lemma_infix_shape(
                            dot.advance(),
                            ExprView::Field(Box::new((left, left_span)), (field, dot.span)),
                            Span { low: left_span.low, high: dot.span.high },
                            false,
                            min_precedence,
                        );
                    },
                    _ => {},
                }
            } else if infix is Binary {
                lemma_advance(state);
                let after = state.advance();
                lemma_expression(after, precedence + 1);
                lemma_expression_shape(after, precedence + 1);
                let right = after.parse_expression(precedence + 1);
                lemma_infix_shape(
                    right.2,
                    ExprView::Binary(
                        infix->Binary_0,
                        Box::new((left, left_span)),
                        Box::new((right.0, right.1)),
                    ),
                    Span { low: left_span.low, high: right.1.high },
                    parens,
                    min_precedence,
                );
            }
        },
    }
}

/// An expression up to its first infix operator has a form that the grammar gives.
pub proof fn lemma_prefix_shape(state: State)
    requires
        state.wf(),
    ensures
        state.parse_prefix_expression().0.shaped(),
    decreases state.measure(), 1int,
{
    lemma_advance(state);
    let next = state.advance();
    match state.current {
        Token::OpenDelim(Delim::Paren) => {
            lemma_expression_shape(next, 0);
        },
        Token::Ident(_) => {},
        Token::Real(_) => {},
        Token::String(_) => {},
        _ => {
            if state.current is Keyword && names_value(state.current->Keyword_0) {
            } else if unary_of(state.current) is Some {
                lemma_term_shape(next);
            }
        },
    }
}

/// The arguments of a call or of an index have forms that the grammar gives.
pub proof fn lemma_args_shape(state: State, delim: Delim)
    requires
        state.wf(),
        state.current != Token::Eof,
    ensures
        exprs_shaped(state.parse_args(delim).0),
    decreases state.measure(), 2int,
{
    lemma_advance(state);
    lemma_args_items_shape(state.advance(), delim);
}

/// Expressions with commas between them have forms that the grammar gives.
pub proof fn lemma_args_items_shape(state: State, delim: Delim)
    requires
        state.wf(),
    ensures
        exprs_shaped(state.args_items(delim).0),
    decreases state.measure(), 6int,
{
    if !(state.current == Token::CloseDelim(delim) || state.current == Token::Eof) {
        lemma_expression(state, 0);
        lemma_expression_shape(state, 0);
        let first = state.parse_expression(0);
        if first.2.current == Token::Comma {
            lemma_advance(first.2);
            lemma_args_items_shape(first.2.advance(), delim);
            let rest = first.2.advance().args_items(delim).0;
            let all = state.args_items(delim).0;
            assert forall|i: int| 0 <= i < all.len() implies (#[trigger] all[i]).0.shaped() by {
                if i > 0 {
                    assert(all[i] == rest[i - 1]);
                }
            }
        }
    }
}

/// An assignment or a call has a form that the grammar gives.
pub proof fn lemma_assign_or_invoke_shape(state: State)
    requires
        state.wf(),
    ensures
        state.parse_assign_or_invoke().0.shaped(),
{
    lemma_term(state);
    lemma_term_shape(state);
    let left = state.parse_term();
    match left.0 {
        ExprView::Call(_, _) => {},
        _ => match assign_of(left.2.current) {
            None => {
                lemma_term_shape(left.2.error(left.2.span, Message::ExpectedAssignment));
            },
            Some(_) => {
                lemma_advance(left.2);
                lemma_expression_shape(left.2.advance(), 0);
            },
        },
    }
}

/// A statement has a form that the grammar gives.
pub proof fn lemma_statement_shape(state: State)
    requires
        state.wf(),
    ensures
        state.parse_statement().0.shaped(),
    decreases state.measure(), 8int,
{
    lemma_advance(state);
    let start = state.advance();
    match state.current {
        Token::Keyword(Keyword::Var) | Token::Keyword(Keyword::GlobalVar) => {},
        Token::OpenDelim(Delim::Brace) | Token::Keyword(Keyword::Begin) => {
            lemma_block_shape(state);
        },
        Token::Keyword(Keyword::If) => {
            lemma_expression(start, 0);
            lemma_expression_shape(start, 0);
            let cond = start.parse_expression(0);
            lemma_skip(cond.2, Token::Keyword(Keyword::Then));
            let then_at = cond.2.skip(Token::Keyword(Keyword::Then));
            lemma_statement(then_at);
            lemma_statement_shape(then_at);
            let then = then_at.parse_statement();
            if then.2.current == Token::Keyword(Keyword::Else) {
                lemma_advance(then.2);
                lemma_statement_shape(then.2.advance());
            }
        },
        Token::Keyword(Keyword::Repeat) => {
            lemma_expression(start, 0);
            lemma_expression_shape(start, 0);
            lemma_statement_shape(start.parse_expression(0).2);
        },
        Token::Keyword(Keyword::While) | Token::Keyword(Keyword::With) => {
            lemma_expression(start, 0);
            lemma_expression_shape(start, 0);
            let head = start.parse_expression(0);
            lemma_skip(head.2, Token::Keyword(Keyword::Do));
            lemma_statement_shape(head.2.skip(Token::Keyword(Keyword::Do)));
        },
        Token::Keyword(Keyword::Do) => {
            lemma_statement(start);
            lemma_statement_shape(start);
            let body = start.parse_statement();
            lemma_skip(body.2, Token::Keyword(Keyword::Until));
            lemma_expression_shape(body.2.expect(Token::Keyword(Keyword::Until)), 0);
        },
        Token::Keyword(Keyword::For) => {
            lemma_skip(start, Token::OpenDelim(Delim::Paren));
            let first = start.expect(Token::OpenDelim(Delim::Paren));
            lemma_statement(first);
            lemma_statement_shape(first);
            let init = first.parse_statement();
            lemma_expression(init.2, 0);
            lemma_expression_shape(init.2, 0);
            let cond = init.2.parse_expression(0);
            lemma_skip(cond.2, Token::Semicolon);
            let next_at = cond.2.skip(Token::Semicolon);
            lemma_statement(next_at);
            lemma_statement_shape(next_at);
            let next = next_at.parse_statement();
            lemma_skip(next.2, Token::CloseDelim(Delim::Paren));
            lemma_statement_shape(next.2.expect(Token::CloseDelim(Delim::Paren)));
        },
        Token::Keyword(Keyword::Switch) => {
            lemma_expression(start, 0);
            lemma_expression_shape(start, 0);
            let scrutinee = start.parse_expression(0);
            lemma_error(scrutinee.2, scrutinee.2.span, Message::ExpectedOpenBrace);
            let body_at = if scrutinee.2.current != Token::OpenDelim(Delim::Brace)
                && scrutinee.2.current != Token::Keyword(Keyword::Begin) {
                scrutinee.2.error(scrutinee.2.span, Message::ExpectedOpenBrace)
            } else {
                scrutinee.2
            };
            lemma_block_shape(body_at);
        },
        Token::Keyword(Keyword::Break) | Token::Keyword(Keyword::Continue) | Token::Keyword(
            Keyword::Exit,
        ) => {},
        Token::Keyword(Keyword::Return) => {
            lemma_expression_shape(start, 0);
        },
        Token::Keyword(Keyword::Case) | Token::Keyword(Keyword::Default) => {
            lemma_expression_shape(start, 0);
        },
        _ => {
            lemma_assign_or_invoke_shape(state);
        },
    }
}

/// A block has a form that the grammar gives.
pub proof fn lemma_block_shape(state: State)
    requires
        state.wf(),
    ensures
        state.parse_block().0.shaped(),
    decreases state.measure(), 7int,
{
    lemma_advance(state);
    lemma_block_items_shape(state.advance());
}

/// The statements of a block have forms that the grammar gives.
pub proof fn lemma_block_items_shape(state: State)
    requires
        state.wf(),
    ensures
        stmts_shaped(state.block_items().0),
    decreases state.measure(), (if state.current == Token::Eof { 0int } else { 9int }),
{
    if !(state.current == Token::CloseDelim(Delim::Brace) || state.current == Token::Keyword(
        Keyword::End,
    ) || state.current == Token::Eof) {
        lemma_statement(state);
        lemma_statement_shape(state);
        let first = state.parse_statement();
        lemma_block_items_shape(first.2);
        let rest = first.2.block_items().0;
        let all = state.block_items().0;
        assert forall|i: int| 0 <= i < all.len() implies (#[trigger] all[i]).0.shaped() by {
            if i > 0 {
                assert(all[i] == rest[i - 1]);
            }
        }
    }
}

/// The statements of a program have forms that the grammar gives, and the parser reads them
/// to the end of the source.
pub proof fn lemma_program_items_shape(state: State, high: usize)
    requires
        state.wf(),
    ensures
        stmts_shaped(state.program_items(high).0),
        state.program_items(high).2.current == Token::Eof,
    decreases state.measure(),
{
    if state.current != Token::Eof {
        lemma_statement(state);
        lemma_statement_shape(state);
        let first = state.parse_statement();
        lemma_program_items_shape(first.2, first.1.high);
        let rest = first.2.program_items(first.1.high).0;
        let all = state.program_items(high).0;
        assert forall|i: int| 0 <= i < all.len() implies (#[trigger] all[i]).0.shaped() by {
            if i > 0 {
                assert(all[i] == rest[i - 1]);
            }
        }
    }
}

/// Trees have the forms of the grammar: in the tree of a program, whatever the source holds,
/// what is called is a name, what is indexed is a name or a field, what a field is taken of is
/// a name, a field or an indexed value, and what is assigned to is no call.
pub proof fn lemma_program_shape(state: State)
    requires
        state.wf(),
    ensures
        state.parse_program().0.shaped(),
{
    if state.current == Token::OpenDelim(Delim::Brace) {
        lemma_statement_shape(state);
    } else {
        lemma_program_items_shape(state, state.span.low);
    }
}

/// A program is read to its end: the parser stops at the end of the source, or has, for its
/// last diagnostic, that something follows the program.
pub proof fn lemma_program_end(state: State)
    requires
        state.wf(),
    ensures
        state.parse_program().2.current == Token::Eof || (state.parse_program().2.errors.len() > 0
            && state.parse_program().2.errors.last().message == Message::ExpectedEndOfFile),
        state.current != Token::OpenDelim(Delim::Brace) ==> state.parse_program().2.current
            == Token::Eof,
{
    if state.current != Token::OpenDelim(Delim::Brace) {
        lemma_program_items_shape(state, state.span.low);
    }
}

} // verus!
