//! The state of a parser as plain values, and the steps that every parsing function is made
//! of.

use crate::front::lexer::{lemma_lex, lex, token_symbol};
use crate::front::token::Token;
use crate::front::{Diagnostic, Message, Span};
use crate::symbol::{table_wf, with_name};
use vstd::prelude::*;

verus! {

/// The state of a parser as plain values.
pub struct State {
    /// The bytes of the source text.
    pub source: Seq<u8>,
    /// The number of bytes that have been read: the end of the current token.
    pub position: int,
    /// The token that the parser looks at.
    pub current: Token,
    /// The span of that token.
    pub span: Span,
    /// The table of names.
    pub names: Seq<Seq<u8>>,
    /// The diagnostics so far.
    pub errors: Seq<Diagnostic>,
}

impl State {
    /// Whether the state is one that a parser can be in.
    ///
    /// The position lies inside the source. The table of names is well formed and has room
    /// for the two symbols that every byte still unread may ask for, and for the one that a
    /// string token under inspection may. A symbol in the current token is in the table.
    /// The span of the current token ends at the position.
    pub open spec fn wf(self) -> bool {
        &&& 0 <= self.position <= self.source.len() <= usize::MAX
        &&& table_wf(self.names)
        &&& self.names.len() + 2 * (self.source.len() - self.position) + 1 + (if self.current
            is String {
            1int
        } else {
            0int
        }) <= u32::MAX
        &&& token_symbol(self.current) matches Some(symbol) ==> symbol.0 < self.names.len()
        &&& self.span.low <= self.span.high == self.position
    }

    /// How far the parser is from the end: two for each byte still unread, and one for a
    /// current token that is not `Eof`.
    pub open spec fn measure(self) -> nat {
        (2 * (self.source.len() - self.position) + (if self.current != Token::Eof {
            1int
        } else {
            0int
        })) as nat
    }

    /// Whether this state comes after `from` in the run of a parser: the source is the same,
    /// the position and the current token lie no further back, and every name and every
    /// diagnostic of `from` is kept.
    pub open spec fn extends(self, from: State) -> bool {
        &&& self.wf()
        &&& self.source == from.source
        &&& self.measure() <= from.measure()
        &&& from.position <= self.position
        &&& from.span.low <= self.span.low
        &&& from.names.len() <= self.names.len()
        &&& forall|i: int| 0 <= i < from.names.len() ==> self.names[i] == from.names[i]
        &&& from.errors.len() <= self.errors.len()
        &&& forall|i: int| 0 <= i < from.errors.len() ==> self.errors[i] == from.errors[i]
    }

    /// The state once the next token has been read in place of the current one.
    #[verifier::opaque]
    pub open spec fn advance(self) -> State {
        let read = lex(self.source, self.position, self.names, self.errors);
        State {
            source: self.source,
            position: read.position,
            current: read.token,
            span: read.span,
            names: read.names,
            errors: read.errors,
        }
    }

    /// The state with one more diagnostic.
    pub open spec fn error(self, span: Span, message: Message) -> State {
        State { errors: self.errors.push(Diagnostic { span, message }), ..self }
    }

    /// The state once `token` has been passed, where it is the current token.
    pub open spec fn skip(self, token: Token) -> State {
        if self.current == token {
            self.advance()
        } else {
            self
        }
    }

    /// The state once `token` has been passed, or once its absence has been reported.
    pub open spec fn expect(self, token: Token) -> State {
        if self.current == token {
            self.advance()
        } else {
            self.error(self.span, Message::ExpectedToken)
        }
    }

    /// The state with `name` interned.
    pub open spec fn intern(self, name: Seq<u8>) -> State {
        State { names: with_name(self.names, name), ..self }
    }

    /// The state at the end of the same source.
    pub open spec fn exhausted(self) -> State {
        State {
            position: self.source.len() as int,
            current: Token::Eof,
            span: Span { low: self.source.len() as usize, high: self.source.len() as usize },
            ..self
        }
    }

    /// This state, as one that comes after `from`: a parser never moves back.
    ///
    /// Were this state ill formed or before `from`, the result would be `from`; the laws of
    /// the parser show that no parsing function gives such a state.
    pub open spec fn following(self, from: State) -> State {
        if self.wf() && self.measure() <= from.measure() {
            self
        } else {
            from
        }
    }

    /// This state, as one that comes after `from` and is closer to the end: what was parsed
    /// in between held a token.
    ///
    /// Were it not so, the result would be the end of the source; the laws of the parser
    /// show that no parsing function gives such a state where `from` is not at the end.
    pub open spec fn past(self, from: State) -> State {
        if self.wf() && self.measure() < from.measure() {
            self
        } else {
            from.exhausted()
        }
    }
}

/// Reading a token keeps the state well formed and never moves away from the end; it moves
/// closer to it whenever the token passed or the token read is not `Eof`. The source stays,
/// older names keep their symbols, and older diagnostics stay.
pub proof fn lemma_advance(state: State)
    requires
        state.wf(),
    ensures
        state.advance().wf(),
        state.advance().extends(state),
        state.advance().source == state.source,
        state.advance().measure() <= state.measure(),
        state.current != Token::Eof ==> state.advance().measure() < state.measure(),
        state.advance().current != Token::Eof ==> state.advance().measure() < state.measure(),
        state.advance().current == Token::Eof ==> state.advance().measure() == 0,
        state.position <= state.advance().span.low,
        state.advance().span.high == state.advance().position,
        state.advance().errors.len() >= state.errors.len(),
        state.names.len() <= state.advance().names.len(),
        state.current is String ==> state.advance().names.len() + 2 * (state.source.len()
            - state.advance().position) + 2 + (if state.advance().current is String {
            1int
        } else {
            0int
        }) <= u32::MAX,
        forall|i: int| 0 <= i < state.names.len() ==> state.advance().names[i] == state.names[i],
{
    reveal(State::advance);
    lemma_lex(state.source, state.position, state.names, state.errors);
}

} // verus!
