//! The front end: spans and diagnostics, tokens, the lexer, the syntax tree and the parser.

pub mod ast;
pub mod laws;
pub mod lexer;
pub mod parser;
pub mod state;
pub mod token;

pub use self::lexer::Lexer;
pub use self::parser::Parser;


use vstd::prelude::*;

verus! {

/// A half-open range `[low, high)` of byte offsets into a source text.
#[derive(Clone, Copy, Debug, PartialEq, Eq, Hash, Structural)]
pub struct Span {
    pub low: usize,
    pub high: usize,
}

/// What a diagnostic complains of.
#[derive(Clone, Copy, Debug, PartialEq, Eq, Hash, Structural)]
pub enum Message {
    /// A byte that starts no token.
    UnexpectedCharacter,
    /// A `/*` without its `*/`.
    UnterminatedComment,
    /// An opening quote without its closing quote.
    UnterminatedString,
    /// Tokens after the end of the program.
    ExpectedEndOfFile,
    /// A statement that starts like an assignment and has no assignment operator.
    ExpectedAssignment,
    /// The end of the source inside a block.
    UnclosedBlock,
    /// A `switch` whose body does not start with `{`.
    ExpectedOpenBrace,
    /// A `.` that no identifier follows.
    ExpectedIdentifier,
    /// A `$` literal that is empty or does not fit 64 bits.
    InvalidInteger,
    /// A decimal literal with more digits than can be converted exactly.
    InvalidReal,
    /// A token that starts no expression.
    ExpectedExpression,
    /// An argument list that neither goes on with `,` nor closes.
    ExpectedCloseOrComma,
    /// A token other than the one the grammar asks for.
    ExpectedToken,
}

impl Message {
    /// The message as a line of text.
    pub open spec fn spec_text(self) -> Seq<char> {
        match self {
            Message::UnexpectedCharacter => "unexpected character"@,
            Message::UnterminatedComment => "unterminated comment"@,
            Message::UnterminatedString => "unterminated string"@,
            Message::ExpectedEndOfFile => "expected end of file"@,
            Message::ExpectedAssignment => "unexpected token; expected assignment operator"@,
            Message::UnclosedBlock => "unexpected end of file; expected }"@,
            Message::ExpectedOpenBrace => "unexpected token; expected {"@,
            Message::ExpectedIdentifier => "unexpected token; expected identifier"@,
            Message::InvalidInteger => "invalid integer literal"@,
            Message::InvalidReal => "invalid floating point literal"@,
            Message::ExpectedExpression => "unexpected token; expected expression"@,
            Message::ExpectedCloseOrComma => "unexpected token; expected closing delimiter or ,"@,
            Message::ExpectedToken => "unexpected token"@,
        }
    }

    /// The message as a line of text.
    pub fn text(self) -> (text: &'static str)
        ensures
            text@ == self.spec_text(),
    {
        match self {
            Message::UnexpectedCharacter => "unexpected character",
            Message::UnterminatedComment => "unterminated comment",
            Message::UnterminatedString => "unterminated string",
            Message::ExpectedEndOfFile => "expected end of file",
            Message::ExpectedAssignment => "unexpected token; expected assignment operator",
            Message::UnclosedBlock => "unexpected end of file; expected }",
            Message::ExpectedOpenBrace => "unexpected token; expected {",
            Message::ExpectedIdentifier => "unexpected token; expected identifier",
            Message::InvalidInteger => "invalid integer literal",
            Message::InvalidReal => "invalid floating point literal",
            Message::ExpectedExpression => "unexpected token; expected expression",
            Message::ExpectedCloseOrComma => "unexpected token; expected closing delimiter or ,",
            Message::ExpectedToken => "unexpected token",
        }
    }
}

/// A complaint about a range of the source text.
#[derive(Clone, Copy, Debug, PartialEq, Eq, Hash, Structural)]
pub struct Diagnostic {
    pub span: Span,
    pub message: Message,
}

/// Collects the diagnostics of a run, in the order in which they were found.
pub struct ErrorHandler {
    errors: Vec<Diagnostic>,
}

impl View for ErrorHandler {
    type V = Seq<Diagnostic>;

    closed spec fn view(&self) -> Seq<Diagnostic> {
        self.errors@
    }
}

impl ErrorHandler {
    /// A handler that has seen no error.
    pub fn new() -> (handler: ErrorHandler)
        ensures
            handler@ == Seq::<Diagnostic>::empty(),
    {
        ErrorHandler { errors: Vec::new() }
    }

    /// Records one more diagnostic.
    pub fn error(&mut self, span: Span, message: Message)
        ensures
            final(self)@ == old(self)@.push(Diagnostic { span, message }),
    {
        self.errors.push(Diagnostic { span, message });
    }

    /// The number of diagnostics recorded.
    pub fn len(&self) -> (len: usize)
        ensures
            len == self@.len(),
    {
        self.errors.len()
    }

    /// The diagnostic recorded at position `index`.
    pub fn get(&self, index: usize) -> (diagnostic: Diagnostic)
        requires
            index < self@.len(),
        ensures
            diagnostic == self@[index as int],
    {
        self.errors[index]
    }

    /// The diagnostics recorded, oldest first.
    pub fn into_vec(self) -> (errors: Vec<Diagnostic>)
        ensures
            errors@ == self@,
    {
        self.errors
    }
}

} // verus!
