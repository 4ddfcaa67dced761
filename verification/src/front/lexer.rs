//! The lexer: what the tokens of a source text are, and a reader that gives them one by one.

use crate::ascii::{
    AMPERSAND, BANG, CARET, CARRIAGE_RETURN, CLOSE_BRACE, CLOSE_BRACKET, CLOSE_PAREN, COLON,
    COMMA, DIGIT_0, DIGIT_9, DOLLAR, DOT, DOUBLE_QUOTE, EQUALS, GREATER, HASH, LESS, LOWER_A,
    LOWER_F, LOWER_Z, MINUS, NEWLINE, OPEN_BRACE, OPEN_BRACKET, OPEN_PAREN, PIPE, PLUS,
    SEMICOLON, SINGLE_QUOTE, SLASH, SPACE, STAR, TAB, TILDE, UNDERSCORE, UPPER_A, UPPER_F,
    UPPER_Z,
};
use crate::front::token::{BinOp, Delim, Token};
use crate::front::{Diagnostic, ErrorHandler, Message, Span};
use crate::symbol::{
    keyword_of, lemma_with_name, symbol_of, table_wf, with_name, Interner, Keyword, Symbol,
};
use vstd::prelude::*;
use vstd::slice::slice_subrange;
use vstd::string::StringSliceAdditionalSpecFns;

verus! {

/// A set of bytes that a run of the source may be made of.
#[derive(Clone, Copy, Debug, PartialEq, Eq, Structural)]
pub enum Class {
    /// Blanks, tabs and line ends.
    Space,
    /// The decimal digits.
    Digit,
    /// The hexadecimal digits, in either case.
    HexDigit,
    /// Letters, digits and the underscore.
    Word,
    /// Every byte but the one given.
    Until(u8),
}

impl Class {
    /// Whether the byte belongs to the class.
    pub open spec fn holds(self, byte: u8) -> bool {
        match self {
            Class::Space => byte == SPACE || TAB <= byte <= CARRIAGE_RETURN,
            Class::Digit => DIGIT_0 <= byte <= DIGIT_9,
            Class::HexDigit => DIGIT_0 <= byte <= DIGIT_9 || UPPER_A <= byte <= UPPER_F || LOWER_A
                <= byte <= LOWER_F,
            Class::Word => DIGIT_0 <= byte <= DIGIT_9 || starts_word(byte),
            Class::Until(stop) => byte != stop,
        }
    }

    /// Whether the byte belongs to the class.
    pub fn test(self, byte: u8) -> (held: bool)
        ensures
            held == self.holds(byte),
    {
        match self {
            Class::Space => byte == SPACE || (TAB <= byte && byte <= CARRIAGE_RETURN),
            Class::Digit => DIGIT_0 <= byte && byte <= DIGIT_9,
            Class::HexDigit => (DIGIT_0 <= byte && byte <= DIGIT_9) || (UPPER_A <= byte && byte
                <= UPPER_F) || (LOWER_A <= byte && byte <= LOWER_F),
            Class::Word => (DIGIT_0 <= byte && byte <= DIGIT_9) || word_start(byte),
            Class::Until(stop) => byte != stop,
        }
    }
}

/// Whether an identifier or a keyword may start with the byte.
pub open spec fn starts_word(byte: u8) -> bool {
    UPPER_A <= byte <= UPPER_Z || LOWER_A <= byte <= LOWER_Z || byte == UNDERSCORE
}

/// Whether an identifier or a keyword may start with the byte.
pub fn word_start(byte: u8) -> (starts: bool)
    ensures
        starts == starts_word(byte),
{
    (UPPER_A <= byte && byte <= UPPER_Z) || (LOWER_A <= byte && byte <= LOWER_Z) || byte
        == UNDERSCORE
}

/// The operator that `byte` names when it stands before `=`, or doubled, or alone.
pub open spec fn operator(byte: u8) -> Option<BinOp> {
    if byte == PLUS {
        Some(BinOp::Plus)
    } else if byte == MINUS {
        Some(BinOp::Minus)
    } else if byte == STAR {
        Some(BinOp::Star)
    } else if byte == SLASH {
        Some(BinOp::Slash)
    } else if byte == AMPERSAND {
        Some(BinOp::Ampersand)
    } else if byte == PIPE {
        Some(BinOp::Pipe)
    } else if byte == CARET {
        Some(BinOp::Caret)
    } else {
        None
    }
}

/// The token that one byte of punctuation makes when nothing that extends it follows.
pub open spec fn single(byte: u8) -> Option<Token> {
    if byte == OPEN_PAREN {
        Some(Token::OpenDelim(Delim::Paren))
    } else if byte == CLOSE_PAREN {
        Some(Token::CloseDelim(Delim::Paren))
    } else if byte == OPEN_BRACKET {
        Some(Token::OpenDelim(Delim::Bracket))
    } else if byte == CLOSE_BRACKET {
        Some(Token::CloseDelim(Delim::Bracket))
    } else if byte == OPEN_BRACE {
        Some(Token::OpenDelim(Delim::Brace))
    } else if byte == CLOSE_BRACE {
        Some(Token::CloseDelim(Delim::Brace))
    } else if byte == DOT {
        Some(Token::Dot)
    } else if byte == COMMA {
        Some(Token::Comma)
    } else if byte == SEMICOLON {
        Some(Token::Semicolon)
    } else if byte == COLON {
        Some(Token::Colon)
    } else if byte == EQUALS {
        Some(Token::Eq)
    } else if byte == BANG {
        Some(Token::Bang)
    } else if byte == TILDE {
        Some(Token::Tilde)
    } else if byte == LESS {
        Some(Token::Lt)
    } else if byte == GREATER {
        Some(Token::Gt)
    } else {
        match operator(byte) {
            Some(op) => Some(Token::BinOp(op)),
            None => None,
        }
    }
}

/// The token that two bytes of punctuation make together, if they make one.
pub open spec fn double(first: u8, second: u8) -> Option<Token> {
    if second == EQUALS {
        if first == COLON {
            Some(Token::ColonEq)
        } else if first == EQUALS {
            Some(Token::EqEq)
        } else if first == BANG {
            Some(Token::Ne)
        } else if first == LESS {
            Some(Token::Le)
        } else if first == GREATER {
            Some(Token::Ge)
        } else {
            match operator(first) {
                Some(op) => Some(Token::BinOpEq(op)),
                None => None,
            }
        }
    } else if first == LESS && second == GREATER {
        Some(Token::Ne)
    } else if first == second {
        if first == LESS {
            Some(Token::Shl)
        } else if first == GREATER {
            Some(Token::Shr)
        } else if first == AMPERSAND {
            Some(Token::And)
        } else if first == PIPE {
            Some(Token::Or)
        } else if first == CARET {
            Some(Token::Xor)
        } else {
            None
        }
    } else {
        None
    }
}

/// Whether a token starts with the byte.
pub open spec fn starts_token(byte: u8) -> bool {
    starts_word(byte) || Class::Digit.holds(byte) || byte == DOLLAR || byte == DOUBLE_QUOTE
        || byte == SINGLE_QUOTE || single(byte) is Some
}

/// The end of the longest run of bytes of `class` that starts at `pos`.
pub open spec fn run_end(source: Seq<u8>, pos: int, class: Class) -> int
    decreases source.len() - pos,
{
    if 0 <= pos < source.len() && class.holds(source[pos]) {
        run_end(source, pos + 1, class)
    } else {
        pos
    }
}

/// The place of the first `*/` at or after `pos`; the length of the source if there is none.
pub open spec fn block_close(source: Seq<u8>, pos: int) -> int
    decreases source.len() - pos,
{
    if pos < 0 || pos + 1 >= source.len() {
        source.len() as int
    } else if source[pos] == STAR && source[pos + 1] == SLASH {
        pos
    } else {
        block_close(source, pos + 1)
    }
}

/// A run ends at or after its start, inside the source, on a byte that is not of the class.
pub proof fn lemma_run_end(source: Seq<u8>, pos: int, class: Class)
    requires
        0 <= pos <= source.len(),
    ensures
        pos <= run_end(source, pos, class) <= source.len(),
        run_end(source, pos, class) < source.len() ==> !class.holds(
            source[run_end(source, pos, class)],
        ),
        forall|i: int| pos <= i < run_end(source, pos, class) ==> class.holds(#[trigger] source[i]),
    decreases source.len() - pos,
{
    if pos < source.len() && class.holds(source[pos]) {
        lemma_run_end(source, pos + 1, class);
    }
}

/// A `*/` that is found lies at or after the start of the search, two bytes before the end of
/// the source at most.
pub proof fn lemma_block_close(source: Seq<u8>, pos: int)
    requires
        0 <= pos,
    ensures
        block_close(source, pos) <= source.len(),
        block_close(source, pos) < source.len() ==> pos <= block_close(source, pos)
            && block_close(source, pos) + 2 <= source.len(),
    decreases source.len() - pos,
{
    if pos + 1 < source.len() && !(source[pos] == STAR && source[pos + 1] == SLASH) {
        lemma_block_close(source, pos + 1);
    }
}

/// The span from `low` to `high`.
pub open spec fn span_of(low: int, high: int) -> Span {
    Span { low: low as usize, high: high as usize }
}

/// Whether a line comment starts at `pos`: a `#`, or two slashes.
pub open spec fn starts_line_comment(source: Seq<u8>, pos: int) -> bool {
    source[pos] == HASH || (source[pos] == SLASH && pos + 1 < source.len() && source[pos + 1]
        == SLASH)
}

/// Whether a block comment starts at `pos`: a slash and a star.
pub open spec fn starts_block_comment(source: Seq<u8>, pos: int) -> bool {
    source[pos] == SLASH && pos + 1 < source.len() && source[pos + 1] == STAR
}

/// Where the next token starts, at or after `pos`, and what was found wrong on the way there.
///
/// Blanks and comments are passed over in silence. A byte that starts no token is passed over
/// with a diagnostic of its own; a block comment that never ends runs to the end of the
/// source, with a diagnostic for all of it.
pub open spec fn trivia(source: Seq<u8>, pos: int) -> (int, Seq<Diagnostic>)
    decreases source.len() - pos,
{
    if pos < 0 || pos >= source.len() {
        (pos, Seq::empty())
    } else if Class::Space.holds(source[pos]) {
        trivia(source, pos + 1)
    } else if starts_line_comment(source, pos) {
        proof {
            lemma_run_end(source, pos + 1, Class::Until(NEWLINE));
        }
        trivia(source, run_end(source, pos + 1, Class::Until(NEWLINE)))
    } else if starts_block_comment(source, pos) {
        let close = block_close(source, pos + 2);
        if close < source.len() {
            proof {
                lemma_block_close(source, pos + 2);
            }
            trivia(source, close + 2)
        } else {
            (
                source.len() as int,
                seq![
                    Diagnostic {
                        span: span_of(pos, source.len() as int),
                        message: Message::UnterminatedComment,
                    },
                ],
            )
        }
    } else if starts_token(source[pos]) {
        (pos, Seq::empty())
    } else {
        let rest = trivia(source, pos + 1);
        (
            rest.0,
            seq![Diagnostic { span: span_of(pos, pos + 1), message: Message::UnexpectedCharacter }]
                + rest.1,
        )
    }
}

/// The next token starts at or after `pos`: at the end of the source, or on a byte that
/// starts a token.
pub proof fn lemma_trivia(source: Seq<u8>, pos: int)
    requires
        0 <= pos <= source.len(),
    ensures
        pos <= trivia(source, pos).0 <= source.len(),
        trivia(source, pos).0 < source.len() ==> starts_token(source[trivia(source, pos).0]),
    decreases source.len() - pos,
{
    if pos >= source.len() {
    } else if Class::Space.holds(source[pos]) {
        lemma_trivia(source, pos + 1);
    } else if starts_line_comment(source, pos) {
        lemma_run_end(source, pos + 1, Class::Until(NEWLINE));
        lemma_trivia(source, run_end(source, pos + 1, Class::Until(NEWLINE)));
    } else if starts_block_comment(source, pos) {
        let close = block_close(source, pos + 2);
        lemma_block_close(source, pos + 2);
        if close < source.len() {
            lemma_trivia(source, close + 2);
        }
    } else if starts_token(source[pos]) {
    } else {
        lemma_trivia(source, pos + 1);
    }
}

/// The shapes that a token has in the source.
#[derive(Clone, Copy, Debug, PartialEq, Eq, Structural)]
pub enum Shape {
    /// An identifier or a keyword.
    Word,
    /// A decimal or `$` literal.
    Real,
    /// A quoted string.
    Text,
    /// Punctuation.
    Fixed(Token),
}

/// The shape of the token that starts at `pos`, and where the token ends.
///
/// A word is a letter or an underscore with the letters, digits and underscores that follow.
/// A decimal literal is digits, with or without a `.` and more digits after them, or a `.` and
/// digits; a `$` literal is the `$` and the hexadecimal digits that follow. A string runs from
/// its quote to the next quote of the same kind, or to the end of the source. Punctuation is
/// two bytes where the two make a token, and one byte otherwise.
pub open spec fn shape_at(source: Seq<u8>, pos: int) -> (Shape, int) {
    let byte = source[pos];
    if starts_word(byte) {
        (Shape::Word, run_end(source, pos + 1, Class::Word))
    } else if Class::Digit.holds(byte) {
        let end = run_end(source, pos + 1, Class::Digit);
        if end < source.len() && source[end] == DOT {
            (Shape::Real, run_end(source, end + 1, Class::Digit))
        } else {
            (Shape::Real, end)
        }
    } else if byte == DOT && pos + 1 < source.len() && Class::Digit.holds(source[pos + 1]) {
        (Shape::Real, run_end(source, pos + 1, Class::Digit))
    } else if byte == DOLLAR {
        (Shape::Real, run_end(source, pos + 1, Class::HexDigit))
    } else if byte == DOUBLE_QUOTE || byte == SINGLE_QUOTE {
        let end = run_end(source, pos + 1, Class::Until(byte));
        (
            Shape::Text,
            if end < source.len() {
                end + 1
            } else {
                end
            },
        )
    } else if pos + 1 < source.len() && double(byte, source[pos + 1]) is Some {
        (Shape::Fixed(double(byte, source[pos + 1])->0), pos + 2)
    } else {
        (
            Shape::Fixed(
                match single(byte) {
                    Some(token) => token,
                    None => Token::Eof,
                },
            ),
            pos + 1,
        )
    }
}

/// A token holds at least one byte and ends inside the source. Punctuation is never `Eof`.
pub proof fn lemma_shape_at(source: Seq<u8>, pos: int)
    requires
        0 <= pos < source.len(),
        starts_token(source[pos]),
    ensures
        pos < shape_at(source, pos).1 <= source.len(),
        shape_at(source, pos).0 != Shape::Fixed(Token::Eof),
{
    let byte = source[pos];
    lemma_run_end(source, pos + 1, Class::Word);
    lemma_run_end(source, pos + 1, Class::Digit);
    lemma_run_end(source, pos + 1, Class::HexDigit);
    lemma_run_end(source, pos + 1, Class::Until(byte));
    let end = run_end(source, pos + 1, Class::Digit);
    if end < source.len() {
        lemma_run_end(source, end + 1, Class::Digit);
    }
}

/// Whether a string literal, quotes included, has its closing quote.
pub open spec fn terminated(text: Seq<u8>) -> bool {
    text.len() >= 2 && text[text.len() - 1] == text[0]
}

/// What reading one token gives: the token and its span, where the reader then stands, and
/// the table of names and the diagnostics as they then are.
pub struct Lexed {
    pub token: Token,
    pub span: Span,
    pub position: int,
    pub names: Seq<Seq<u8>>,
    pub errors: Seq<Diagnostic>,
}

/// Reads the token that follows position `pos` of the source.
///
/// At the end of the source the token is `Eof`, with an empty span there. A word that spells
/// a keyword is that keyword. Every other word, and every literal, is interned as it is
/// written and carries its symbol. A string without its closing quote gets a diagnostic.
pub open spec fn lex(
    source: Seq<u8>,
    pos: int,
    names: Seq<Seq<u8>>,
    errors: Seq<Diagnostic>,
) -> Lexed {
    let (start, skipped) = trivia(source, pos);
    let errors = errors + skipped;
    if start >= source.len() {
        Lexed { token: Token::Eof, span: span_of(start, start), position: start, names, errors }
    } else {
        let (shape, end) = shape_at(source, start);
        let text = source.subrange(start, end);
        let span = span_of(start, end);
        let symbol = symbol_of(names, text);
        let interned = with_name(names, text);
        match shape {
            Shape::Word => match keyword_of(text) {
                Some(keyword) => Lexed {
                    token: Token::Keyword(keyword),
                    span,
                    position: end,
                    names,
                    errors,
                },
                None => Lexed {
                    token: Token::Ident(symbol),
                    span,
                    position: end,
                    names: interned,
                    errors,
                },
            },
            Shape::Real => Lexed {
                token: Token::Real(symbol),
                span,
                position: end,
                names: interned,
                errors,
            },
            Shape::Text => Lexed {
                token: Token::String(symbol),
                span,
                position: end,
                names: interned,
                errors: if terminated(text) {
                    errors
                } else {
                    errors.push(Diagnostic { span, message: Message::UnterminatedString })
                },
            },
            Shape::Fixed(token) => Lexed { token, span, position: end, names, errors },
        }
    }
}

/// The symbol that a token carries, if it carries one.
pub open spec fn token_symbol(token: Token) -> Option<Symbol> {
    match token {
        Token::Ident(symbol) => Some(symbol),
        Token::Real(symbol) => Some(symbol),
        Token::String(symbol) => Some(symbol),
        _ => None,
    }
}

/// What holds of every token read.
///
/// The reader moves forward and stays inside the source. The span lies between the old and
/// the new position of the reader. A token other than `Eof` is not empty, and `Eof` is read
/// at the end of the source only. The table stays well formed, grows by one name at most and
/// keeps its older names. A symbol that the token carries is in the table, where it names the
/// bytes of the span. Diagnostics are only added.
pub proof fn lemma_lex(source: Seq<u8>, pos: int, names: Seq<Seq<u8>>, errors: Seq<Diagnostic>)
    requires
        0 <= pos <= source.len() <= usize::MAX,
        table_wf(names),
        names.len() < u32::MAX,
    ensures
        ({
            let read = lex(source, pos, names, errors);
            &&& pos <= read.span.low <= read.span.high <= read.position <= source.len()
            &&& read.span.high == read.position
            &&& read.token != Token::Eof ==> read.span.low < read.span.high
            &&& read.token == Token::Eof ==> read.position == source.len()
            &&& table_wf(read.names)
            &&& names.len() <= read.names.len() <= names.len() + 1
            &&& read.names.len() > names.len() ==> read.position > pos
            &&& forall|i: int| 0 <= i < names.len() ==> read.names[i] == names[i]
            &&& token_symbol(read.token) matches Some(symbol) ==> symbol.0 < read.names.len()
                && read.names[symbol.0 as int] == source.subrange(
                read.span.low as int,
                read.span.high as int,
            )
            &&& errors.len() <= read.errors.len()
            &&& forall|i: int| 0 <= i < errors.len() ==> read.errors[i] == errors[i]
        }),
{
    lemma_trivia(source, pos);
    let start = trivia(source, pos).0;
    if start < source.len() {
        lemma_shape_at(source, start);
        let end = shape_at(source, start).1;
        lemma_with_name(names, source.subrange(start, end));
    }
}

/// Reads a source text token by token.
pub struct Lexer<'s> {
    source: &'s [u8],
    position: usize,
}

impl<'s> Lexer<'s> {
    /// The bytes of the source text.
    pub closed spec fn source(&self) -> Seq<u8> {
        self.source@
    }

    /// The number of bytes that have been read.
    pub closed spec fn position(&self) -> int {
        self.position as int
    }

    /// Whether the reader stands inside its source.
    pub open spec fn wf(&self) -> bool {
        0 <= self.position() <= self.source().len() <= usize::MAX
    }

    /// A reader at the start of `source`.
    pub fn new(source: &'s str) -> (reader: Lexer<'s>)
        ensures
            reader.source() == source.spec_bytes(),
            reader.position() == 0,
            reader.wf(),
    {
        Lexer::from_bytes(source.as_bytes())
    }

    /// A reader at the start of the bytes `source`.
    pub fn from_bytes(source: &'s [u8]) -> (reader: Lexer<'s>)
        ensures
            reader.source() == source@,
            reader.position() == 0,
            reader.wf(),
    {
        assert(source.len() == source@.len());
        Lexer { source, position: 0 }
    }

    /// The number of bytes that have been read.
    pub fn offset(&self) -> (offset: usize)
        ensures
            offset == self.position(),
    {
        self.position
    }

    /// The end of the longest run of bytes of `class` that starts at `pos`.
    fn scan(&self, pos: usize, class: Class) -> (end: usize)
        requires
            pos <= self.source().len(),
        ensures
            end == run_end(self.source(), pos as int, class),
            pos <= end <= self.source().len(),
    {
        let mut end = pos;
        while end < self.source.len() && class.test(self.source[end])
            invariant
                pos <= end <= self.source@.len(),
                run_end(self.source@, pos as int, class) == run_end(
                    self.source@,
                    end as int,
                    class,
                ),
            decreases self.source@.len() - end,
        {
            end += 1;
        }
        end
    }

    /// The place of the first `*/` at or after `pos`; the length of the source if there is
    /// none.
    fn scan_block(&self, pos: usize) -> (close: usize)
        requires
            pos <= self.source().len(),
        ensures
            close == block_close(self.source(), pos as int),
            close <= self.source().len(),
            close < self.source().len() ==> pos <= close && close + 2 <= self.source().len(),
    {
        proof {
            lemma_block_close(self.source@, pos as int);
        }
        let len = self.source.len();
        let mut at = pos;
        while at < len && at + 1 < len && !(self.source[at] == STAR && self.source[at + 1]
            == SLASH)
            invariant
                len == self.source@.len(),
                pos <= at <= len,
                block_close(self.source@, pos as int) == block_close(self.source@, at as int),
            decreases len - at,
        {
            at += 1;
        }
        if at < len && at + 1 < len {
            at
        } else {
            len
        }
    }

    /// Moves to the start of the next token, and records what is found wrong on the way.
    fn skip_trivia(&mut self, errors: &mut ErrorHandler)
        requires
            old(self).wf(),
        ensures
            final(self).source() == old(self).source(),
            final(self).position() == trivia(old(self).source(), old(self).position()).0,
            final(errors)@ == old(errors)@ + trivia(old(self).source(), old(self).position()).1,
            final(self).wf(),
    {
        let len = self.source.len();
        let ghost source = self.source@;
        let ghost start = self.position as int;
        let ghost before = errors@;
        proof {
            lemma_trivia(source, start);
            assert(before + trivia(source, start).1 =~= errors@ + trivia(source, start).1);
        }
        loop
            invariant
                self.source@ == source,
                len == source.len(),
                0 <= self.position <= len,
                trivia(source, start).0 == trivia(source, self.position as int).0,
                before + trivia(source, start).1 == errors@ + trivia(
                    source,
                    self.position as int,
                ).1,
            ensures
                self.source@ == source,
                0 <= self.position <= len,
                self.position == trivia(source, start).0,
                errors@ == before + trivia(source, start).1,
            decreases len - self.position,
        {
            let pos = self.position;
            let ghost seen = errors@;
            if pos >= len {
                assert(seen + trivia(source, pos as int).1 =~= seen);
                break ;
            }
            let byte = self.source[pos];
            let next_is_slash = pos + 1 < len && self.source[pos + 1] == SLASH;
            let next_is_star = pos + 1 < len && self.source[pos + 1] == STAR;
            if Class::Space.test(byte) {
                self.position = pos + 1;
            } else if byte == HASH || (byte == SLASH && next_is_slash) {
                self.position = self.scan(pos + 1, Class::Until(NEWLINE));
            } else if byte == SLASH && next_is_star {
                let close = self.scan_block(pos + 2);
                if close < len {
                    self.position = close + 2;
                } else {
                    errors.error(Span { low: pos, high: len }, Message::UnterminatedComment);
                    self.position = len;
                    assert(trivia(source, len as int).1 =~= Seq::<Diagnostic>::empty());
                    assert(seen + trivia(source, pos as int).1 =~= errors@ + trivia(
                        source,
                        len as int,
                    ).1);
                }
            } else if token_start(byte) {
                assert(seen + trivia(source, pos as int).1 =~= seen);
                break ;
            } else {
                errors.error(Span { low: pos, high: pos + 1 }, Message::UnexpectedCharacter);
                self.position = pos + 1;
                assert(seen + trivia(source, pos as int).1 =~= errors@ + trivia(
                    source,
                    pos + 1,
                ).1);
            }
        }
    }

    /// Reads the next token: `lex` says which, and what becomes of the table of names and of
    /// the diagnostics.
    pub fn read_token(&mut self, names: &mut Interner, errors: &mut ErrorHandler) -> (read: (
        Token,
        Span,
    ))
        requires
            old(self).wf(),
            old(names).wf(),
            old(names)@.len() < u32::MAX,
        ensures
            final(self).source() == old(self).source(),
            final(self).wf(),
            final(names).wf(),
            ({
                let lexed = lex(
                    old(self).source(),
                    old(self).position(),
                    old(names)@,
                    old(errors)@,
                );
                &&& read.0 == lexed.token
                &&& read.1 == lexed.span
                &&& final(self).position() == lexed.position
                &&& final(names)@ == lexed.names
                &&& final(errors)@ == lexed.errors
            }),
    {
        proof {
            lemma_lex(self.source@, self.position as int, names@, errors@);
            lemma_trivia(self.source@, self.position as int);
        }
        self.skip_trivia(errors);
        let len = self.source.len();
        let start = self.position;
        if start >= len {
            return (Token::Eof, Span { low: start, high: start });
        }
        proof {
            lemma_shape_at(self.source@, start as int);
        }
        let byte = self.source[start];
        let next: Option<u8> = if start + 1 < len {
            Some(self.source[start + 1])
        } else {
            None
        };
        let next_is_digit = match next {
            Some(second) => Class::Digit.test(second),
            None => false,
        };
        if word_start(byte) {
            let end = self.scan(start + 1, Class::Word);
            self.position = end;
            let span = Span { low: start, high: end };
            let text = slice_subrange(self.source, start, end);
            match Keyword::lookup(text) {
                Some(keyword) => (Token::Keyword(keyword), span),
                None => (Token::Ident(names.intern_bytes(text)), span),
            }
        } else if Class::Digit.test(byte) || (byte == DOT && next_is_digit) || byte == DOLLAR {
            let end = if byte == DOLLAR {
                self.scan(start + 1, Class::HexDigit)
            } else {
                let whole = self.scan(start + 1, Class::Digit);
                if byte != DOT && whole < len && self.source[whole] == DOT {
                    self.scan(whole + 1, Class::Digit)
                } else {
                    whole
                }
            };
            self.position = end;
            let text = slice_subrange(self.source, start, end);
            (Token::Real(names.intern_bytes(text)), Span { low: start, high: end })
        } else if byte == DOUBLE_QUOTE || byte == SINGLE_QUOTE {
            let quote = self.scan(start + 1, Class::Until(byte));
            let end = if quote < len {
                quote + 1
            } else {
                quote
            };
            self.position = end;
            let span = Span { low: start, high: end };
            let text = slice_subrange(self.source, start, end);
            if !(end - start >= 2 && self.source[end - 1] == byte) {
                errors.error(span, Message::UnterminatedString);
            }
            (Token::String(names.intern_bytes(text)), span)
        } else {
            let paired = match next {
                Some(second) => pair(byte, second),
                None => None,
            };
            match paired {
                Some(token) => {
                    self.position = start + 2;
                    (token, Span { low: start, high: start + 2 })
                },
                None => {
                    self.position = start + 1;
                    let token = match alone(byte) {
                        Some(token) => token,
                        None => Token::Eof,
                    };
                    (token, Span { low: start, high: start + 1 })
                },
            }
        }
    }
}

/// The operator that `byte` names.
pub fn operator_of(byte: u8) -> (op: Option<BinOp>)
    ensures
        op == operator(byte),
{
    if byte == PLUS {
        Some(BinOp::Plus)
    } else if byte == MINUS {
        Some(BinOp::Minus)
    } else if byte == STAR {
        Some(BinOp::Star)
    } else if byte == SLASH {
        Some(BinOp::Slash)
    } else if byte == AMPERSAND {
        Some(BinOp::Ampersand)
    } else if byte == PIPE {
        Some(BinOp::Pipe)
    } else if byte == CARET {
        Some(BinOp::Caret)
    } else {
        None
    }
}

/// The token that one byte of punctuation makes.
pub fn alone(byte: u8) -> (token: Option<Token>)
    ensures
        token == single(byte),
{
    if byte == OPEN_PAREN {
        Some(Token::OpenDelim(Delim::Paren))
    } else if byte == CLOSE_PAREN {
        Some(Token::CloseDelim(Delim::Paren))
    } else if byte == OPEN_BRACKET {
        Some(Token::OpenDelim(Delim::Bracket))
    } else if byte == CLOSE_BRACKET {
        Some(Token::CloseDelim(Delim::Bracket))
    } else if byte == OPEN_BRACE {
        Some(Token::OpenDelim(Delim::Brace))
    } else if byte == CLOSE_BRACE {
        Some(Token::CloseDelim(Delim::Brace))
    } else if byte == DOT {
        Some(Token::Dot)
    } else if byte == COMMA {
        Some(Token::Comma)
    } else if byte == SEMICOLON {
        Some(Token::Semicolon)
    } else if byte == COLON {
        Some(Token::Colon)
    } else if byte == EQUALS {
        Some(Token::Eq)
    } else if byte == BANG {
        Some(Token::Bang)
    } else if byte == TILDE {
        Some(Token::Tilde)
    } else if byte == LESS {
        Some(Token::Lt)
    } else if byte == GREATER {
        Some(Token::Gt)
    } else {
        match operator_of(byte) {
            Some(op) => Some(Token::BinOp(op)),
            None => None,
        }
    }
}

/// The token that two bytes of punctuation make together.
pub fn pair(first: u8, second: u8) -> (token: Option<Token>)
    ensures
        token == double(first, second),
{
    if second == EQUALS {
        if first == COLON {
            Some(Token::ColonEq)
        } else if first == EQUALS {
            Some(Token::EqEq)
        } else if first == BANG {
            Some(Token::Ne)
        } else if first == LESS {
            Some(Token::Le)
        } else if first == GREATER {
            Some(Token::Ge)
        } else {
            match operator_of(first) {
                Some(op) => Some(Token::BinOpEq(op)),
                None => None,
            }
        }
    } else if first == LESS && second == GREATER {
        Some(Token::Ne)
    } else if first == second {
        if first == LESS {
            Some(Token::Shl)
        } else if first == GREATER {
            Some(Token::Shr)
        } else if first == AMPERSAND {
            Some(Token::And)
        } else if first == PIPE {
            Some(Token::Or)
        } else if first == CARET {
            Some(Token::Xor)
        } else {
            None
        }
    } else {
        None
    }
}

/// Whether a token starts with the byte.
pub fn token_start(byte: u8) -> (starts: bool)
    ensures
        starts == starts_token(byte),
{
    word_start(byte) || Class::Digit.test(byte) || byte == DOLLAR || byte == DOUBLE_QUOTE || byte
        == SINGLE_QUOTE || alone(byte).is_some()
}

} // verus!
