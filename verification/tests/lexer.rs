use gml::front::token::{BinOp, Delim, Token};
use gml::front::{Diagnostic, ErrorHandler, Lexer, Message, Span};
use gml::symbol::{Interner, Keyword};

fn lex_all(source: &str) -> (Vec<(Token, Span)>, Interner, Vec<Diagnostic>) {
    let mut names = Interner::new();
    let mut errors = ErrorHandler::new();
    let mut reader = Lexer::new(source);
    let mut tokens = Vec::new();
    loop {
        let (token, span) = reader.read_token(&mut names, &mut errors);
        tokens.push((token, span));
        if token == Token::Eof {
            break;
        }
    }
    (tokens, names, errors.into_vec())
}

fn kinds(source: &str) -> Vec<Token> {
    lex_all(source).0.into_iter().map(|(token, _)| token).collect()
}

fn at(low: usize, high: usize) -> Span {
    Span { low, high }
}

#[test]
fn hex_literal_is_one_real_token() {
    let (tokens, names, errors) = lex_all("$ff");
    assert_eq!(tokens.len(), 2);
    match tokens[0] {
        (Token::Real(symbol), span) => {
            assert_eq!(names.as_bytes(symbol), b"$ff");
            assert_eq!(span, at(0, 3));
        }
        other => panic!("{:?}", other),
    }
    assert_eq!(tokens[1], (Token::Eof, at(3, 3)));
    assert!(errors.is_empty());
}

#[test]
fn empty_source_is_eof_forever() {
    let mut names = Interner::new();
    let mut errors = ErrorHandler::new();
    let mut reader = Lexer::new("");
    assert_eq!(reader.read_token(&mut names, &mut errors), (Token::Eof, at(0, 0)));
    assert_eq!(reader.read_token(&mut names, &mut errors), (Token::Eof, at(0, 0)));
    assert_eq!(errors.len(), 0);
}

#[test]
fn eof_span_follows_trailing_blanks() {
    let (tokens, _, _) = lex_all("x  \n");
    assert_eq!(tokens[1], (Token::Eof, at(4, 4)));
}

#[test]
fn punctuation_tokens() {
    assert_eq!(
        kinds("( ) [ ] { } . , ; :"),
        vec![
            Token::OpenDelim(Delim::Paren),
            Token::CloseDelim(Delim::Paren),
            Token::OpenDelim(Delim::Bracket),
            Token::CloseDelim(Delim::Bracket),
            Token::OpenDelim(Delim::Brace),
            Token::CloseDelim(Delim::Brace),
            Token::Dot,
            Token::Comma,
            Token::Semicolon,
            Token::Colon,
            Token::Eof,
        ]
    );
}

#[test]
fn operator_tokens() {
    assert_eq!(
        kinds("= := == != <> < <= > >= << >> ! ~ && || ^^"),
        vec![
            Token::Eq,
            Token::ColonEq,
            Token::EqEq,
            Token::Ne,
            Token::Ne,
            Token::Lt,
            Token::Le,
            Token::Gt,
            Token::Ge,
            Token::Shl,
            Token::Shr,
            Token::Bang,
            Token::Tilde,
            Token::And,
            Token::Or,
            Token::Xor,
            Token::Eof,
        ]
    );
}

#[test]
fn binary_operator_tokens_and_their_assignments() {
    assert_eq!(
        kinds("+ - * / & | ^"),
        vec![
            Token::BinOp(BinOp::Plus),
            Token::BinOp(BinOp::Minus),
            Token::BinOp(BinOp::Star),
            Token::BinOp(BinOp::Slash),
            Token::BinOp(BinOp::Ampersand),
            Token::BinOp(BinOp::Pipe),
            Token::BinOp(BinOp::Caret),
            Token::Eof,
        ]
    );
    assert_eq!(
        kinds("+= -= *= /= &= |= ^="),
        vec![
            Token::BinOpEq(BinOp::Plus),
            Token::BinOpEq(BinOp::Minus),
            Token::BinOpEq(BinOp::Star),
            Token::BinOpEq(BinOp::Slash),
            Token::BinOpEq(BinOp::Ampersand),
            Token::BinOpEq(BinOp::Pipe),
            Token::BinOpEq(BinOp::Caret),
            Token::Eof,
        ]
    );
}

#[test]
fn two_bytes_make_one_token_only_where_they_fit() {
    assert_eq!(kinds("=<"), vec![Token::Eq, Token::Lt, Token::Eof]);
    assert_eq!(kinds("<<="), vec![Token::Shl, Token::Eq, Token::Eof]);
    assert_eq!(kinds("!!"), vec![Token::Bang, Token::Bang, Token::Eof]);
}

#[test]
fn keywords_in_word_form() {
    assert_eq!(
        kinds("and or xor not mod div"),
        vec![
            Token::Keyword(Keyword::And),
            Token::Keyword(Keyword::Or),
            Token::Keyword(Keyword::Xor),
            Token::Keyword(Keyword::Not),
            Token::Keyword(Keyword::Mod),
            Token::Keyword(Keyword::Div),
            Token::Eof,
        ]
    );
    assert_eq!(
        kinds("if then else begin end var globalvar"),
        vec![
            Token::Keyword(Keyword::If),
            Token::Keyword(Keyword::Then),
            Token::Keyword(Keyword::Else),
            Token::Keyword(Keyword::Begin),
            Token::Keyword(Keyword::End),
            Token::Keyword(Keyword::Var),
            Token::Keyword(Keyword::GlobalVar),
            Token::Eof,
        ]
    );
}

#[test]
fn a_word_that_only_starts_like_a_keyword_is_an_identifier() {
    let (tokens, names, _) = lex_all("iffy _if if2");
    for (index, text) in ["iffy", "_if", "if2"].iter().enumerate() {
        match tokens[index].0 {
            Token::Ident(symbol) => assert_eq!(names.as_bytes(symbol), text.as_bytes()),
            other => panic!("{:?}", other),
        }
    }
}

#[test]
fn one_identifier_has_one_symbol() {
    let (tokens, _, _) = lex_all("speed hp speed");
    assert_eq!(tokens[0].0, tokens[2].0);
    assert_ne!(tokens[0].0, tokens[1].0);
}

#[test]
fn comments_and_blanks_are_skipped() {
    let source = "a // one\n/* two\n lines */ b # three\n\tc";
    let (tokens, _, errors) = lex_all(source);
    assert_eq!(tokens.len(), 4);
    assert_eq!(tokens[0].1, at(0, 1));
    assert_eq!(tokens[1].1, at(26, 27));
    assert_eq!(tokens[2].1, at(37, 38));
    assert!(errors.is_empty());
}

#[test]
fn a_slash_alone_is_division() {
    assert_eq!(
        kinds("a / b"),
        vec![kinds("a")[0], Token::BinOp(BinOp::Slash), kinds("a b")[1], Token::Eof]
    );
}

#[test]
fn decimal_literals() {
    let (tokens, names, _) = lex_all("12 3.25 .5 7. 1.2.3");
    let texts: Vec<&[u8]> = tokens
        .iter()
        .filter_map(|(token, _)| match token {
            Token::Real(symbol) => Some(names.as_bytes(*symbol)),
            _ => None,
        })
        .collect();
    assert_eq!(texts, vec![&b"12"[..], b"3.25", b".5", b"7.", b"1.2", b".3"]);
}

#[test]
fn a_dot_before_a_letter_is_a_dot() {
    assert_eq!(kinds("a.b")[1], Token::Dot);
}

#[test]
fn strings_in_both_quotes_keep_their_quotes() {
    let (tokens, names, errors) = lex_all("\"it's\" 'say \"hi\"'");
    match (tokens[0].0, tokens[1].0) {
        (Token::String(first), Token::String(second)) => {
            assert_eq!(names.as_bytes(first), b"\"it's\"");
            assert_eq!(names.as_bytes(second), b"'say \"hi\"'");
        }
        other => panic!("{:?}", other),
    }
    assert_eq!(tokens[0].1, at(0, 6));
    assert_eq!(tokens[1].1, at(7, 17));
    assert!(errors.is_empty());
}

#[test]
fn a_backslash_escapes_nothing() {
    let (tokens, names, _) = lex_all("\"a\\\" b");
    match tokens[0].0 {
        Token::String(symbol) => assert_eq!(names.as_bytes(symbol), b"\"a\\\""),
        other => panic!("{:?}", other),
    }
}

#[test]
fn unterminated_string_is_reported() {
    let (tokens, names, errors) = lex_all("x = \"abc");
    match tokens[2].0 {
        Token::String(symbol) => assert_eq!(names.as_bytes(symbol), b"\"abc"),
        other => panic!("{:?}", other),
    }
    assert_eq!(
        errors,
        vec![Diagnostic { span: at(4, 8), message: Message::UnterminatedString }]
    );
}

#[test]
fn unterminated_comment_is_reported() {
    let (tokens, _, errors) = lex_all("a /* b");
    assert_eq!(tokens.len(), 2);
    assert_eq!(tokens[1], (Token::Eof, at(6, 6)));
    assert_eq!(
        errors,
        vec![Diagnostic { span: at(2, 6), message: Message::UnterminatedComment }]
    );
}

#[test]
fn stray_characters_are_reported_and_skipped() {
    let (tokens, _, errors) = lex_all("a @ ? b");
    assert_eq!(tokens.len(), 3);
    assert_eq!(
        errors,
        vec![
            Diagnostic { span: at(2, 3), message: Message::UnexpectedCharacter },
            Diagnostic { span: at(4, 5), message: Message::UnexpectedCharacter },
        ]
    );
}

#[test]
fn from_bytes_reads_like_new() {
    let mut names = Interner::new();
    let mut errors = ErrorHandler::new();
    let mut reader = Lexer::from_bytes(b"x+1");
    let first = reader.read_token(&mut names, &mut errors);
    assert_eq!(first.1, at(0, 1));
    assert_eq!(reader.read_token(&mut names, &mut errors).0, Token::BinOp(BinOp::Plus));
}
