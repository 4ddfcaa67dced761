use gml::binary64::Real;
use gml::front::ast::{Binary, Call, Declare, Expr, Jump, Op, Stmt, Value};
use gml::front::token::{Delim, Token};
use gml::front::{ErrorHandler, Lexer, Message, Parser, Span};
use gml::symbol::{Interner, Keyword};

fn span(low: usize, high: usize) -> Span {
    Span { low: low, high: high }
}

fn number(value: f64) -> Value {
    Value::Real(Real::from_bits(value.to_bits()))
}

#[test]
fn program() {
    let source = String::from(
        "{ \
            var x; \
            x = 3 \
            show_message(x * y) \
        }",
    );
    let mut names = Interner::new();
    let x = names.intern("x");
    let y = names.intern("y");
    let show_message = names.intern("show_message");

    let reader = Lexer::new(&source);
    let mut parser = Parser::new(reader, names, ErrorHandler::new());

    assert_eq!(
        parser.parse_program(),
        (
            Stmt::Block(vec![
                (Stmt::Declare(Declare::Local, vec![(x, span(6, 7))]), span(2, 8)),
                (
                    Stmt::Assign(
                        None,
                        Box::new((Expr::Value(Value::Ident(x)), span(9, 10))),
                        Box::new((Expr::Value(number(3.0)), span(13, 14))),
                    ),
                    span(9, 14)
                ),
                (
                    Stmt::Invoke(Call(
                        Box::new((Expr::Value(Value::Ident(show_message)), span(15, 27))),
                        vec![(
                            Expr::Binary(
                                Binary::Op(Op::Multiply),
                                Box::new((Expr::Value(Value::Ident(x)), span(28, 29))),
                                Box::new((Expr::Value(Value::Ident(y)), span(32, 33))),
                            ),
                            span(28, 33)
                        )],
                    )),
                    span(15, 34)
                ),
            ]),
            span(0, 36),
        )
    );
    let (_, errors) = parser.finish();
    assert_eq!(errors.len(), 0);
}

#[test]
fn precedence() {
    let source = String::from("x + y * (3 + z)");
    let mut names = Interner::new();
    let x = names.intern("x");
    let y = names.intern("y");
    let z = names.intern("z");

    let reader = Lexer::new(&source);
    let mut parser = Parser::new(reader, names, ErrorHandler::new());

    assert_eq!(
        parser.parse_expression(0),
        (
            Expr::Binary(
                Binary::Op(Op::Add),
                Box::new((Expr::Value(Value::Ident(x)), span(0, 1))),
                Box::new((
                    Expr::Binary(
                        Binary::Op(Op::Multiply),
                        Box::new((Expr::Value(Value::Ident(y)), span(4, 5))),
                        Box::new((
                            Expr::Binary(
                                Binary::Op(Op::Add),
                                Box::new((Expr::Value(number(3.0)), span(9, 10))),
                                Box::new((Expr::Value(Value::Ident(z)), span(13, 14))),
                            ),
                            span(9, 14)
                        )),
                    ),
                    span(4, 14)
                )),
            ),
            span(0, 14)
        )
    );
}

fn parser_for(source: &str) -> Parser<'_> {
    Parser::new(Lexer::new(source), Interner::new(), ErrorHandler::new())
}

fn parsed_expression(source: &str) -> (Expr, Vec<gml::front::Diagnostic>, Interner) {
    let mut parser = parser_for(source);
    let (expr, _) = parser.parse_expression(0);
    let (names, errors) = parser.finish();
    (expr, errors.into_vec(), names)
}

fn parsed_program(source: &str) -> (Stmt, Span, Vec<gml::front::Diagnostic>, Interner) {
    let mut parser = parser_for(source);
    let (stmt, span) = parser.parse_program();
    let (names, errors) = parser.finish();
    (stmt, span, errors.into_vec(), names)
}

fn messages(source: &str) -> Vec<gml::front::Message> {
    parsed_program(source).2.into_iter().map(|diagnostic| diagnostic.message).collect()
}

/// The expression with every span forgotten, in prefix notation.
fn shape(expr: &Expr, names: &Interner) -> String {
    fn list(items: &[(Expr, Span)], names: &Interner) -> String {
        items.iter().map(|(item, _)| shape(item, names)).collect::<Vec<_>>().join(" ")
    }
    match expr {
        Expr::Value(Value::Real(value)) => format!("{}", f64::from_bits(value.to_bits())),
        Expr::Value(Value::String(symbol)) => {
            format!("{:?}", String::from_utf8_lossy(names.as_bytes(*symbol)))
        }
        Expr::Value(Value::Ident(symbol)) => {
            String::from_utf8_lossy(names.as_bytes(*symbol)).into_owned()
        }
        Expr::Unary(op, arg) => format!("({:?} {})", op, shape(&arg.0, names)),
        Expr::Binary(Binary::Op(op), left, right) => {
            format!("({:?} {} {})", op, shape(&left.0, names), shape(&right.0, names))
        }
        Expr::Binary(op, left, right) => {
            format!("({:?} {} {})", op, shape(&left.0, names), shape(&right.0, names))
        }
        Expr::Field(of, (field, _)) => format!(
            "(Field {} {})",
            shape(&of.0, names),
            String::from_utf8_lossy(names.as_bytes(*field))
        ),
        Expr::Index(of, args) => format!("(Index {} {})", shape(&of.0, names), list(args, names)),
        Expr::Call(Call(function, args)) => {
            format!("(Call {} {})", shape(&function.0, names), list(args, names))
        }
    }
}

fn expression_shape(source: &str) -> String {
    let (expr, errors, names) = parsed_expression(source);
    assert_eq!(errors, vec![], "{}", source);
    shape(&expr, &names)
}

#[test]
fn hex_literal_has_its_value() {
    let (expr, errors, _) = parsed_expression("$ff");
    assert_eq!(expr, Expr::Value(number(255.0)));
    assert!(errors.is_empty());
}

#[test]
fn decimal_literals_have_their_values() {
    assert_eq!(parsed_expression("0.1").0, Expr::Value(number(0.1)));
    assert_eq!(parsed_expression(".5").0, Expr::Value(number(0.5)));
    assert_eq!(parsed_expression("7.").0, Expr::Value(number(7.0)));
    assert_eq!(parsed_expression("3.14159").0, Expr::Value(number(3.14159)));
}

#[test]
fn multiplication_binds_tighter_than_addition() {
    assert_eq!(expression_shape("a + b * c"), "(Add a (Multiply b c))");
    assert_eq!(expression_shape("a * b + c"), "(Add (Multiply a b) c)");
}

#[test]
fn every_level_of_precedence() {
    assert_eq!(
        expression_shape("a and b < c & d << e + f * g"),
        "(And a (Lt b (BitAnd c (ShiftLeft d (Add e (Multiply f g))))))"
    );
    assert_eq!(
        expression_shape("a * b + c << d & e < f and g"),
        "(And (Lt (BitAnd (ShiftLeft (Add (Multiply a b) c) d) e) f) g)"
    );
}

#[test]
fn operators_of_one_level_group_to_the_left() {
    assert_eq!(expression_shape("a - b - c"), "(Subtract (Subtract a b) c)");
    assert_eq!(expression_shape("a / b * c"), "(Multiply (Divide a b) c)");
    assert_eq!(expression_shape("a div b mod c"), "(Mod (Div a b) c)");
    assert_eq!(expression_shape("a or b and c xor d"), "(Xor (And (Or a b) c) d)");
    assert_eq!(expression_shape("a | b ^ c & d"), "(BitAnd (BitXor (BitOr a b) c) d)");
}

#[test]
fn one_equals_sign_compares_like_two() {
    assert_eq!(expression_shape("a = b"), "(Eq a b)");
    assert_eq!(expression_shape("a == b"), "(Eq a b)");
    assert_eq!(expression_shape("a != b"), "(Ne a b)");
    assert_eq!(expression_shape("a <> b"), "(Ne a b)");
    assert_eq!(expression_shape("a <= b >= c"), "(Ge (Le a b) c)");
}

#[test]
fn symbolic_and_keyword_logic_are_the_same() {
    assert_eq!(expression_shape("a && b"), expression_shape("a and b"));
    assert_eq!(expression_shape("a || b"), expression_shape("a or b"));
    assert_eq!(expression_shape("a ^^ b"), expression_shape("a xor b"));
    assert_eq!(expression_shape("!a"), expression_shape("not a"));
}

#[test]
fn prefix_operators_bind_tighter_than_infix_ones() {
    assert_eq!(expression_shape("-a * b"), "(Multiply (Negate a) b)");
    assert_eq!(expression_shape("a - -b"), "(Subtract a (Negate b))");
    assert_eq!(expression_shape("!a and ~b"), "(And (Invert a) (BitInvert b))");
    assert_eq!(expression_shape("+a"), "(Positive a)");
    assert_eq!(expression_shape("-a.b"), "(Negate (Field a b))");
}

#[test]
fn parentheses_group() {
    assert_eq!(expression_shape("(a + b) * c"), "(Multiply (Add a b) c)");
    assert_eq!(expression_shape("((a))"), "a");
}

#[test]
fn postfix_forms() {
    assert_eq!(expression_shape("a.b.c"), "(Field (Field a b) c)");
    assert_eq!(expression_shape("a[1]"), "(Index a 1)");
    assert_eq!(expression_shape("a[1, 2]"), "(Index a 1 2)");
    assert_eq!(expression_shape("a.b[i].c"), "(Field (Index (Field a b) i) c)");
    assert_eq!(expression_shape("f()"), "(Call f )");
    assert_eq!(expression_shape("f(a, b + 1)"), "(Call f a (Add b 1))");
    assert_eq!(expression_shape("f(a) + g(b)"), "(Add (Call f a) (Call g b))");
}

#[test]
fn pseudo_instances_and_truth_values_are_names() {
    assert_eq!(expression_shape("self.x"), "(Field self x)");
    assert_eq!(expression_shape("other.x + global.y"), "(Add (Field other x) (Field global y))");
    assert_eq!(expression_shape("true"), "true");
    let (expr, _, _) = parsed_expression("noone");
    assert_eq!(expr, Expr::Value(Value::Ident(Keyword::NoOne.symbol())));
}

#[test]
fn an_index_does_not_follow_parentheses() {
    let mut parser = parser_for("(a)[1]");
    let (expr, span) = parser.parse_expression(0);
    assert_eq!(span, Span { low: 1, high: 2 });
    assert!(matches!(expr, Expr::Value(Value::Ident(_))));
    assert_eq!(parser.current(), Token::OpenDelim(Delim::Bracket));
    assert_eq!(parser.span(), Span { low: 3, high: 4 });
}

#[test]
fn a_call_follows_an_identifier_only() {
    let mut parser = parser_for("a.b(1)");
    let (expr, _) = parser.parse_expression(0);
    assert!(matches!(expr, Expr::Field(_, _)));
    assert_eq!(parser.current(), Token::OpenDelim(Delim::Paren));
}

#[test]
fn string_literals_lose_their_quotes() {
    let (expr, errors, names) = parsed_expression("\"hello\" + 'it'");
    assert!(errors.is_empty());
    assert_eq!(shape(&expr, &names), "(Add \"hello\" \"it\")");
    let (expr, errors, names) = parsed_expression("\"\"");
    assert!(errors.is_empty());
    assert_eq!(shape(&expr, &names), "\"\"");
}

#[test]
fn an_unterminated_string_keeps_all_that_follows_its_quote() {
    let (expr, errors, names) = parsed_expression("\"abc");
    assert_eq!(shape(&expr, &names), "\"abc\"");
    assert_eq!(errors.len(), 1);
    assert_eq!(errors[0].message, Message::UnterminatedString);
    let (expr, _, names) = parsed_expression("'");
    assert_eq!(shape(&expr, &names), "\"\"");
}

#[test]
fn statements_of_every_kind() {
    let source = "
        var a, b;
        globalvar g;
        a = 1;
        b += a
        a -= 1; a *= 2; a /= 3; a &= 4; a |= 5; a ^= 6; a := 7;
        if a then b = 1 else b = 2
        if (a) { b = 1 }
        repeat 3 a += 1
        while a < 10 do a += 1
        with other x = 1
        do a -= 1 until a <= 0
        for (i = 0; i < 3; i += 1) a += i
        switch a { case 1: b = 1; break; default: b = 2 }
        begin continue; exit end
        return a + b
    ";
    let (program, _, errors, _) = parsed_program(source);
    assert_eq!(errors, vec![]);
    let stmts = match program {
        Stmt::Block(stmts) => stmts,
        other => panic!("{:?}", other),
    };
    let kinds: Vec<&str> = stmts
        .iter()
        .map(|(stmt, _)| match stmt {
            Stmt::Assign(None, _, _) => "assign",
            Stmt::Assign(Some(_), _, _) => "compound",
            Stmt::Invoke(_) => "invoke",
            Stmt::Declare(Declare::Local, _) => "var",
            Stmt::Declare(Declare::Global, _) => "globalvar",
            Stmt::Block(_) => "block",
            Stmt::If(_, _, None) => "if",
            Stmt::If(_, _, Some(_)) => "if-else",
            Stmt::Repeat(_, _) => "repeat",
            Stmt::While(_, _) => "while",
            Stmt::With(_, _) => "with",
            Stmt::Do(_, _) => "do",
            Stmt::For(_, _, _, _) => "for",
            Stmt::Switch(_, _) => "switch",
            Stmt::Jump(_) => "jump",
            Stmt::Return(_) => "return",
            Stmt::Case(_) => "case",
            Stmt::Error(_) => "error",
        })
        .collect();
    assert_eq!(
        kinds,
        vec![
            "var", "globalvar", "assign", "compound", "compound", "compound", "compound",
            "compound", "compound", "compound", "assign", "if-else", "if", "repeat",
            "while", "with", "do", "for", "switch", "block", "return",
        ]
    );
}

#[test]
fn compound_assignments_name_their_operators() {
    let ops: Vec<Option<Op>> = ["=", ":=", "+=", "-=", "*=", "/=", "&=", "|=", "^="]
        .iter()
        .map(|op| {
            let source = format!("a {} 1", op);
            let mut parser = parser_for(&source);
            match parser.parse_statement().0 {
                Stmt::Assign(op, _, _) => op,
                other => panic!("{:?}", other),
            }
        })
        .collect();
    assert_eq!(
        ops,
        vec![
            None,
            None,
            Some(Op::Add),
            Some(Op::Subtract),
            Some(Op::Multiply),
            Some(Op::Divide),
            Some(Op::BitAnd),
            Some(Op::BitOr),
            Some(Op::BitXor),
        ]
    );
}

#[test]
fn a_statement_takes_the_semicolons_after_it() {
    let mut parser = parser_for("a = 1;;; b = 2");
    let (_, span) = parser.parse_statement();
    assert_eq!(span, Span { low: 0, high: 8 });
    let (_, span) = parser.parse_statement();
    assert_eq!(span, Span { low: 9, high: 14 });
    assert_eq!(parser.current(), Token::Eof);
}

#[test]
fn switch_holds_its_labels_as_statements() {
    let mut parser = parser_for("switch x { case 1: a = 1 break default: a = 2 }");
    let (stmt, span) = parser.parse_statement();
    assert_eq!(span, Span { low: 0, high: 47 });
    let body = match stmt {
        Stmt::Switch(_, body) => body,
        other => panic!("{:?}", other),
    };
    assert_eq!(body.len(), 5);
    assert!(matches!(body[0].0, Stmt::Case(Some(_))));
    assert_eq!(body[0].1, Span { low: 11, high: 18 });
    assert!(matches!(body[1].0, Stmt::Assign(None, _, _)));
    assert!(matches!(body[2].0, Stmt::Jump(Jump::Break)));
    assert!(matches!(body[3].0, Stmt::Case(None)));
    assert!(matches!(body[4].0, Stmt::Assign(None, _, _)));
}

#[test]
fn jumps() {
    let kinds: Vec<Stmt> = ["break", "continue", "exit"]
        .iter()
        .map(|source| parser_for(source).parse_statement().0)
        .collect();
    assert_eq!(
        kinds,
        vec![Stmt::Jump(Jump::Break), Stmt::Jump(Jump::Continue), Stmt::Jump(Jump::Exit)]
    );
}

#[test]
fn the_span_of_for_ends_with_its_parenthesis() {
    let mut parser = parser_for("for (i = 0; i < 3; i += 1) a += i");
    let (stmt, span) = parser.parse_statement();
    assert!(matches!(stmt, Stmt::For(_, _, _, _)));
    assert_eq!(span, Span { low: 0, high: 26 });
    assert_eq!(parser.current(), Token::Eof);
}

#[test]
fn a_program_without_braces_is_a_block() {
    let (program, span, errors, _) = parsed_program("a = 1 b = 2");
    assert!(errors.is_empty());
    assert_eq!(span, Span { low: 0, high: 11 });
    match program {
        Stmt::Block(stmts) => assert_eq!(stmts.len(), 2),
        other => panic!("{:?}", other),
    }
}

#[test]
fn the_empty_program_is_an_empty_block() {
    let (program, span, errors, _) = parsed_program("  // nothing\n");
    assert_eq!(program, Stmt::Block(vec![]));
    assert_eq!(span, Span { low: 13, high: 13 });
    assert!(errors.is_empty());
}

#[test]
fn tokens_after_the_program_are_reported() {
    assert_eq!(messages("{ a = 1 } b = 2"), vec![Message::ExpectedEndOfFile]);
}

#[test]
fn a_missing_assignment_operator_is_reported() {
    let (program, _, errors, _) = parsed_program("a 3");
    assert_eq!(errors.len(), 1);
    assert_eq!(errors[0].message, Message::ExpectedAssignment);
    assert_eq!(errors[0].span, Span { low: 2, high: 3 });
    match program {
        Stmt::Block(stmts) => {
            assert_eq!(stmts.len(), 1);
            assert_eq!(stmts[0].0, Stmt::Error(Expr::Value(number(3.0))));
        }
        other => panic!("{:?}", other),
    }
}

#[test]
fn an_unclosed_block_is_reported() {
    let (program, span, errors, _) = parsed_program("{ a = 1");
    assert_eq!(errors.len(), 1);
    assert_eq!(errors[0].message, Message::UnclosedBlock);
    assert_eq!(span, Span { low: 0, high: 7 });
    assert!(matches!(program, Stmt::Block(_)));
}

#[test]
fn a_switch_without_braces_is_reported() {
    assert_eq!(messages("switch a b = 1 }")[0], Message::ExpectedOpenBrace);
}

#[test]
fn a_dot_without_a_field_is_reported() {
    let (expr, errors, names) = parsed_expression("a.+");
    assert_eq!(shape(&expr, &names), "a");
    assert_eq!(errors.len(), 1);
    assert_eq!(errors[0].message, Message::ExpectedIdentifier);
    assert_eq!(errors[0].span, Span { low: 2, high: 3 });
}

#[test]
fn an_empty_hex_literal_is_reported_and_is_zero() {
    let (expr, errors, _) = parsed_expression("$");
    assert_eq!(expr, Expr::Value(number(0.0)));
    assert_eq!(errors.len(), 1);
    assert_eq!(errors[0].message, Message::InvalidInteger);
    assert_eq!(errors[0].span, Span { low: 0, high: 1 });
}

#[test]
fn a_hex_literal_beyond_64_bits_is_reported() {
    assert_eq!(parsed_expression("$10000000000000000").1[0].message, Message::InvalidInteger);
    assert_eq!(
        parsed_expression("$ffffffffffffffff").0,
        Expr::Value(number(18446744073709551615.0))
    );
    assert_eq!(parsed_expression("$0000000000000000000ff").0, Expr::Value(number(255.0)));
}

#[test]
fn a_decimal_literal_with_too_many_digits_is_reported() {
    let long = format!("0.{}", "1".repeat(39));
    let (expr, errors, _) = parsed_expression(&long);
    assert_eq!(expr, Expr::Value(number(0.0)));
    assert_eq!(errors.len(), 1);
    assert_eq!(errors[0].message, Message::InvalidReal);
    let fits = format!("0.{}", "1".repeat(38));
    let (expr, errors, _) = parsed_expression(&fits);
    assert!(errors.is_empty());
    assert_eq!(expr, Expr::Value(number(fits.parse().unwrap())));
}

#[test]
fn a_token_that_starts_no_expression_is_reported_and_passed() {
    let mut parser = parser_for("a = ; b = 2");
    let (stmt, _) = parser.parse_statement();
    match stmt {
        Stmt::Assign(None, _, right) => {
            assert_eq!(right.0, Expr::Value(number(0.0)));
            assert_eq!(right.1, Span { low: 4, high: 4 });
        }
        other => panic!("{:?}", other),
    }
    let (stmt, _) = parser.parse_statement();
    assert!(matches!(stmt, Stmt::Assign(None, _, _)));
    let (_, errors) = parser.finish();
    assert_eq!(errors.len(), 1);
    assert_eq!(errors.get(0).message, Message::ExpectedExpression);
    assert_eq!(errors.get(0).span, Span { low: 6, high: 7 });
}

#[test]
fn arguments_without_a_comma_are_reported() {
    let (expr, errors, names) = parsed_expression("f(a b)");
    assert_eq!(shape(&expr, &names), "(Call f a)");
    assert_eq!(errors.len(), 1);
    assert_eq!(errors[0].message, Message::ExpectedCloseOrComma);
    assert_eq!(errors[0].span, Span { low: 4, high: 5 });
}

#[test]
fn a_missing_token_is_reported() {
    assert_eq!(messages("for i = 0; i < 3; i += 1) a = 1")[0], Message::ExpectedToken);
    assert_eq!(messages("do a = 1 a < 3")[0], Message::ExpectedToken);
    assert_eq!(messages("var a = 1")[0], Message::ExpectedToken);
    assert_eq!(messages("x = (1 + 2"), vec![Message::ExpectedToken]);
    assert_eq!(messages("switch a { case 1 b = 2 }")[0], Message::ExpectedToken);
}

#[test]
fn several_errors_are_all_reported() {
    let found = messages("a = ; b 3; c = $; @");
    assert_eq!(
        found,
        vec![
            Message::ExpectedExpression,
            Message::ExpectedAssignment,
            Message::InvalidInteger,
            Message::UnexpectedCharacter,
        ]
    );
}

#[test]
fn the_parser_comes_to_an_end_on_any_input() {
    let sources = [
        ")))", "}}}", "{{{", "if", "if if if", "for for", "switch", "case", "a.", "f(", "f(,",
        "a[", "((((", "= = =", "until", "else", "end", ": : :", ", , ,", "do do do", "with",
        "repeat", "return", "var", "globalvar ,", "x = \"", "/* ", "$ $ $", "a + ", "not",
    ];
    for source in sources.iter() {
        let mut parser = parser_for(source);
        parser.parse_program();
        assert_eq!(parser.current(), Token::Eof, "{}", source);
    }
}

#[test]
fn messages_have_texts() {
    assert_eq!(Message::ExpectedEndOfFile.text(), "expected end of file");
    assert_eq!(Message::InvalidInteger.text(), "invalid integer literal");
    assert_eq!(Message::InvalidReal.text(), "invalid floating point literal");
    assert_eq!(Message::UnclosedBlock.text(), "unexpected end of file; expected }");
}

#[test]
fn has_room_counts_two_symbols_for_a_byte() {
    let names = Interner::new();
    assert!(Parser::has_room(&names, 1000));
    assert!(Parser::has_room(&names, (u32::MAX as usize - 1 - names.len()) / 2));
    assert!(!Parser::has_room(&names, (u32::MAX as usize - 1 - names.len()) / 2 + 1));
}

/// The source text of an expression, with parentheses round every part.
fn render(expr: &Expr, names: &Interner) -> String {
    fn list(items: &[(Expr, Span)], names: &Interner) -> String {
        items.iter().map(|(item, _)| render(item, names)).collect::<Vec<_>>().join(", ")
    }
    fn text(symbol: gml::symbol::Symbol, names: &Interner) -> String {
        String::from_utf8_lossy(names.as_bytes(symbol)).into_owned()
    }
    match expr {
        Expr::Value(Value::Real(value)) => format!("{}", f64::from_bits(value.to_bits())),
        Expr::Value(Value::String(symbol)) => format!("\"{}\"", text(*symbol, names)),
        Expr::Value(Value::Ident(symbol)) => text(*symbol, names),
        Expr::Unary(op, arg) => {
            let sign = match op {
                gml::front::ast::Unary::Positive => "+",
                gml::front::ast::Unary::Negate => "-",
                gml::front::ast::Unary::Invert => "!",
                gml::front::ast::Unary::BitInvert => "~",
            };
            format!("{}({})", sign, render(&arg.0, names))
        }
        Expr::Binary(op, left, right) => {
            let sign = match op {
                Binary::Lt => "<",
                Binary::Le => "<=",
                Binary::Eq => "==",
                Binary::Ne => "!=",
                Binary::Ge => ">=",
                Binary::Gt => ">",
                Binary::Op(Op::Add) => "+",
                Binary::Op(Op::Subtract) => "-",
                Binary::Op(Op::Multiply) => "*",
                Binary::Op(Op::Divide) => "/",
                Binary::Op(Op::BitAnd) => "&",
                Binary::Op(Op::BitOr) => "|",
                Binary::Op(Op::BitXor) => "^",
                Binary::Div => "div",
                Binary::Mod => "mod",
                Binary::And => "&&",
                Binary::Or => "||",
                Binary::Xor => "^^",
                Binary::ShiftLeft => "<<",
                Binary::ShiftRight => ">>",
            };
            format!("({}) {} ({})", render(&left.0, names), sign, render(&right.0, names))
        }
        Expr::Field(of, (field, _)) => format!("{}.{}", render(&of.0, names), text(*field, names)),
        Expr::Index(of, args) => format!("{}[{}]", render(&of.0, names), list(args, names)),
        Expr::Call(Call(function, args)) => {
            format!("{}({})", render(&function.0, names), list(args, names))
        }
    }
}

#[test]
fn a_rendered_expression_parses_to_the_same_tree() {
    let sources = [
        "x + y * (3 + z)",
        "a.b[i, j].c - f(1, \"two\", g()) div 2",
        "-a * !b and c <= $10 or not d",
        "self.x << 2 | other.y & 0.25",
    ];
    for source in sources.iter() {
        let (first, errors, names) = parsed_expression(source);
        assert!(errors.is_empty());
        let rendered = render(&first, &names);
        let mut parser = Parser::new(Lexer::new(&rendered), names, ErrorHandler::new());
        let (second, _) = parser.parse_expression(0);
        let (names, errors) = parser.finish();
        assert_eq!(errors.len(), 0, "{}", rendered);
        assert_eq!(shape(&first, &names), shape(&second, &names), "{}", rendered);
    }
}

#[test]
fn a_parser_goes_on_where_the_reader_stands() {
    let mut names = Interner::new();
    let mut errors = ErrorHandler::new();
    let mut reader = Lexer::new("skipped a + 1");
    reader.read_token(&mut names, &mut errors);
    assert_eq!(reader.offset(), 7);
    let mut parser = Parser::new(reader, names, errors);
    assert_eq!(parser.span(), Span { low: 8, high: 9 });
    let (expr, span) = parser.parse_expression(0);
    assert_eq!(span, Span { low: 8, high: 13 });
    let (names, errors) = parser.finish();
    assert_eq!(errors.len(), 0);
    assert_eq!(shape(&expr, &names), "(Add a 1)");
}

#[test]
fn every_span_is_a_range_of_the_source() {
    fn check_expr(expr: &Expr, len: usize) {
        let check = |part: &(Expr, Span)| {
            assert!(part.1.low <= part.1.high && part.1.high <= len, "{:?}", part.1);
            check_expr(&part.0, len);
        };
        match expr {
            Expr::Value(_) => {}
            Expr::Unary(_, arg) => check(arg),
            Expr::Binary(_, left, right) => {
                check(left);
                check(right);
            }
            Expr::Field(of, (_, span)) => {
                check(of);
                assert!(span.low <= span.high && span.high <= len);
            }
            Expr::Index(of, args) | Expr::Call(Call(of, args)) => {
                check(of);
                args.iter().for_each(check);
            }
        }
    }
    fn check_stmt(stmt: &Stmt, len: usize) {
        let expr = |part: &(Expr, Span)| {
            assert!(part.1.low <= part.1.high && part.1.high <= len, "{:?}", part.1);
            check_expr(&part.0, len);
        };
        let nested = |part: &(Stmt, Span)| {
            assert!(part.1.low <= part.1.high && part.1.high <= len, "{:?}", part.1);
            check_stmt(&part.0, len);
        };
        match stmt {
            Stmt::Assign(_, left, right) => {
                expr(left);
                expr(right);
            }
            Stmt::Invoke(Call(function, args)) => {
                expr(function);
                args.iter().for_each(expr);
            }
            Stmt::Declare(_, names) => {
                names.iter().for_each(|(_, span)| assert!(span.low <= span.high && span.high <= len))
            }
            Stmt::Block(stmts) => stmts.iter().for_each(nested),
            Stmt::If(cond, then, otherwise) => {
                expr(cond);
                nested(then);
                otherwise.iter().for_each(|stmt| nested(stmt));
            }
            Stmt::Repeat(head, body) | Stmt::While(head, body) | Stmt::With(head, body) => {
                expr(head);
                nested(body);
            }
            Stmt::Do(body, cond) => {
                nested(body);
                expr(cond);
            }
            Stmt::For(init, cond, next, body) => {
                nested(init);
                expr(cond);
                nested(next);
                nested(body);
            }
            Stmt::Switch(scrutinee, stmts) => {
                expr(scrutinee);
                stmts.iter().for_each(nested);
            }
            Stmt::Jump(_) => {}
            Stmt::Return(value) => expr(value),
            Stmt::Case(label) => label.iter().for_each(|label| expr(label)),
            Stmt::Error(inner) => check_expr(inner, len),
        }
    }
    let sources = [
        "{ var x; x = 3 show_message(x * y) }",
        "if a then b = 1 else { c[1, 2] = f(d.e, -g) }",
        "for (i = 0; i < 3; i += 1) switch i { case 1: break; default: x = (1 + ",
        "a = ; b 3; c = $; @ ) } ] do while with repeat",
        "x = \"abc",
    ];
    for source in sources.iter() {
        let (program, span, _, _) = parsed_program(source);
        assert!(span.low <= span.high && span.high <= source.len());
        check_stmt(&program, source.len());
    }
}

#[test]
fn a_program_without_braces_is_read_to_its_end() {
    for source in ["a = 1 } b = 2", ") ) )", "x = 1 end y = 2", "case 1: x"] {
        let mut parser = parser_for(source);
        parser.parse_program();
        assert_eq!(parser.current(), Token::Eof, "{}", source);
    }
}
