use cool_frontend::lexer::{LexError, LexErrorKind, Lexer, MathOp, Relop, Token};

fn lex_all(source: &str) -> Vec<Token> {
    let mut lx = Lexer::for_source("test.cl", source);
    let mut out: Vec<Token> = Vec::new();
    loop {
        match lx.next() {
            Ok(Some(t)) => out.push(t),
            Ok(None) => return out,
            Err(e) => panic!("unexpected lexical error: {:?}", e),
        }
    }
}

fn lex_err(source: &str) -> LexError {
    let mut lx = Lexer::for_source("test.cl", source);
    loop {
        match lx.next() {
            Ok(Some(_)) => {}
            Ok(None) => panic!("expected a lexical error"),
            Err(e) => return e,
        }
    }
}

#[test]
fn object_and_type_identifiers() {
    assert_eq!(
        lex_all("lowercase_name Uppercase_Name"),
        vec![
            Token::Id(String::from("lowercase_name")),
            Token::Type(String::from("Uppercase_Name")),
            Token::EndOfInput,
        ]
    );
}

#[test]
fn identifiers_unaffected_by_digits_and_underscores() {
    assert_eq!(
        lex_all("x2_ _foo A9_b"),
        vec![
            Token::Id(String::from("x2_")),
            Token::Id(String::from("_foo")),
            Token::Type(String::from("A9_b")),
            Token::EndOfInput,
        ]
    );
}

#[test]
fn keywords_take_precedence() {
    assert_eq!(lex_all("class"), vec![Token::Class, Token::EndOfInput]);
    assert_eq!(
        lex_all("else false fi if in inherits isvoid let loop pool then while"),
        vec![
            Token::Else,
            Token::False,
            Token::Fi,
            Token::If,
            Token::In,
            Token::Inherits,
            Token::Isvoid,
            Token::Let,
            Token::Loop,
            Token::Pool,
            Token::Then,
            Token::While,
            Token::EndOfInput,
        ]
    );
    assert_eq!(
        lex_all("case esac new of not true"),
        vec![
            Token::Case,
            Token::Esac,
            Token::New,
            Token::Of,
            Token::Not,
            Token::True,
            Token::EndOfInput,
        ]
    );
}

#[test]
fn keyword_prefix_is_still_an_identifier() {
    assert_eq!(
        lex_all("classx whiles"),
        vec![
            Token::Id(String::from("classx")),
            Token::Id(String::from("whiles")),
            Token::EndOfInput,
        ]
    );
}

#[test]
fn line_comment_skipped() {
    assert_eq!(lex_all("--comment\nclass X {};"), lex_all("class X {};"));
}

#[test]
fn block_comment_skipped() {
    assert_eq!(lex_all("(* a comment *) class"), lex_all("class"));
}

#[test]
fn block_comments_do_not_nest() {
    // The first `*)` (after c2) closes the comment; the rest is code.
    assert_eq!(
        lex_all("(* c1 (* c2 *) still-comment *)"),
        vec![
            Token::Id(String::from("still")),
            Token::MathOp(MathOp::Minus),
            Token::Id(String::from("comment")),
            Token::MathOp(MathOp::Multiply),
            Token::RightParen,
            Token::EndOfInput,
        ]
    );
}

#[test]
fn digit_led_identifier_is_a_lexical_error() {
    let e = lex_err("1x");
    assert_eq!(e.kind, LexErrorKind::DigitLedIdentifier(String::from("1x")));
    assert_eq!(e.line, 1);
    assert_eq!(e.file, String::from("test.cl"));
}

#[test]
fn punctuation_tokens() {
    assert_eq!(
        lex_all(": , ; { } ( ) [ ] . @ ~"),
        vec![
            Token::Colon,
            Token::Comma,
            Token::SemiColon,
            Token::LeftBrace,
            Token::RightBrace,
            Token::LeftParen,
            Token::RightParen,
            Token::LeftBracket,
            Token::RightBracket,
            Token::Dot,
            Token::At,
            Token::Not,
            Token::EndOfInput,
        ]
    );
}

#[test]
fn operator_tokens() {
    assert_eq!(
        lex_all("+ - * / <- <= < => ="),
        vec![
            Token::MathOp(MathOp::Plus),
            Token::MathOp(MathOp::Minus),
            Token::MathOp(MathOp::Multiply),
            Token::MathOp(MathOp::Divide),
            Token::Assignment,
            Token::Relop(Relop::LE),
            Token::Relop(Relop::LT),
            Token::FatArrow,
            Token::Relop(Relop::EE),
            Token::EndOfInput,
        ]
    );
}

#[test]
fn compound_operators_without_spaces() {
    assert_eq!(
        lex_all("x<-1"),
        vec![
            Token::Id(String::from("x")),
            Token::Assignment,
            Token::Integer(String::from("1")),
            Token::EndOfInput,
        ]
    );
}

#[test]
fn integer_literals_carry_their_digit_runs() {
    assert_eq!(
        lex_all("0 42 007"),
        vec![
            Token::Integer(String::from("0")),
            Token::Integer(String::from("42")),
            Token::Integer(String::from("007")),
            Token::EndOfInput,
        ]
    );
}

#[test]
fn integer_literals_have_no_size_limit() {
    let huge = "170141183460469231731687303715884105728999999999";
    assert_eq!(
        lex_all(huge),
        vec![Token::Integer(String::from(huge)), Token::EndOfInput]
    );
}

#[test]
fn string_literal_keeps_quotes() {
    assert_eq!(
        lex_all("\"hi there\""),
        vec![
            Token::StringLiteral(String::from("\"hi there\"")),
            Token::EndOfInput,
        ]
    );
}

#[test]
fn unterminated_string_is_an_error() {
    let e = lex_err("\"abc");
    assert_eq!(e.kind, LexErrorKind::UnterminatedString);
}

#[test]
fn unterminated_comment_is_an_error() {
    let e = lex_err("(* never closed");
    assert_eq!(e.kind, LexErrorKind::UnterminatedComment);
}

#[test]
fn unrecognized_character_is_an_error() {
    let e = lex_err("#");
    assert_eq!(e.kind, LexErrorKind::UnrecognizedCharacter('#'));
    assert_eq!(e.line, 1);
}

#[test]
fn error_line_number_counts_newlines() {
    let e = lex_err("(\n#");
    assert_eq!(e.kind, LexErrorKind::UnrecognizedCharacter('#'));
    assert_eq!(e.line, 2);
}

#[test]
fn error_line_after_line_comment() {
    let e = lex_err("--c\n#");
    assert_eq!(e.kind, LexErrorKind::UnrecognizedCharacter('#'));
    assert_eq!(e.line, 2);
}

#[test]
fn end_of_input_is_emitted_once() {
    let mut lx = Lexer::for_source("test.cl", "x");
    assert_eq!(lx.next(), Ok(Some(Token::Id(String::from("x")))));
    assert_eq!(lx.next(), Ok(Some(Token::EndOfInput)));
    assert_eq!(lx.next(), Ok(None));
    assert_eq!(lx.next(), Ok(None));
}

#[test]
fn tokenize_collects_the_whole_stream() {
    let mut lx = Lexer::for_source("test.cl", "class X {};");
    let toks = lx.tokenize().unwrap();
    assert_eq!(toks, lex_all("class X {};"));
    assert_eq!(lx.next(), Ok(None));
}

#[test]
fn tokenize_reports_the_first_error() {
    let mut lx = Lexer::for_source("test.cl", "x 1y z");
    let e = lx.tokenize().unwrap_err();
    assert_eq!(e.kind, LexErrorKind::DigitLedIdentifier(String::from("1y")));
}

#[test]
fn empty_and_blank_inputs_yield_only_the_sentinel() {
    assert_eq!(lex_all(""), vec![Token::EndOfInput]);
    assert_eq!(lex_all("  \n\t \r"), vec![Token::EndOfInput]);
    assert_eq!(lex_all("(* only a comment *)"), vec![Token::EndOfInput]);
    assert_eq!(lex_all("-- only a line comment"), vec![Token::EndOfInput]);
}

#[test]
fn whole_class_declaration() {
    assert_eq!(
        lex_all("class Point inherits Object { x : Int <- 0; };"),
        vec![
            Token::Class,
            Token::Type(String::from("Point")),
            Token::Inherits,
            Token::Type(String::from("Object")),
            Token::LeftBrace,
            Token::Id(String::from("x")),
            Token::Colon,
            Token::Type(String::from("Int")),
            Token::Assignment,
            Token::Integer(String::from("0")),
            Token::SemiColon,
            Token::RightBrace,
            Token::SemiColon,
            Token::EndOfInput,
        ]
    );
}
