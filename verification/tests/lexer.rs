use calculator::lexer::{is_digit, is_whitespace, lex, Token, TokenKind};

fn error(text: &str) -> Token {
    Token::Error(String::from(text))
}

#[test]
fn lexes_a_sum() {
    assert_eq!(lex("2 + 3"), vec![Token::Integer(2), Token::Plus, Token::Integer(3)]);
}

#[test]
fn lexes_every_operator_and_parenthesis() {
    assert_eq!(
        lex("+-*/()"),
        vec![
            Token::Plus,
            Token::Minus,
            Token::Star,
            Token::Slash,
            Token::Lparen,
            Token::Rparen,
        ]
    );
}

#[test]
fn digits_alone_give_one_integer() {
    assert_eq!(lex("0"), vec![Token::Integer(0)]);
    assert_eq!(lex("7"), vec![Token::Integer(7)]);
    assert_eq!(lex("12345"), vec![Token::Integer(12345)]);
    assert_eq!(lex("007"), vec![Token::Integer(7)]);
    assert_eq!(lex("0000000000000000000042"), vec![Token::Integer(42)]);
}

#[test]
fn largest_integer_still_fits() {
    assert_eq!(lex("2147483647"), vec![Token::Integer(i32::MAX)]);
    assert_eq!(lex("002147483647"), vec![Token::Integer(2147483647)]);
}

#[test]
fn digits_beyond_the_range_give_one_error() {
    assert_eq!(lex("2147483648"), vec![error("2147483648")]);
    assert_eq!(lex("99999999999999999999999"), vec![error("99999999999999999999999")]);
    assert_eq!(
        lex("1+4294967296*2"),
        vec![
            Token::Integer(1),
            Token::Plus,
            error("4294967296"),
            Token::Star,
            Token::Integer(2),
        ]
    );
}

#[test]
fn a_run_of_digits_is_one_token() {
    assert_eq!(
        lex("12 34+56"),
        vec![Token::Integer(12), Token::Integer(34), Token::Plus, Token::Integer(56)]
    );
}

#[test]
fn unknown_characters_give_errors_and_lexing_goes_on() {
    assert_eq!(
        lex("2 $ 3 ?x"),
        vec![Token::Integer(2), error("$"), Token::Integer(3), error("?"), error("x")]
    );
    assert_eq!(lex("1.5"), vec![Token::Integer(1), error("."), Token::Integer(5)]);
}

#[test]
fn a_character_outside_ascii_gives_one_error() {
    assert_eq!(lex("2 × 3"), vec![Token::Integer(2), error("×"), Token::Integer(3)]);
    assert_eq!(lex("٣"), vec![error("٣")]);
    assert_eq!(lex("²"), vec![error("²")]);
}

#[test]
fn spaces_and_tabs_separate_tokens() {
    assert_eq!(
        lex("1\t+ \t 2"),
        vec![Token::Integer(1), Token::Plus, Token::Integer(2)]
    );
}

#[test]
fn white_space_around_the_line_is_dropped() {
    let expected = vec![Token::Integer(1), Token::Plus, Token::Integer(2)];
    assert_eq!(lex("  1+2  "), expected);
    assert_eq!(lex("1+2\n"), expected);
    assert_eq!(lex("1+2\r\n"), expected);
    assert_eq!(lex("\n\t 1+2 \u{b}\u{c}"), expected);
    assert_eq!(lex("\u{3000}1+2\u{a0}\u{85}"), expected);
    assert_eq!(lex("\u{2028}\u{2029}1+2\u{1680}\u{2003}\u{202f}\u{205f}"), expected);
}

#[test]
fn white_space_inside_the_line_other_than_blanks_is_an_error() {
    assert_eq!(lex("1\n2"), vec![Token::Integer(1), error("\n"), Token::Integer(2)]);
    assert_eq!(lex("1\u{a0}2"), vec![Token::Integer(1), error("\u{a0}"), Token::Integer(2)]);
    assert_eq!(lex(" 1 \r 2 "), vec![Token::Integer(1), error("\r"), Token::Integer(2)]);
}

#[test]
fn a_line_without_tokens_gives_none() {
    assert_eq!(lex(""), Vec::<Token>::new());
    assert_eq!(lex("   "), Vec::<Token>::new());
    assert_eq!(lex("\n"), Vec::<Token>::new());
    assert_eq!(lex(" \t\r\n\u{3000}"), Vec::<Token>::new());
}

#[test]
fn characters_that_look_blank_but_are_not_white_space_are_errors() {
    assert_eq!(lex("\u{200b}"), vec![error("\u{200b}")]);
    assert_eq!(lex("\u{180e}1"), vec![error("\u{180e}"), Token::Integer(1)]);
    assert_eq!(lex("\u{feff}"), vec![error("\u{feff}")]);
}

#[test]
fn white_space_is_what_the_standard_library_trims() {
    let mut c = '\0';
    loop {
        assert_eq!(is_whitespace(c), c.is_whitespace(), "at {:?}", c);
        if c == char::MAX {
            break;
        }
        c = char::from_u32(if c as u32 == 0xd7ff { 0xe000 } else { c as u32 + 1 }).unwrap();
    }
}

#[test]
fn lexing_a_line_is_lexing_the_trimmed_line() {
    for line in [
        "",
        " ",
        "1",
        " 1 ",
        "\t(1 + 2) * 3\r\n",
        "\u{a0}\u{3000}12 ? 3\u{2009}",
        "\n\n",
        " \u{200b} ",
    ] {
        assert_eq!(lex(line), lex(line.trim()), "at {:?}", line);
    }
}

#[test]
fn decimal_digits_are_the_ten_ascii_digits() {
    let mut count = 0;
    let mut c = '\0';
    loop {
        if is_digit(c) {
            assert!(c.is_ascii_digit());
            count += 1;
        } else {
            assert!(!c.is_ascii_digit());
        }
        if c == char::MAX {
            break;
        }
        c = char::from_u32(if c as u32 == 0xd7ff { 0xe000 } else { c as u32 + 1 }).unwrap();
    }
    assert_eq!(count, 10);
}

#[test]
fn every_token_has_its_kind() {
    assert_eq!(Token::Integer(5).kind(), TokenKind::Integer);
    assert_eq!(Token::Integer(0).kind(), Token::Integer(-9).kind());
    assert_eq!(Token::Plus.kind(), TokenKind::Plus);
    assert_eq!(Token::Minus.kind(), TokenKind::Minus);
    assert_eq!(Token::Star.kind(), TokenKind::Star);
    assert_eq!(Token::Slash.kind(), TokenKind::Slash);
    assert_eq!(Token::Lparen.kind(), TokenKind::Lparen);
    assert_eq!(Token::Rparen.kind(), TokenKind::Rparen);
    assert_eq!(error("x").kind(), TokenKind::Error);
    assert_eq!(error("x").kind(), error("y").kind());
}

#[test]
fn a_cloned_token_equals_its_source() {
    for token in lex("12 + ( ) - * / ? 99999999999") {
        assert_eq!(token.clone(), token);
    }
}
