use calculator::lexer::{lex, resolve, Token};

#[test]
fn star_goes_between_integer_and_opening_parenthesis() {
    assert_eq!(
        resolve(lex("2(3+4)")),
        vec![
            Token::Integer(2),
            Token::Star,
            Token::Lparen,
            Token::Integer(3),
            Token::Plus,
            Token::Integer(4),
            Token::Rparen,
        ]
    );
}

#[test]
fn star_goes_between_closing_parenthesis_and_integer() {
    assert_eq!(
        resolve(lex("(3+4)2")),
        vec![
            Token::Lparen,
            Token::Integer(3),
            Token::Plus,
            Token::Integer(4),
            Token::Rparen,
            Token::Star,
            Token::Integer(2),
        ]
    );
}

#[test]
fn stars_go_on_both_sides_of_an_integer_between_groups() {
    assert_eq!(
        resolve(lex("(1)2(3)")),
        vec![
            Token::Lparen,
            Token::Integer(1),
            Token::Rparen,
            Token::Star,
            Token::Integer(2),
            Token::Star,
            Token::Lparen,
            Token::Integer(3),
            Token::Rparen,
        ]
    );
}

#[test]
fn adjacent_groups_stay_as_they_are() {
    let tokens = lex("(1+2)(3+4)");
    assert_eq!(resolve(tokens.clone()), tokens);
}

#[test]
fn explicit_tokens_stay_as_they_are() {
    for line in ["", "1", "(", ")", "2 * (3 + 4)", "1 2", "( 1 )", "2 + (", ") + 2", "? ( 1 ) ?"] {
        let tokens = lex(line);
        assert_eq!(resolve(tokens.clone()), tokens, "at {:?}", line);
    }
}

#[test]
fn an_error_before_a_parenthesis_is_no_integer() {
    let tokens = lex("99999999999(1)");
    assert_eq!(tokens[0], Token::Error(String::from("99999999999")));
    assert_eq!(resolve(tokens.clone()), tokens);
}

#[test]
fn resolving_keeps_every_token_in_its_order() {
    for line in ["2(3)4", "((2)(3))", ")2(", "1(2(3(4)5)6)7", "2 ( ? ) 3"] {
        let tokens = lex(line);
        let kept: Vec<Token> = {
            let mut source = tokens.iter();
            let mut next = source.next();
            let mut kept = Vec::new();
            for token in resolve(tokens.clone()) {
                if Some(&token) == next {
                    kept.push(token);
                    next = source.next();
                } else {
                    assert_eq!(token, Token::Star);
                }
            }
            assert_eq!(next, None);
            kept
        };
        assert_eq!(kept, tokens, "at {:?}", line);
    }
}

#[test]
fn resolving_twice_is_resolving_once() {
    for line in ["2(3+4)", "(1+2)(3+4)", "(1)2(3)", ")2(", "1(2(3(4)5)6)7", "2((", "))3", ""] {
        let once = resolve(lex(line));
        assert_eq!(resolve(once.clone()), once, "at {:?}", line);
    }
}
