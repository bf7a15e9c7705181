use calculator::lexer::{lex, resolve, Token, TokenKind};
use calculator::parser::expression::{Binary, Expression, Literal};
use calculator::parser::{Diagnostic, Parser};

fn number(value: i32) -> Expression {
    Expression::Literal(Literal { value })
}

fn operation(left: Expression, operator: char, right: Expression) -> Expression {
    Expression::Binary(Binary { operator, left: Box::new(left), right: Box::new(right) })
}

fn value(tree: &Expression) -> f64 {
    match tree {
        Expression::Literal(literal) => f64::from(literal.value),
        Expression::Binary(binary) => {
            let left = value(&binary.left);
            let right = value(&binary.right);
            match binary.operator {
                '+' => left + right,
                '-' => left - right,
                '*' => left * right,
                '/' => left / right,
                other => panic!("no operator: {:?}", other),
            }
        }
    }
}

fn parsed(line: &str) -> (Expression, Parser) {
    let mut parser = Parser::new(resolve(lex(line)));
    let tree = parser.parse();
    (tree, parser)
}

fn accepted(line: &str) -> Expression {
    let (tree, parser) = parsed(line);
    assert!(parser.was_successful(), "at {:?}", line);
    assert_eq!(parser.diagnostics(), &Vec::<Diagnostic>::new());
    tree
}

fn rejected(line: &str) -> (Expression, Vec<Diagnostic>) {
    let (tree, parser) = parsed(line);
    assert!(!parser.was_successful(), "at {:?}", line);
    let diagnostics = parser.into_diagnostics();
    assert!(!diagnostics.is_empty());
    (tree, diagnostics)
}

#[test]
fn a_new_parser_has_found_nothing_wrong() {
    let parser = Parser::new(lex("1 +"));
    assert!(parser.was_successful());
    assert!(parser.diagnostics().is_empty());
}

#[test]
fn a_number_is_a_literal() {
    assert_eq!(accepted("42"), number(42));
    assert_eq!(value(&accepted("42")), 42.0);
}

#[test]
fn a_sum_has_the_value_of_its_operands_added() {
    let tree = accepted("2 + 3");
    assert_eq!(tree, operation(number(2), '+', number(3)));
    assert_eq!(value(&tree), 5.0);
}

#[test]
fn an_integer_before_a_group_multiplies_it() {
    let tree = accepted("2(3+4)");
    assert_eq!(tree, operation(number(2), '*', operation(number(3), '+', number(4))));
    assert_eq!(tree, accepted("2 * (3 + 4)"));
    assert_eq!(value(&tree), 14.0);
}

#[test]
fn an_integer_behind_a_group_multiplies_it() {
    let tree = accepted("(3+4)2");
    assert_eq!(tree, operation(operation(number(3), '+', number(4)), '*', number(2)));
    assert_eq!(value(&tree), 14.0);
}

#[test]
fn a_product_of_groups_needs_its_operator() {
    let tree = accepted("(1+2)*(3+4)");
    assert_eq!(
        tree,
        operation(
            operation(number(1), '+', number(2)),
            '*',
            operation(number(3), '+', number(4))
        )
    );
    assert_eq!(value(&tree), 21.0);
}

#[test]
fn a_group_right_behind_a_group_is_left_over() {
    let (tree, diagnostics) = rejected("(1+2)(3+4)");
    assert_eq!(tree, operation(number(1), '+', number(2)));
    assert_eq!(diagnostics, vec![Diagnostic::Trailing { token: Token::Lparen }]);
}

#[test]
fn multiplication_binds_tighter_than_addition() {
    let tree = accepted("2 * 3 + 4");
    assert_eq!(tree, operation(operation(number(2), '*', number(3)), '+', number(4)));
    assert_eq!(value(&tree), 10.0);
    let tree = accepted("2 + 3 * 4");
    assert_eq!(tree, operation(number(2), '+', operation(number(3), '*', number(4))));
    assert_eq!(value(&tree), 14.0);
}

#[test]
fn division_binds_tighter_than_subtraction() {
    let tree = accepted("9 - 6 / 3");
    assert_eq!(tree, operation(number(9), '-', operation(number(6), '/', number(3))));
    assert_eq!(value(&tree), 7.0);
}

#[test]
fn division_by_zero_is_infinite() {
    let tree = accepted("1 / 0");
    assert_eq!(tree, operation(number(1), '/', number(0)));
    assert_eq!(value(&tree), f64::INFINITY);
    assert!(value(&accepted("0 / 0")).is_nan());
    assert_eq!(value(&accepted("(0 - 1) / 0")), f64::NEG_INFINITY);
}

#[test]
fn division_may_give_a_fraction() {
    assert_eq!(value(&accepted("7 / 2")), 3.5);
    assert_eq!(value(&accepted("1 / 4 * 2")), 0.5);
}

#[test]
fn subtraction_goes_from_left_to_right() {
    let tree = accepted("8 - 3 - 2");
    assert_eq!(tree, operation(operation(number(8), '-', number(3)), '-', number(2)));
    assert_eq!(value(&tree), 3.0);
}

#[test]
fn division_goes_from_left_to_right() {
    let tree = accepted("16 / 4 / 2 * 3");
    assert_eq!(
        tree,
        operation(operation(operation(number(16), '/', number(4)), '/', number(2)), '*', number(3))
    );
    assert_eq!(value(&tree), 6.0);
}

#[test]
fn parentheses_group() {
    let tree = accepted("8 - (3 - 2)");
    assert_eq!(tree, operation(number(8), '-', operation(number(3), '-', number(2))));
    assert_eq!(value(&tree), 7.0);
    assert_eq!(accepted("((7))"), number(7));
    assert_eq!(value(&accepted("(2 + 3) * (4 - 1) / (1 + 2)")), 5.0);
}

#[test]
fn large_literals_are_added_as_floating_point_numbers() {
    assert_eq!(value(&accepted("2147483647 + 2147483647")), 4294967294.0);
}

#[test]
fn an_open_parenthesis_is_reported_at_the_end_of_the_line() {
    let (tree, diagnostics) = rejected("(1 + 2");
    assert_eq!(tree, operation(number(1), '+', number(2)));
    assert_eq!(
        diagnostics,
        vec![Diagnostic::Expected { expected: TokenKind::Rparen, found: None }]
    );
}

#[test]
fn a_token_in_place_of_the_closing_parenthesis_is_reported_and_left() {
    let (tree, diagnostics) = rejected("(1 2");
    assert_eq!(tree, number(1));
    assert_eq!(
        diagnostics,
        vec![
            Diagnostic::Expected { expected: TokenKind::Rparen, found: Some(Token::Integer(2)) },
            Diagnostic::Trailing { token: Token::Integer(2) },
        ]
    );
}

#[test]
fn a_missing_operand_is_reported_at_the_end_of_the_line() {
    let (tree, diagnostics) = rejected("1 + ");
    assert_eq!(tree, operation(number(1), '+', number(0)));
    assert_eq!(diagnostics, vec![Diagnostic::Unexpected { found: None }]);
}

#[test]
fn a_token_in_place_of_an_operand_is_reported_and_left() {
    let (tree, diagnostics) = rejected("1 + * 2");
    assert_eq!(tree, operation(number(1), '+', operation(number(0), '*', number(2))));
    assert_eq!(diagnostics, vec![Diagnostic::Unexpected { found: Some(Token::Star) }]);
    let (tree, diagnostics) = rejected(")");
    assert_eq!(tree, number(0));
    assert_eq!(
        diagnostics,
        vec![
            Diagnostic::Unexpected { found: Some(Token::Rparen) },
            Diagnostic::Trailing { token: Token::Rparen },
        ]
    );
}

#[test]
fn two_numbers_in_a_row_leave_the_second() {
    let (tree, diagnostics) = rejected("1 2");
    assert_eq!(tree, number(1));
    assert_eq!(diagnostics, vec![Diagnostic::Trailing { token: Token::Integer(2) }]);
}

#[test]
fn an_unknown_character_is_rejected_where_it_stands() {
    let (tree, diagnostics) = rejected("2 + $");
    assert_eq!(tree, operation(number(2), '+', number(0)));
    let dollar = Token::Error(String::from("$"));
    assert_eq!(
        diagnostics,
        vec![
            Diagnostic::Unexpected { found: Some(dollar.clone()) },
            Diagnostic::Trailing { token: dollar },
        ]
    );
    let (tree, diagnostics) = rejected("2 $");
    assert_eq!(tree, number(2));
    assert_eq!(diagnostics, vec![Diagnostic::Trailing { token: Token::Error(String::from("$")) }]);
}

#[test]
fn a_literal_beyond_the_range_is_rejected() {
    let (tree, diagnostics) = rejected("1 + 2147483648");
    assert_eq!(tree, operation(number(1), '+', number(0)));
    let digits = Token::Error(String::from("2147483648"));
    assert_eq!(
        diagnostics,
        vec![
            Diagnostic::Unexpected { found: Some(digits.clone()) },
            Diagnostic::Trailing { token: digits },
        ]
    );
}

#[test]
fn every_problem_is_reported_in_its_order() {
    let (tree, diagnostics) = rejected("(1 + ) 2 (");
    assert_eq!(
        tree,
        operation(
            operation(operation(number(1), '+', number(0)), '*', number(2)),
            '*',
            number(0)
        )
    );
    assert_eq!(
        diagnostics,
        vec![
            Diagnostic::Unexpected { found: Some(Token::Rparen) },
            Diagnostic::Unexpected { found: None },
            Diagnostic::Expected { expected: TokenKind::Rparen, found: None },
        ]
    );
    let (tree, diagnostics) = rejected("(1 + ) + 2 )");
    assert_eq!(
        tree,
        operation(operation(number(1), '+', number(0)), '+', number(2))
    );
    assert_eq!(
        diagnostics,
        vec![
            Diagnostic::Unexpected { found: Some(Token::Rparen) },
            Diagnostic::Trailing { token: Token::Rparen },
        ]
    );
    let (_, diagnostics) = rejected("((");
    assert_eq!(
        diagnostics,
        vec![
            Diagnostic::Unexpected { found: None },
            Diagnostic::Expected { expected: TokenKind::Rparen, found: None },
            Diagnostic::Expected { expected: TokenKind::Rparen, found: None },
        ]
    );
}

#[test]
fn no_tokens_are_no_expression() {
    let mut parser = Parser::new(Vec::new());
    assert_eq!(parser.parse(), number(0));
    assert!(!parser.was_successful());
    assert_eq!(parser.diagnostics(), &vec![Diagnostic::Unexpected { found: None }]);
}

#[test]
fn parsing_again_starts_with_what_was_left() {
    let mut parser = Parser::new(lex("1 + 2 3 * 4"));
    assert_eq!(parser.parse(), operation(number(1), '+', number(2)));
    assert!(!parser.was_successful());
    assert_eq!(parser.diagnostics(), &vec![Diagnostic::Trailing { token: Token::Integer(3) }]);
    assert_eq!(parser.parse(), operation(number(3), '*', number(4)));
    assert!(parser.was_successful());
    assert!(parser.diagnostics().is_empty());
}

#[test]
fn the_parser_takes_tokens_as_they_are_given() {
    let mut parser = Parser::new(vec![Token::Integer(2), Token::Lparen, Token::Integer(3)]);
    assert_eq!(parser.parse(), number(2));
    assert_eq!(parser.diagnostics(), &vec![Diagnostic::Trailing { token: Token::Lparen }]);
    let mut parser = Parser::new(vec![Token::Integer(-5), Token::Minus, Token::Integer(i32::MIN)]);
    let tree = parser.parse();
    assert!(parser.was_successful());
    assert_eq!(tree, operation(number(-5), '-', number(i32::MIN)));
    assert_eq!(value(&tree), 2147483643.0);
}

#[test]
fn deep_nesting_is_parsed() {
    let depth = 200;
    let line = format!("{}1{}", "(".repeat(depth), ")".repeat(depth));
    assert_eq!(accepted(&line), number(1));
}
