use pratt_calc::expr::Expression;
use pratt_calc::parser::ParseError;
use pratt_calc::token::{Lexer, Token};

#[test]
fn test_1() {
    let s = Expression::from_str("1").unwrap();
    assert_eq!(s.to_string(), "1");
}

#[test]
fn test_2() {
    let s = Expression::from_str("1 + 2 * 3").unwrap();
    assert_eq!(s.to_string(), "(+ 1 (* 2 3))")
}

#[test]
fn test_3() {
    let s = Expression::from_str("a * 2 * b").unwrap();
    assert_eq!(s.to_string(), "(* (* a 2) b)")
}

#[test]
fn test_4() {
    let s = Expression::from_str("a + b * 2 * c + a / 4").unwrap();
    assert_eq!(s.to_string(), "(+ (+ a (* (* b 2) c)) (/ a 4))");
}

#[test]
fn test_5() {
    let s = Expression::from_str("2 + b * 5 - 3 / 5 + 5 -3").unwrap();
    assert_eq!(s.to_string(), "(- (+ (- (+ 2 (* b 5)) (/ 3 5)) 5) 3)");
}

#[test]
fn test_6() {
    let s = Expression::from_str("(2 + b) * 5 ").unwrap();
    assert_eq!(s.to_string(), "(* (+ 2 b) 5)");
}

#[test]
fn test_7() {
    let s = Expression::from_str("(((a)))").unwrap();
    assert_eq!(s.to_string(), "a");
}

#[test]
fn single_atoms_print_as_themselves() {
    for c in [
        '0', '1', '2', '3', '4', '5', '6', '7', '8', '9', 'a', 'k', 'z', 'A', 'Q', 'Z',
    ] {
        let input = c.to_string();
        let s = Expression::from_str(&input).unwrap();
        assert_eq!(s.to_string(), input);
    }
}

#[test]
fn power_is_right_associative() {
    let s = Expression::from_str("a ^ b ^ 2").unwrap();
    assert_eq!(s.to_string(), "(^ a (^ b 2))");
}

#[test]
fn assignment_is_right_associative() {
    let s = Expression::from_str("a = b = 2").unwrap();
    assert_eq!(s.to_string(), "(= a (= b 2))");
}

#[test]
fn radical_parses_as_infix() {
    let s = Expression::from_str("8 √ 3").unwrap();
    assert_eq!(s.to_string(), "(√ 8 3)");
}

#[test]
fn dot_binds_tightest() {
    let s = Expression::from_str("a.b ^ 2").unwrap();
    assert_eq!(s.to_string(), "(^ (. a b) 2)");
}

#[test]
fn atom_round_trips_through_print() {
    let s = Expression::from_str("  7 ").unwrap();
    let printed = s.to_string();
    assert_eq!(printed, "7");
    let again = Expression::from_str(&printed).unwrap();
    assert_eq!(s, again);
}

#[test]
fn empty_input_is_rejected() {
    assert_eq!(
        Expression::from_str(""),
        Err(ParseError::UnexpectedToken(Token::Eof))
    );
    assert_eq!(
        Expression::from_str("   "),
        Err(ParseError::UnexpectedToken(Token::Eof))
    );
}

#[test]
fn operator_cannot_start_a_primary() {
    assert_eq!(
        Expression::from_str("* 2"),
        Err(ParseError::UnexpectedToken(Token::Op('*')))
    );
    assert_eq!(
        Expression::from_str("1 + * 2"),
        Err(ParseError::UnexpectedToken(Token::Op('*')))
    );
}

#[test]
fn adjacent_atoms_are_rejected() {
    assert_eq!(
        Expression::from_str("1 2"),
        Err(ParseError::UnexpectedToken(Token::Atom('2')))
    );
}

#[test]
fn missing_close_paren_is_rejected() {
    assert_eq!(
        Expression::from_str("(1 + 2"),
        Err(ParseError::MissingCloseParen(Token::Eof))
    );
}

#[test]
fn unknown_operator_is_rejected() {
    assert_eq!(
        Expression::from_str("1 # 2"),
        Err(ParseError::UnknownOperator('#'))
    );
    // A group immediately after an atom puts `(` in infix position.
    assert_eq!(
        Expression::from_str("a (b)"),
        Err(ParseError::UnknownOperator('('))
    );
}

#[test]
fn printed_forms_distinguish_groupings() {
    let flat = Expression::from_str("1 + 2 * 3").unwrap();
    let grouped = Expression::from_str("(1 + 2) * 3").unwrap();
    assert_ne!(flat, grouped);
    assert_ne!(flat.to_string(), grouped.to_string());
}

#[test]
fn lexer_hands_tokens_out_in_order() {
    let mut lexer = Lexer::new(" 1+ b ");
    assert_eq!(lexer.peek(), Token::Atom('1'));
    assert_eq!(lexer.next(), Token::Atom('1'));
    assert_eq!(lexer.next(), Token::Op('+'));
    assert_eq!(lexer.peek(), Token::Atom('b'));
    assert_eq!(lexer.next(), Token::Atom('b'));
    assert_eq!(lexer.next(), Token::Eof);
    assert_eq!(lexer.peek(), Token::Eof);
}
