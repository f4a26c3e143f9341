use exprcalc::lexer::symbol::{Literal, Operation, Symbol};
use exprcalc::parser::{Parser, ParserError};
use exprcalc::shunting::{shunting_yard, ShuntingYard};

fn number(text: &str) -> Symbol {
    Symbol::Number(Literal { negative: false, text: text.to_string() })
}

fn operator(operation: Operation) -> Symbol {
    Symbol::BinaryOperator(operation)
}

fn transform(input: &str) -> Result<Vec<Symbol>, ParserError> {
    Parser::new(input).transform()
}

#[test]
fn operators_follow_their_operands() {
    assert_eq!(
        transform("5 * (3 + 2)"),
        Ok(vec![
            number("5"),
            number("3"),
            number("2"),
            operator(Operation::Addition),
            operator(Operation::Multiplication),
        ])
    );
}

#[test]
fn precedence_has_three_ranks() {
    assert_eq!(Parser::get_precedence(&Operation::Pow), 3);
    assert_eq!(Parser::get_precedence(&Operation::Multiplication), 2);
    assert_eq!(Parser::get_precedence(&Operation::Division), 2);
    assert_eq!(Parser::get_precedence(&Operation::Addition), 1);
    assert_eq!(Parser::get_precedence(&Operation::Subtraction), 1);
}

#[test]
fn the_tighter_operator_comes_out_first() {
    assert_eq!(
        transform("1 + 2 * 3 ^ 2"),
        Ok(vec![
            number("1"),
            number("2"),
            number("3"),
            number("2"),
            operator(Operation::Pow),
            operator(Operation::Multiplication),
            operator(Operation::Addition),
        ])
    );
    assert_eq!(
        transform("1 ^ 2 * 3 + 4"),
        Ok(vec![
            number("1"),
            number("2"),
            operator(Operation::Pow),
            number("3"),
            operator(Operation::Multiplication),
            number("4"),
            operator(Operation::Addition),
        ])
    );
}

#[test]
fn operators_of_one_rank_group_from_the_left() {
    assert_eq!(
        transform("5 - 3 + 2"),
        Ok(vec![
            number("5"),
            number("3"),
            operator(Operation::Subtraction),
            number("2"),
            operator(Operation::Addition),
        ])
    );
    assert_eq!(
        transform("2 ^ 3 ^ 2"),
        Ok(vec![
            number("2"),
            number("3"),
            operator(Operation::Pow),
            number("2"),
            operator(Operation::Pow),
        ])
    );
}

#[test]
fn a_closing_parenthesis_empties_the_stack_down_to_its_partner() {
    assert_eq!(
        transform("(1 + 2 * 3)"),
        Ok(vec![
            number("1"),
            number("2"),
            number("3"),
            operator(Operation::Multiplication),
            operator(Operation::Addition),
        ])
    );
    assert_eq!(transform("((2))"), Ok(vec![number("2")]));
    assert_eq!(
        transform("2 * (3 + 4) * 5"),
        Ok(vec![
            number("2"),
            number("3"),
            number("4"),
            operator(Operation::Addition),
            operator(Operation::Multiplication),
            number("5"),
            operator(Operation::Multiplication),
        ])
    );
}

#[test]
fn a_closing_parenthesis_without_partner_is_mismatched() {
    assert_eq!(transform(")"), Err(ParserError::MismatchedParenthesis));
    assert_eq!(transform("5 + )"), Err(ParserError::MismatchedParenthesis));
    assert_eq!(transform("(1))"), Err(ParserError::MismatchedParenthesis));
}

#[test]
fn an_opening_parenthesis_without_partner_is_mismatched() {
    assert_eq!(transform("("), Err(ParserError::MismatchedParenthesis));
    assert_eq!(transform("(5 + 3"), Err(ParserError::MismatchedParenthesis));
    assert_eq!(transform("((1)"), Err(ParserError::MismatchedParenthesis));
}

#[test]
fn the_first_fault_from_the_left_is_reported() {
    assert_eq!(transform(") 1.2.3"), Err(ParserError::MismatchedParenthesis));
    assert_eq!(transform("1.2.3 )"), Err(ParserError::MalformedNumber));
    assert_eq!(transform("(1.2.3"), Err(ParserError::MalformedNumber));
}

#[test]
fn an_empty_text_has_an_empty_postfix_form() {
    assert_eq!(transform(""), Ok(vec![]));
    assert_eq!(transform("  abc "), Ok(vec![]));
}

#[test]
fn reading_a_text_twice_gives_the_same_postfix_form() {
    let text = "5 * (3 - 2) / 2 ^ -1";
    let first = Parser::new(text).transform();
    let second = Parser::new(text).transform();
    assert!(first.is_ok());
    assert_eq!(first, second);
    let parser = Parser::new(text);
    assert_eq!(parser.transform(), parser.transform());
}

#[test]
fn symbols_are_transformed_without_a_text() {
    let symbols = vec![
        Symbol::OpenParenthesis,
        number("1"),
        operator(Operation::Subtraction),
        number("2"),
        Symbol::ClosedParenthesis,
        operator(Operation::Division),
        number("3"),
    ];
    assert_eq!(
        shunting_yard(symbols),
        Ok(vec![
            number("1"),
            number("2"),
            operator(Operation::Subtraction),
            number("3"),
            operator(Operation::Division),
        ])
    );
    assert_eq!(
        shunting_yard(vec![number("1"), Symbol::ClosedParenthesis]),
        Err(ParserError::MismatchedParenthesis)
    );
    assert_eq!(
        shunting_yard(vec![Symbol::OpenParenthesis, number("1")]),
        Err(ParserError::MismatchedParenthesis)
    );
    assert_eq!(shunting_yard(vec![]), Ok(vec![]));
}

#[test]
fn an_end_marker_among_the_symbols_is_ignored() {
    assert_eq!(
        shunting_yard(vec![
            number("1"),
            Symbol::End,
            operator(Operation::Addition),
            number("2"),
            Symbol::End,
        ]),
        Ok(vec![number("1"), number("2"), operator(Operation::Addition)])
    );
}

#[test]
fn a_yard_takes_symbols_one_by_one() {
    let mut yard = ShuntingYard::new();
    for symbol in [
        number("1"),
        operator(Operation::Multiplication),
        number("2"),
        operator(Operation::Addition),
        number("3"),
    ] {
        yard = yard.feed(symbol).unwrap();
    }
    assert_eq!(
        yard.finish(),
        Ok(vec![
            number("1"),
            number("2"),
            operator(Operation::Multiplication),
            number("3"),
            operator(Operation::Addition),
        ])
    );
    assert!(matches!(
        ShuntingYard::new().feed(Symbol::ClosedParenthesis),
        Err(ParserError::MismatchedParenthesis)
    ));
    assert_eq!(ShuntingYard::new().finish(), Ok(vec![]));
}
