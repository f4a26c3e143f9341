use exprcalc::lexer::symbol::{Literal, Operation, Symbol};
use exprcalc::lexer::Lexer;
use exprcalc::parser::ParserError;

fn number(negative: bool, text: &str) -> Symbol {
    Symbol::Number(Literal { negative, text: text.to_string() })
}

fn operator(operation: Operation) -> Symbol {
    Symbol::BinaryOperator(operation)
}

fn symbols(input: &str) -> Vec<Result<Symbol, ParserError>> {
    let mut lexer = Lexer::new(input);
    let mut found = vec![];
    while let Some(symbol) = lexer.next() {
        found.push(symbol);
    }
    found
}

#[test]
fn a_literal_keeps_its_text() {
    assert_eq!(symbols("007.50"), vec![Ok(number(false, "007.50"))]);
    assert_eq!(symbols("5."), vec![Ok(number(false, "5."))]);
    assert_eq!(symbols(".5"), vec![Ok(number(false, ".5"))]);
}

#[test]
fn characters_of_no_symbol_are_passed_over() {
    assert_eq!(
        symbols("12 x 14 # y"),
        vec![Ok(number(false, "12")), Ok(number(false, "14"))]
    );
    assert_eq!(symbols("   "), vec![]);
    assert_eq!(symbols(""), vec![]);
}

#[test]
fn positions_count_characters_not_bytes() {
    assert_eq!(
        symbols("é2 × 3 → 1-ß"),
        vec![
            Ok(number(false, "2")),
            Ok(number(false, "3")),
            Ok(number(false, "1")),
            Ok(operator(Operation::Subtraction)),
        ]
    );
}

#[test]
fn the_end_is_found_again_and_again() {
    let mut lexer = Lexer::new("1 ");
    assert_eq!(lexer.next_symbol(), Ok(number(false, "1")));
    assert_eq!(lexer.next_symbol(), Ok(Symbol::End));
    assert_eq!(lexer.next_symbol(), Ok(Symbol::End));
    assert_eq!(lexer.next(), None);
}

#[test]
fn every_operator_is_read() {
    assert_eq!(
        symbols("+ - * / ^ **"),
        vec![
            Ok(operator(Operation::Addition)),
            Ok(operator(Operation::Subtraction)),
            Ok(operator(Operation::Multiplication)),
            Ok(operator(Operation::Division)),
            Ok(operator(Operation::Pow)),
            Ok(operator(Operation::Pow)),
        ]
    );
}

#[test]
fn two_asterisks_are_one_power() {
    assert_eq!(
        symbols("2**3"),
        vec![Ok(number(false, "2")), Ok(operator(Operation::Pow)), Ok(number(false, "3"))]
    );
    assert_eq!(
        symbols("2* *3"),
        vec![
            Ok(number(false, "2")),
            Ok(operator(Operation::Multiplication)),
            Ok(operator(Operation::Multiplication)),
            Ok(number(false, "3")),
        ]
    );
    assert_eq!(
        symbols("***"),
        vec![Ok(operator(Operation::Pow)), Ok(operator(Operation::Multiplication))]
    );
    assert_eq!(symbols("*"), vec![Ok(operator(Operation::Multiplication))]);
}

#[test]
fn a_minus_after_a_number_is_a_subtraction() {
    assert_eq!(
        symbols("2-3"),
        vec![
            Ok(number(false, "2")),
            Ok(operator(Operation::Subtraction)),
            Ok(number(false, "3")),
        ]
    );
    assert_eq!(
        symbols("2 --3"),
        vec![
            Ok(number(false, "2")),
            Ok(operator(Operation::Subtraction)),
            Ok(number(true, "3")),
        ]
    );
}

#[test]
fn a_minus_before_a_literal_is_a_sign() {
    assert_eq!(symbols("-3"), vec![Ok(number(true, "3"))]);
    assert_eq!(symbols("-.5"), vec![Ok(number(true, ".5"))]);
    assert_eq!(
        symbols("(-3"),
        vec![Ok(Symbol::OpenParenthesis), Ok(number(true, "3"))]
    );
    assert_eq!(
        symbols("*-3"),
        vec![Ok(operator(Operation::Multiplication)), Ok(number(true, "3"))]
    );
    assert_eq!(
        symbols("(2)-3"),
        vec![
            Ok(Symbol::OpenParenthesis),
            Ok(number(false, "2")),
            Ok(Symbol::ClosedParenthesis),
            Ok(number(true, "3")),
        ]
    );
}

#[test]
fn a_minus_before_anything_else_is_a_subtraction() {
    assert_eq!(
        symbols("- 5"),
        vec![Ok(operator(Operation::Subtraction)), Ok(number(false, "5"))]
    );
    assert_eq!(symbols("-"), vec![Ok(operator(Operation::Subtraction))]);
    assert_eq!(
        symbols("5 -"),
        vec![Ok(number(false, "5")), Ok(operator(Operation::Subtraction))]
    );
    assert_eq!(
        symbols("-(1)"),
        vec![
            Ok(operator(Operation::Subtraction)),
            Ok(Symbol::OpenParenthesis),
            Ok(number(false, "1")),
            Ok(Symbol::ClosedParenthesis),
        ]
    );
}

#[test]
fn a_second_decimal_point_is_malformed() {
    let mut lexer = Lexer::new("1.2.3 + 4");
    assert_eq!(lexer.next_symbol(), Err(ParserError::MalformedNumber));
    assert_eq!(lexer.next_symbol(), Ok(operator(Operation::Addition)));
    assert_eq!(lexer.next_symbol(), Ok(number(false, "4")));
    assert_eq!(symbols("1.."), vec![Err(ParserError::MalformedNumber)]);
    assert_eq!(symbols("-1.5."), vec![Err(ParserError::MalformedNumber)]);
}

#[test]
fn a_literal_without_a_digit_is_malformed() {
    assert_eq!(symbols("."), vec![Err(ParserError::MalformedNumber)]);
    assert_eq!(symbols("-."), vec![Err(ParserError::MalformedNumber)]);
    assert_eq!(
        symbols("2 + ."),
        vec![
            Ok(number(false, "2")),
            Ok(operator(Operation::Addition)),
            Err(ParserError::MalformedNumber),
        ]
    );
}

#[test]
fn the_scanner_moves_one_character_at_a_time() {
    let mut lexer = Lexer::new("a1");
    assert!(!lexer.exhausted());
    assert_eq!(lexer.current(), Some('a'));
    assert_eq!(lexer.take_next(), Some('1'));
    assert_eq!(lexer.current(), Some('1'));
    assert!(!lexer.exhausted());
    assert_eq!(lexer.take_next(), None);
    assert!(lexer.exhausted());
    assert_eq!(lexer.current(), None);
    assert_eq!(lexer.take_next(), None);
    assert!(lexer.exhausted());
}

#[test]
fn a_literal_is_taken_from_under_the_scanner() {
    let mut lexer = Lexer::new("12.5+1");
    assert_eq!(lexer.take_numbers(true), Ok(number(true, "12.5")));
    assert_eq!(lexer.current(), Some('+'));
    assert_eq!(lexer.take_numbers(false), Err(ParserError::MalformedNumber));
    assert_eq!(lexer.current(), Some('+'));
}

#[test]
fn an_empty_text_is_exhausted() {
    let mut lexer = Lexer::new("");
    assert!(lexer.exhausted());
    assert_eq!(lexer.current(), None);
    assert_eq!(lexer.next_symbol(), Ok(Symbol::End));
}

#[test]
fn operations_are_written_as_in_an_expression() {
    assert_eq!(Operation::Addition.to_string(), "+");
    assert_eq!(Operation::Subtraction.to_string(), "-");
    assert_eq!(Operation::Multiplication.to_string(), "*");
    assert_eq!(Operation::Division.to_string(), "/");
    assert_eq!(Operation::Pow.to_string(), "**");
}

#[test]
fn symbols_are_put_in_words() {
    assert_eq!(number(false, "12.5").to_string(), "Number 12.5");
    assert_eq!(number(true, "3").to_string(), "Number -3");
    assert_eq!(operator(Operation::Pow).to_string(), "Binary Operator **");
    assert_eq!(operator(Operation::Division).to_string(), "Binary Operator /");
    assert_eq!(Symbol::OpenParenthesis.to_string(), "Open Parenthesis");
    assert_eq!(Symbol::ClosedParenthesis.to_string(), "Closed Parenthesis");
    assert_eq!(Symbol::End.to_string(), "End");
}
