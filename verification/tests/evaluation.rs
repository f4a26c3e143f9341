use exprcalc::evaluator::evaluate_postfix;
use exprcalc::lexer::symbol::{Literal, Operation, Symbol};
use exprcalc::parser::{Parser, ParserError};

fn number(literal: &Literal) -> f64 {
    let magnitude = literal.text.parse::<f64>().unwrap();
    if literal.negative {
        -1f64 * magnitude
    } else {
        magnitude
    }
}

fn apply(operation: Operation, b: f64, a: f64) -> f64 {
    match operation {
        Operation::Pow => b.powf(a),
        Operation::Multiplication => a * b,
        Operation::Division => b / a,
        Operation::Addition => b + a,
        Operation::Subtraction => b - a,
    }
}

fn evaluate(input: &str) -> Result<f64, ParserError> {
    Parser::eval(input, number, apply)
}

fn written(literal: &Literal) -> String {
    if literal.negative {
        format!("-{}", literal.text)
    } else {
        literal.text.clone()
    }
}

fn bracketed(operation: Operation, b: String, a: String) -> String {
    format!("({} {} {})", b, operation.to_string(), a)
}

fn grouping(input: &str) -> Result<String, ParserError> {
    Parser::eval(input, written, bracketed)
}

fn literal(text: &str) -> Symbol {
    Symbol::Number(Literal { negative: false, text: text.to_string() })
}

#[test]
fn a_product_with_a_sum_in_parentheses() {
    assert_eq!(evaluate("5 * (3 + 2)"), Ok(25.0));
}

#[test]
fn operands_keep_their_sides() {
    assert_eq!(evaluate("5 * (3 - 2) / 2"), Ok(2.5));
    assert_eq!(evaluate("7 - 10"), Ok(-3.0));
    assert_eq!(evaluate("1 / 4"), Ok(0.25));
    assert_eq!(evaluate("2 ^ 10"), Ok(1024.0));
}

#[test]
fn a_sign_is_told_from_a_subtraction() {
    assert_eq!(evaluate("2 - -2"), Ok(4.0));
    assert_eq!(evaluate("2 * -2"), Ok(-4.0));
}

#[test]
fn a_square() {
    assert_eq!(evaluate("23 ^ 2"), Ok(529.0));
    assert_eq!(evaluate("23 ** 2"), Ok(529.0));
}

#[test]
fn a_negative_exponent() {
    assert_eq!(evaluate("2 ^ -2"), Ok(0.25));
}

#[test]
fn a_power_of_a_power_groups_from_the_left() {
    assert_eq!(evaluate("2 ^ 3 ^ 2"), Ok(64.0));
    assert_eq!(grouping("2 ^ 3 ^ 2"), Ok("((2 ** 3) ** 2)".to_string()));
}

#[test]
fn a_power_binds_before_a_product() {
    assert_eq!(evaluate("5 * (3 + 2)^2"), Ok(125.0));
    assert_eq!(grouping("5 * (3 + 2)^2"), Ok("(5 * ((3 + 2) ** 2))".to_string()));
}

#[test]
fn the_grouping_follows_precedence() {
    assert_eq!(grouping("1 + 2 * 3"), Ok("(1 + (2 * 3))".to_string()));
    assert_eq!(grouping("1 * 2 + 3"), Ok("((1 * 2) + 3)".to_string()));
    assert_eq!(grouping("8 / 4 / 2"), Ok("((8 / 4) / 2)".to_string()));
    assert_eq!(grouping("8 - (4 - 2)"), Ok("(8 - (4 - 2))".to_string()));
    assert_eq!(grouping("-1 - -2"), Ok("(-1 - -2)".to_string()));
    assert_eq!(grouping("7"), Ok("7".to_string()));
}

#[test]
fn a_sum_of_integers_is_the_native_sum_in_any_order() {
    assert_eq!(evaluate("1 + 2 + 3 + 4"), Ok(1.0 + 2.0 + 3.0 + 4.0));
    assert_eq!(evaluate("4 + 3 + 2 + 1"), Ok(10.0));
    assert_eq!(evaluate("3 + 1 + 4 + 2"), Ok(10.0));
    assert_eq!(evaluate("0 + 0"), Ok(0.0));
    assert_eq!(evaluate("17"), Ok(17.0));
    assert_eq!(grouping("1 + 2 + 3"), Ok("((1 + 2) + 3)".to_string()));
}

#[test]
fn a_sum_beyond_the_exact_integers_is_still_added_from_the_left() {
    let rising = evaluate("1 + 1 + 9007199254740992");
    let falling = evaluate("9007199254740992 + 1 + 1");
    assert_eq!(rising, Ok((1.0 + 1.0) + 9007199254740992.0));
    assert_eq!(falling, Ok((9007199254740992.0 + 1.0) + 1.0));
    assert_eq!(rising, Ok(9007199254740994.0));
    assert_eq!(falling, Ok(9007199254740992.0));
}

#[test]
fn a_sum_is_read_with_any_gaps() {
    assert_eq!(evaluate("1+2+3"), Ok(6.0));
    assert_eq!(evaluate("  1 +2+   3 "), Ok(6.0));
    assert_eq!(evaluate("1 plus +2, and then +3!"), Ok(6.0));
    assert_eq!(evaluate("1.5+-2+.5"), Ok(0.0));
    assert_eq!(grouping("1+2+3+4"), Ok("(((1 + 2) + 3) + 4)".to_string()));
}

#[test]
fn a_long_sum_is_added_up() {
    let mut text = String::from("1");
    for _ in 1..2000 {
        text.push_str(" + 1");
    }
    assert_eq!(evaluate(&text), Ok(2000.0));
}

#[test]
fn a_mismatched_parenthesis_fails_the_evaluation() {
    assert_eq!(evaluate("5 + )"), Err(ParserError::MismatchedParenthesis));
    assert_eq!(evaluate("(5 + 3"), Err(ParserError::MismatchedParenthesis));
}

#[test]
fn an_operator_without_operands_fails_the_evaluation() {
    assert_eq!(evaluate("5 +"), Err(ParserError::InsufficientOperands));
    assert_eq!(evaluate("+"), Err(ParserError::InsufficientOperands));
    assert_eq!(evaluate("* 3"), Err(ParserError::InsufficientOperands));
    assert_eq!(evaluate("2 - +"), Err(ParserError::InsufficientOperands));
}

#[test]
fn more_or_less_than_one_value_is_no_expression() {
    assert_eq!(evaluate(""), Err(ParserError::InvalidExpression));
    assert_eq!(evaluate("2 3"), Err(ParserError::InvalidExpression));
    assert_eq!(evaluate("(2)-3"), Err(ParserError::InvalidExpression));
    assert_eq!(evaluate("()"), Err(ParserError::InvalidExpression));
}

#[test]
fn a_malformed_number_fails_the_evaluation() {
    assert_eq!(evaluate("1.2.3"), Err(ParserError::MalformedNumber));
    assert_eq!(evaluate("2 + ."), Err(ParserError::MalformedNumber));
    assert_eq!(evaluate("2 + 1..5 +"), Err(ParserError::MalformedNumber));
}

#[test]
fn division_by_zero_is_left_to_the_numbers() {
    assert_eq!(evaluate("1 / 0"), Ok(f64::INFINITY));
    assert_eq!(evaluate("-1 / 0"), Ok(f64::NEG_INFINITY));
    assert_eq!(evaluate("0 ^ -1"), Ok(f64::INFINITY));
    assert!(evaluate("0 / 0").unwrap().is_nan());
}

#[test]
fn decimals_are_read_in_every_form() {
    assert_eq!(evaluate(".5 + 5."), Ok(5.5));
    assert_eq!(evaluate("-.25 * 4"), Ok(-1.0));
    assert_eq!(evaluate("0010"), Ok(10.0));
}

#[test]
fn a_postfix_sequence_is_reduced_over_a_stack() {
    let postfix = vec![
        literal("2"),
        literal("3"),
        Symbol::BinaryOperator(Operation::Subtraction),
        literal("4"),
        Symbol::BinaryOperator(Operation::Multiplication),
    ];
    assert_eq!(evaluate_postfix(&postfix, number, apply), Ok(-4.0));
    assert_eq!(
        evaluate_postfix(&postfix, written, bracketed),
        Ok("((2 - 3) * 4)".to_string())
    );
    assert_eq!(evaluate_postfix(&vec![literal("9")], number, apply), Ok(9.0));
}

#[test]
fn a_postfix_sequence_with_a_fault_is_refused() {
    let lacking = vec![literal("2"), Symbol::BinaryOperator(Operation::Addition), literal("3")];
    assert_eq!(
        evaluate_postfix(&lacking, number, apply),
        Err(ParserError::InsufficientOperands)
    );
    let crowded = vec![literal("2"), literal("3")];
    assert_eq!(evaluate_postfix(&crowded, number, apply), Err(ParserError::InvalidExpression));
    assert_eq!(evaluate_postfix(&vec![], number, apply), Err(ParserError::InvalidExpression));
    let grouped = vec![Symbol::OpenParenthesis, literal("2"), Symbol::ClosedParenthesis];
    assert_eq!(evaluate_postfix(&grouped, number, apply), Err(ParserError::InvalidExpression));
    let ended = vec![literal("2"), Symbol::End];
    assert_eq!(evaluate_postfix(&ended, number, apply), Err(ParserError::InvalidExpression));
}

#[test]
fn a_parser_evaluates_its_own_text() {
    let parser = Parser::new("(1 + 2) * (3 + 4)");
    assert_eq!(parser.evaluate(number, apply), Ok(21.0));
    assert_eq!(parser.evaluate(number, apply), Ok(21.0));
    assert_eq!(parser.evaluate(written, bracketed), Ok("((1 + 2) * (3 + 4))".to_string()));
}

#[test]
fn faults_are_put_in_words() {
    assert_eq!(ParserError::MalformedNumber.to_string(), "Malformed number");
    assert_eq!(ParserError::MismatchedParenthesis.to_string(), "Mismatched parenthesis");
    assert_eq!(
        ParserError::InsufficientOperands.to_string(),
        "Not enough operands for operation"
    );
    assert_eq!(ParserError::InvalidExpression.to_string(), "Unexpected Stack Size");
}
