use exprcalc::lexer::symbol::{Literal, Operation};
use exprcalc::parser::{Parser, ParserError};

fn number(literal: &Literal) -> f64 {
    let magnitude = literal.text.parse::<f64>().unwrap();
    if literal.negative {
        -1f64 * magnitude
    } else {
        magnitude
    }
}

fn apply(operation: Operation, b: f64, a: f64) -> f64 {
    match operation {
        Operation::Pow => b.powf(a),
        Operation::Multiplication => a * b,
        Operation::Division => b / a,
        Operation::Addition => b + a,
        Operation::Subtraction => b - a,
    }
}

fn eval(input: &str) -> Result<f64, ParserError> {
    Parser::eval(input, number, apply)
}

#[test]
fn can_be_created() {
    let _parser = Parser::new("5 * (3 + 2)");

    assert!(true);
}

#[test]
fn can_evaluate_expression() {
    let parser = Parser::new("5 * (3 + 2)^2");
    let result = parser.evaluate(number, apply);

    assert_eq!(result, Ok(5. * 25.));
}

#[test]
fn uses_the_correct_order_for_non_commutative_operations() {
    let parser = Parser::new("5 * (3 - 2)/2");
    let result = parser.evaluate(number, apply);

    assert_eq!(result, Ok(2.5));
}

#[test]
fn works_with_decimals() {
    let parser = Parser::new("2.5 + 3.1415");
    let result = parser.evaluate(number, apply);

    assert_eq!(result, Ok(2.5 + 3.1415));
}

#[test]
fn works_with_exponents() {
    let parser = Parser::new("12 + 2^2");
    let result = parser.evaluate(number, apply);

    assert_eq!(result, Ok(16f64));
}

#[test]
fn has_a_static_convenience_method() {
    assert_eq!(eval("1 + 2"), Ok(3f64));
}

#[test]
fn works_with_negative_numbers() {
    assert_eq!(eval("-12 + 2"), Ok(-10.0));
    assert_eq!(eval("2-2"), Ok(0.0));
    assert_eq!(eval("2--2"), Ok(4.0));
    assert_eq!(eval("2*-2"), Ok(-4.0));
    assert_eq!(eval("2^-2"), Ok(2f64.powf(-2.0)));
}

#[test]
fn pow_works() {
    assert_eq!(eval("23 ^ 2"), Ok(23.0 * 23.0));
}
