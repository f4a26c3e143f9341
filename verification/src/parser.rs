//! From the text of an expression to its postfix form and to its value.
use vstd::prelude::*;
use vstd::string::*;
use crate::evaluator::{
    evaluate_postfix, evaluates_to, expression_of, height, lemma_expression_of_outcome,
    operands_suffice, plain, Expression,
};
use crate::lexer::symbol::{tokens_of, Literal, Operation, Symbol, Token};
use crate::lexer::{lemma_scan_moves_on, Cursor, Lexed, Lexer};
use crate::shunting::{
    balanced, closes_only_open, depth, lemma_feed_all_nesting, lemma_opens_none,
    lemma_postfix_alphabet, postfix, ShuntingYard, Yard,
};

verus! {

/// Why an expression could not be evaluated.
#[derive(Clone, Copy, Debug, PartialEq, Eq, Hash, Structural)]
pub enum ParserError {
    /// A literal holds more than one decimal point, or no digit at all.
    MalformedNumber,
    /// A closing parenthesis has no opening one before it, or an opening one
    /// is never closed.
    MismatchedParenthesis,
    /// An operator found fewer than two values to work on.
    InsufficientOperands,
    /// The postfix sequence does not reduce to exactly one value.
    InvalidExpression,
}

impl ParserError {
    /// The fault in words.
    pub open spec fn description(self) -> Seq<char> {
        match self {
            ParserError::MalformedNumber => "Malformed number"@,
            ParserError::MismatchedParenthesis => "Mismatched parenthesis"@,
            ParserError::InsufficientOperands => "Not enough operands for operation"@,
            ParserError::InvalidExpression => "Unexpected Stack Size"@,
        }
    }

    /// The fault in words, for a message to the user.
    pub fn to_string(&self) -> (s: String)
        ensures
            s@ == self.description(),
    {
        match self {
            ParserError::MalformedNumber => String::from_str("Malformed number"),
            ParserError::MismatchedParenthesis => String::from_str("Mismatched parenthesis"),
            ParserError::InsufficientOperands => String::from_str(
                "Not enough operands for operation",
            ),
            ParserError::InvalidExpression => String::from_str("Unexpected Stack Size"),
        }
    }
}

/// The postfix sequence that results when the tokens of a scan are fed to a
/// shunting yard in the order in which they are found. A mismatched
/// parenthesis among the tokens comes before the malformed literal that ended
/// the scan.
pub open spec fn shunted(lexed: Lexed, yard: Yard) -> Result<Seq<Token>, ParserError> {
    match yard.feed_all(lexed.tokens) {
        Ok(fed) => if lexed.malformed {
            Err(ParserError::MalformedNumber)
        } else {
            fed.finish()
        },
        Err(error) => Err(error),
    }
}

/// The postfix form of the expression that `input` holds.
pub open spec fn postfix_of(input: Seq<char>) -> Result<Seq<Token>, ParserError> {
    shunted(Cursor::start(input).lex(), Yard::empty())
}

/// The expression that `input` holds, as a tree.
pub open spec fn expression_in(input: Seq<char>) -> Result<Expression, ParserError> {
    match postfix_of(input) {
        Ok(sequence) => expression_of(sequence),
        Err(error) => Err(error),
    }
}

/// A text has a postfix form exactly if its literals are well formed and its
/// parentheses balanced. It is mismatched if a closing parenthesis, before
/// any malformed literal, closes none that is open, or if without a
/// malformed literal an opening parenthesis is left open; it has a malformed
/// number in the remaining case, and never another fault.
pub proof fn lemma_postfix_of_outcome(input: Seq<char>)
    ensures
        ({
            let lexed = Cursor::start(input).lex();
            match postfix_of(input) {
                Ok(_) => !lexed.malformed && balanced(lexed.tokens),
                Err(ParserError::MismatchedParenthesis) => !closes_only_open(lexed.tokens, 0) || (
                !lexed.malformed && depth(lexed.tokens) != 0),
                Err(ParserError::MalformedNumber) => lexed.malformed && closes_only_open(
                    lexed.tokens,
                    0,
                ),
                Err(_) => false,
            }
        }),
{
    let lexed = Cursor::start(input).lex();
    lemma_feed_all_nesting(Yard::empty(), lexed.tokens);
    match Yard::empty().feed_all(lexed.tokens) {
        Ok(last) => {
            lemma_opens_none(last.stack);
        },
        Err(_) => {},
    }
}

/// A text that has no postfix form holds no expression, for the same fault.
/// One that has a postfix form, which then is made of numbers and operators,
/// holds an expression exactly if every operator in that form finds two
/// operands and one value is left; it lacks operands if an operator finds
/// fewer, and is invalid in the remaining case.
pub proof fn lemma_expression_in_outcome(input: Seq<char>)
    ensures
        match postfix_of(input) {
            Ok(sequence) => plain(sequence) && match expression_in(input) {
                Ok(_) => operands_suffice(sequence, 0) && height(sequence) == 1,
                Err(ParserError::InsufficientOperands) => !operands_suffice(sequence, 0),
                Err(ParserError::InvalidExpression) => operands_suffice(sequence, 0) && height(
                    sequence,
                ) != 1,
                Err(_) => false,
            },
            Err(error) => expression_in(input) == Err::<Expression, ParserError>(error),
        },
{
    let lexed = Cursor::start(input).lex();
    match postfix_of(input) {
        Ok(sequence) => {
            assert(postfix(lexed.tokens) == Ok::<Seq<Token>, ParserError>(sequence));
            lemma_postfix_alphabet(lexed.tokens);
            lemma_expression_of_outcome(sequence);
        },
        Err(_) => {},
    }
}

/// What a text is read as depends on the text alone: reading it again, with
/// another parser, gives the same postfix sequence and the same expression.
pub proof fn lemma_reading_repeats(first: Parser, second: Parser)
    requires
        first@ == second@,
    ensures
        postfix_of(first@) == postfix_of(second@),
        expression_in(first@) == expression_in(second@),
{
}

/// An expression, kept as the text it was written in.
pub struct Parser {
    input: String,
}

impl View for Parser {
    type V = Seq<char>;

    closed spec fn view(&self) -> Seq<char> {
        self.input@
    }
}

impl Parser {
    /// A parser for the expression that `input` holds.
    pub fn new(input: &str) -> (parser: Parser)
        ensures
            parser@ == input@,
    {
        Parser { input: input.to_owned() }
    }

    /// Evaluates the expression in `input`: see [`Parser::evaluate`].
    pub fn eval<V, N, A>(input: &str, number: N, apply: A) -> (result: Result<
        V,
        ParserError,
    >) where N: Fn(&Literal) -> V, A: Fn(Operation, V, V) -> V
        requires
            forall|literal: &Literal| number.requires((literal,)),
            forall|operation: Operation, b: V, a: V| apply.requires((operation, b, a)),
        ensures
            match expression_in(input@) {
                Ok(expression) => result matches Ok(value) && evaluates_to(
                    number,
                    apply,
                    expression,
                    value,
                ),
                Err(error) => result matches Err(e) && e == error,
            },
    {
        let p = Parser::new(input);
        p.evaluate(number, apply)
    }

    /// Evaluates the expression, with `number` for the value of a literal
    /// and `apply` for the result of an operation on a left and a right
    /// operand. It fails with the first fault that reading the expression
    /// from left to right finds, and on an expression without faults with
    /// one that its postfix form holds.
    pub fn evaluate<V, N, A>(&self, number: N, apply: A) -> (result: Result<
        V,
        ParserError,
    >) where N: Fn(&Literal) -> V, A: Fn(Operation, V, V) -> V
        requires
            forall|literal: &Literal| number.requires((literal,)),
            forall|operation: Operation, b: V, a: V| apply.requires((operation, b, a)),
        ensures
            match expression_in(self@) {
                Ok(expression) => result matches Ok(value) && evaluates_to(
                    number,
                    apply,
                    expression,
                    value,
                ),
                Err(error) => result matches Err(e) && e == error,
            },
    {
        match self.transform() {
            Ok(postfix) => evaluate_postfix(&postfix, number, apply),
            Err(error) => Err(error),
        }
    }

    /// Reads the expression and brings its symbols into postfix order.
    pub fn transform(&self) -> (done: Result<Vec<Symbol>, ParserError>)
        ensures
            match postfix_of(self@) {
                Ok(sequence) => done matches Ok(symbols) && tokens_of(symbols@) == sequence,
                Err(error) => done matches Err(e) && e == error,
            },
    {
        let mut lexer = Lexer::new(self.input.as_str());
        let mut yard = ShuntingYard::new();
        loop
            invariant
                lexer@.input == self@,
                lexer@.position <= lexer@.input.len(),
                shunted(lexer@.lex(), yard@) == postfix_of(self@),
            decreases lexer@.input.len() - lexer@.position,
        {
            let ghost cursor = lexer@;
            let ghost rest = cursor.scan().cursor.lex().tokens;
            proof {
                lemma_scan_moves_on(cursor);
            }
            match lexer.next_symbol() {
                Err(error) => {
                    return Err(error);
                },
                Ok(Symbol::End) => {
                    return yard.finish();
                },
                Ok(symbol) => {
                    assert(cursor.lex().tokens == seq![symbol@] + rest);
                    assert(cursor.lex().tokens.first() == symbol@);
                    assert(cursor.lex().tokens.drop_first() =~= rest);
                    match yard.feed(symbol) {
                        Ok(next) => {
                            yard = next;
                        },
                        Err(error) => {
                            return Err(error);
                        },
                    }
                },
            }
        }
    }

    /// The rank of an operator: exponentiation binds before multiplication
    /// and division, and these before addition and subtraction.
    pub fn get_precedence(op: &Operation) -> (rank: u8)
        ensures
            rank == op.precedence(),
    {
        match op {
            Operation::Pow => 3,
            Operation::Multiplication | Operation::Division => 2,
            Operation::Addition | Operation::Subtraction => 1,
        }
    }
}

} // verus!
