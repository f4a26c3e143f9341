//! Reducing a postfix sequence to one value over a stack.
//!
//! The library fixes which operation is applied to which operands and in
//! which order, not what a number or an operation is: the caller hands in a
//! function that gives a literal its value and one that applies an operation
//! to two values. The shape of the computation is an [`Expression`], and
//! [`evaluates_to`] says which values the caller's functions may give to it.
use vstd::prelude::*;
use crate::lexer::symbol::{tokens_of, Literal, Numeral, Operation, Symbol, Token};
use crate::parser::ParserError;

verus! {

/// An expression as a tree: a number, or an operation on two expressions.
pub enum Expression {
    Number(Numeral),
    Binary(Operation, Box<Expression>, Box<Expression>),
}

/// An operation with its left and its right operand.
pub open spec fn binary(operation: Operation, left: Expression, right: Expression) -> Expression {
    Expression::Binary(operation, Box::new(left), Box::new(right))
}

/// The stack after one token of a postfix sequence. A number is pushed. An
/// operator takes the two topmost expressions, the lower one as its left
/// operand and the topmost as its right operand, and pushes their
/// combination; with fewer than two it lacks operands. Nothing else can
/// stand in a postfix sequence.
pub open spec fn step(stack: Seq<Expression>, token: Token) -> Result<
    Seq<Expression>,
    ParserError,
> {
    match token {
        Token::Number(numeral) => Ok(stack.push(Expression::Number(numeral))),
        Token::Operator(operation) => if stack.len() < 2 {
            Err(ParserError::InsufficientOperands)
        } else {
            Ok(
                stack.take(stack.len() - 2).push(
                    binary(operation, stack[stack.len() - 2], stack[stack.len() - 1]),
                ),
            )
        },
        _ => Err(ParserError::InvalidExpression),
    }
}

/// The expression to which `tokens` reduce a stack: the one that is left
/// alone on the stack at the end.
pub open spec fn reduce(tokens: Seq<Token>, stack: Seq<Expression>) -> Result<
    Expression,
    ParserError,
>
    decreases tokens.len(),
{
    if tokens.len() == 0 {
        if stack.len() == 1 {
            Ok(stack[0])
        } else {
            Err(ParserError::InvalidExpression)
        }
    } else {
        match step(stack, tokens.first()) {
            Ok(next) => reduce(tokens.drop_first(), next),
            Err(error) => Err(error),
        }
    }
}

/// The expression that a postfix sequence stands for.
pub open spec fn expression_of(postfix: Seq<Token>) -> Result<Expression, ParserError> {
    reduce(postfix, Seq::empty())
}

/// The postfix sequence of an expression: its operands from left to right,
/// each in postfix order, and behind them its operator.
pub open spec fn postorder(expression: Expression) -> Seq<Token>
    decreases expression,
{
    match expression {
        Expression::Number(numeral) => seq![Token::Number(numeral)],
        Expression::Binary(operation, left, right) => postorder(*left) + postorder(*right)
            + seq![Token::Operator(operation)],
    }
}

/// The postfix sequences of the expressions on a stack, from the bottom up.
pub open spec fn postorder_all(stack: Seq<Expression>) -> Seq<Token>
    decreases stack.len(),
{
    if stack.len() == 0 {
        Seq::empty()
    } else {
        postorder_all(stack.drop_last()) + postorder(stack.last())
    }
}

/// Reducing the postfix sequence of an expression puts that expression on
/// the stack, whatever the stack holds and whatever follows.
pub proof fn lemma_reduce_postorder(
    expression: Expression,
    stack: Seq<Expression>,
    rest: Seq<Token>,
)
    ensures
        reduce(postorder(expression) + rest, stack) == reduce(rest, stack.push(expression)),
    decreases expression,
{
    match expression {
        Expression::Number(numeral) => {
            let tokens = postorder(expression) + rest;
            assert(tokens.first() == Token::Number(numeral));
            assert(tokens.drop_first() =~= rest);
        },
        Expression::Binary(operation, left, right) => {
            let tail = seq![Token::Operator(operation)] + rest;
            assert(postorder(expression) + rest =~= postorder(*left) + (postorder(*right) + tail));
            lemma_reduce_postorder(*left, stack, postorder(*right) + tail);
            lemma_reduce_postorder(*right, stack.push(*left), tail);
            let operands = stack.push(*left).push(*right);
            assert(tail.first() == Token::Operator(operation));
            assert(tail.drop_first() =~= rest);
            assert(operands.take(operands.len() - 2) =~= stack);
            assert(step(operands, tail.first()) == Ok::<Seq<Expression>, ParserError>(
                stack.push(expression),
            ));
        },
    }
}

/// A reduction that ends in an expression has worked through the postfix
/// sequence of that expression: what the stack held, then the tokens.
pub proof fn lemma_reduce_only_postorder(
    tokens: Seq<Token>,
    stack: Seq<Expression>,
    expression: Expression,
)
    requires
        reduce(tokens, stack) == Ok::<Expression, ParserError>(expression),
    ensures
        postorder_all(stack) + tokens == postorder(expression),
    decreases tokens.len(),
{
    if tokens.len() == 0 {
        assert(stack.drop_last() =~= Seq::empty());
        assert(postorder_all(stack.drop_last()) =~= Seq::empty());
        assert(postorder_all(stack) + tokens =~= postorder(expression));
    } else {
        let next = step(stack, tokens.first())->Ok_0;
        lemma_reduce_only_postorder(tokens.drop_first(), next, expression);
        match tokens.first() {
            Token::Operator(operation) => {
                let below = stack.take(stack.len() - 2);
                let left = stack[stack.len() - 2];
                let right = stack[stack.len() - 1];
                assert(next.drop_last() =~= below);
                assert(stack.drop_last().drop_last() =~= below);
                assert(postorder_all(stack.drop_last()) == postorder_all(below) + postorder(left));
                assert(postorder_all(stack) == postorder_all(below) + postorder(left) + postorder(
                    right,
                ));
                assert(postorder(next.last()) == postorder(left) + postorder(right)
                    + seq![tokens.first()]);
                assert(postorder_all(next) =~= postorder_all(stack) + seq![tokens.first()]);
            },
            _ => {
                assert(next.drop_last() =~= stack);
                assert(postorder_all(next) =~= postorder_all(stack) + seq![tokens.first()]);
            },
        }
        assert(postorder_all(stack) + tokens =~= postorder_all(next) + tokens.drop_first());
    }
}

/// A postfix sequence stands for an expression exactly if it is the postfix
/// sequence of that expression: the reduction over a stack undoes
/// [`postorder`], and accepts nothing else.
pub proof fn lemma_expression_of_postorder(postfix: Seq<Token>, expression: Expression)
    ensures
        expression_of(postfix) == Ok::<Expression, ParserError>(expression) <==> postfix
            == postorder(expression),
{
    if postfix == postorder(expression) {
        lemma_reduce_postorder(expression, Seq::empty(), Seq::empty());
        assert(postorder(expression) + Seq::empty() =~= postorder(expression));
    }
    if expression_of(postfix) == Ok::<Expression, ParserError>(expression) {
        lemma_reduce_only_postorder(postfix, Seq::empty(), expression);
        assert(postorder_all(Seq::empty()) + postfix =~= postfix);
    }
}

/// What a token adds to the number of values on the stack.
pub open spec fn weight(token: Token) -> int {
    match token {
        Token::Number(_) => 1,
        Token::Operator(_) => -1,
        _ => 0,
    }
}

/// How many more values the tokens put on the stack than they take away.
pub open spec fn height(tokens: Seq<Token>) -> int
    decreases tokens.len(),
{
    if tokens.len() == 0 {
        0
    } else {
        weight(tokens.first()) + height(tokens.drop_first())
    }
}

/// With `below` values on the stack before the tokens, every operator among
/// them finds its two operands.
pub open spec fn operands_suffice(tokens: Seq<Token>, below: int) -> bool {
    forall|k: int|
        0 <= k < tokens.len() && tokens[k] is Operator ==> below + #[trigger] height(
            tokens.take(k),
        ) >= 2
}

/// The tokens are numbers and operators.
pub open spec fn plain(tokens: Seq<Token>) -> bool {
    forall|k: int| 0 <= k < tokens.len() ==> #[trigger] tokens[k] is Number || tokens[k] is Operator
}

/// A sequence of numbers and operators reduces a stack to an expression
/// exactly if every operator finds two operands and one value is left at
/// the end. It lacks operands if some operator finds fewer than two, and is
/// invalid in the remaining case.
pub proof fn lemma_reduce_outcome(tokens: Seq<Token>, stack: Seq<Expression>)
    requires
        plain(tokens),
    ensures
        match reduce(tokens, stack) {
            Ok(_) => operands_suffice(tokens, stack.len() as int) && stack.len() + height(tokens)
                == 1,
            Err(ParserError::InsufficientOperands) => !operands_suffice(
                tokens,
                stack.len() as int,
            ),
            Err(ParserError::InvalidExpression) => operands_suffice(tokens, stack.len() as int)
                && stack.len() + height(tokens) != 1,
            Err(_) => false,
        },
    decreases tokens.len(),
{
    let below = stack.len() as int;
    if tokens.len() > 0 {
        let token = tokens.first();
        let rest = tokens.drop_first();
        assert(tokens.take(0) =~= Seq::<Token>::empty());
        assert(tokens[0] is Number || tokens[0] is Operator);
        assert forall|k: int| 1 <= k <= tokens.len() implies #[trigger] height(tokens.take(k))
            == weight(token) + height(rest.take(k - 1)) by {
            assert(tokens.take(k).first() == token);
            assert(tokens.take(k).drop_first() =~= rest.take(k - 1));
        }
        match step(stack, token) {
            Ok(next) => {
                assert forall|k: int| 0 <= k < rest.len() implies #[trigger] rest[k] is Number
                    || rest[k] is Operator by {
                    assert(rest[k] == tokens[k + 1]);
                }
                lemma_reduce_outcome(rest, next);
                let above = next.len() as int;
                assert(above == below + weight(token));
                if operands_suffice(tokens, below) {
                    assert forall|k: int| 0 <= k < rest.len() && rest[k] is Operator implies above
                        + #[trigger] height(rest.take(k)) >= 2 by {
                        assert(tokens[k + 1] == rest[k]);
                        assert(below + height(tokens.take(k + 1)) >= 2);
                    }
                }
                if operands_suffice(rest, above) {
                    assert forall|k: int|
                        0 <= k < tokens.len() && tokens[k] is Operator implies below
                        + #[trigger] height(tokens.take(k)) >= 2 by {
                        if k > 0 {
                            assert(tokens[k] == rest[k - 1]);
                            assert(above + height(rest.take(k - 1)) >= 2);
                        }
                    }
                }
            },
            Err(_) => {
                assert(below + height(tokens.take(0)) < 2);
            },
        }
    }
}

/// A postfix sequence of numbers and operators stands for an expression
/// exactly if every operator finds two operands and one value is left.
pub proof fn lemma_expression_of_outcome(postfix: Seq<Token>)
    requires
        plain(postfix),
    ensures
        match expression_of(postfix) {
            Ok(_) => operands_suffice(postfix, 0) && height(postfix) == 1,
            Err(ParserError::InsufficientOperands) => !operands_suffice(postfix, 0),
            Err(ParserError::InvalidExpression) => operands_suffice(postfix, 0) && height(postfix)
                != 1,
            Err(_) => false,
        },
{
    lemma_reduce_outcome(postfix, Seq::empty());
}

/// `value` is a value of `expression` where `number` gives the literals
/// their values and `apply` computes the operations: the left operand is the
/// second argument of `apply`, the right operand the third.
pub open spec fn evaluates_to<V, N, A>(
    number: N,
    apply: A,
    expression: Expression,
    value: V,
) -> bool where N: Fn(&Literal) -> V, A: Fn(Operation, V, V) -> V
    decreases expression,
{
    match expression {
        Expression::Number(numeral) => exists|literal: &Literal|
            literal@ == numeral && #[trigger] number.ensures((literal,), value),
        Expression::Binary(operation, left, right) => exists|b: V, a: V|
            evaluates_to(number, apply, *left, b) && evaluates_to(number, apply, *right, a)
                && #[trigger] apply.ensures((operation, b, a), value),
    }
}

/// The value of an expression where every number has the value that `worth`
/// gives it and every operation the result that `combine` gives it for its
/// left and its right operand.
pub open spec fn value_of<V>(
    worth: spec_fn(Numeral) -> V,
    combine: spec_fn(Operation, V, V) -> V,
    expression: Expression,
) -> V
    decreases expression,
{
    match expression {
        Expression::Number(numeral) => worth(numeral),
        Expression::Binary(operation, left, right) => combine(
            operation,
            value_of(worth, combine, *left),
            value_of(worth, combine, *right),
        ),
    }
}

/// Where the caller's functions give every literal one value, by what it
/// looks like, and every operation one result, an expression has one value.
pub proof fn lemma_one_value<V, N, A>(
    number: N,
    apply: A,
    worth: spec_fn(Numeral) -> V,
    combine: spec_fn(Operation, V, V) -> V,
    expression: Expression,
    value: V,
) where N: Fn(&Literal) -> V, A: Fn(Operation, V, V) -> V
    requires
        forall|literal: &Literal, v: V| #[trigger]
            number.ensures((literal,), v) ==> v == worth(literal@),
        forall|operation: Operation, b: V, a: V, v: V| #[trigger]
            apply.ensures((operation, b, a), v) ==> v == combine(operation, b, a),
        evaluates_to(number, apply, expression, value),
    ensures
        value == value_of(worth, combine, expression),
    decreases expression,
{
    match expression {
        Expression::Number(numeral) => {},
        Expression::Binary(operation, left, right) => {
            let (b, a) = choose|b: V, a: V|
                evaluates_to(number, apply, *left, b) && evaluates_to(number, apply, *right, a)
                    && #[trigger] apply.ensures((operation, b, a), value);
            lemma_one_value(number, apply, worth, combine, *left, b);
            lemma_one_value(number, apply, worth, combine, *right, a);
        },
    }
}

/// Reduces a postfix sequence to its value over a stack of values.
///
/// `number` gives a literal its value. `apply` takes an operator, the value
/// of its left operand and the value of its right operand, in this order.
/// A sequence in which an operator lacks an operand, or which leaves more or
/// less than one value, or which holds anything but numbers and operators,
/// has no value.
pub fn evaluate_postfix<V, N, A>(postfix: &Vec<Symbol>, number: N, apply: A) -> (result: Result<
    V,
    ParserError,
>) where N: Fn(&Literal) -> V, A: Fn(Operation, V, V) -> V
    requires
        forall|literal: &Literal| number.requires((literal,)),
        forall|operation: Operation, b: V, a: V| apply.requires((operation, b, a)),
    ensures
        match expression_of(tokens_of(postfix@)) {
            Ok(expression) => result matches Ok(value) && evaluates_to(
                number,
                apply,
                expression,
                value,
            ),
            Err(error) => result matches Err(e) && e == error,
        },
{
    let ghost all = tokens_of(postfix@);
    let ghost mut trees: Seq<Expression> = Seq::empty();
    let mut stack: Vec<V> = Vec::new();
    let mut i: usize = 0;
    assert(all.skip(0) =~= all);
    while i < postfix.len()
        invariant
            i <= postfix.len(),
            all == tokens_of(postfix@),
            trees.len() == stack.len(),
            forall|k: int|
                0 <= k < trees.len() ==> evaluates_to(number, apply, #[trigger] trees[k], stack@[k]),
            reduce(all.skip(i as int), trees) == expression_of(all),
            forall|literal: &Literal| number.requires((literal,)),
            forall|operation: Operation, b: V, a: V| apply.requires((operation, b, a)),
        decreases postfix.len() - i,
    {
        let ghost rest = all.skip(i as int);
        assert(rest.first() == postfix@[i as int]@);
        assert(rest.drop_first() =~= all.skip(i + 1));
        match &postfix[i] {
            Symbol::Number(literal) => {
                let value = number(literal);
                stack.push(value);
                proof {
                    trees = trees.push(Expression::Number(literal@));
                }
            },
            Symbol::BinaryOperator(operation) => {
                if stack.len() < 2 {
                    return Err(ParserError::InsufficientOperands);
                }
                let a = stack.pop().unwrap();
                let b = stack.pop().unwrap();
                let value = apply(*operation, b, a);
                stack.push(value);
                proof {
                    let left = trees[trees.len() - 2];
                    let right = trees[trees.len() - 1];
                    assert(evaluates_to(number, apply, left, b));
                    assert(evaluates_to(number, apply, right, a));
                    let combined = binary(*operation, left, right);
                    assert(apply.ensures((*operation, b, a), value));
                    assert(evaluates_to(number, apply, combined, value));
                    trees = trees.take(trees.len() - 2).push(combined);
                }
            },
            _ => {
                return Err(ParserError::InvalidExpression);
            },
        }
        i = i + 1;
    }
    if stack.len() != 1 {
        return Err(ParserError::InvalidExpression);
    }
    Ok(stack.pop().unwrap())
}

} // verus!
