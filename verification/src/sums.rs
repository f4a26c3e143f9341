//! Sums: numbers with plus signs between them are added up from the left,
//! and where the addition is commutative and associative their order does
//! not matter.
use vstd::prelude::*;
use vstd::seq_lib::{commutative_foldl, lemma_fold_left_permutation, to_multiset_len};
use crate::evaluator::{binary, evaluates_to, Expression};
use crate::grammar::{lemma_reads_what_is_written, Written};
use crate::lexer::symbol::{Literal, Numeral, Operation, Token};
use crate::lexer::{is_gap, layout, readable};
use crate::parser::{expression_in, ParserError};

verus! {

/// The sum of one or more numbers, written from left to right without
/// parentheses.
pub open spec fn sum(numerals: Seq<Numeral>) -> Written
    decreases numerals.len(),
{
    if numerals.len() <= 1 {
        Written::Number(numerals.last())
    } else {
        Written::Binary(
            Operation::Addition,
            Box::new(sum(numerals.drop_last())),
            Box::new(Written::Number(numerals.last())),
        )
    }
}

/// Well-formed numbers and plus signs in turn, a number first if
/// `number_first`.
pub open spec fn in_turn(tokens: Seq<Token>, number_first: bool) -> bool {
    forall|i: int|
        0 <= i < tokens.len() ==> if (i % 2 == 0) == number_first {
            #[trigger] tokens[i] matches Token::Number(numeral) && numeral.well_formed()
        } else {
            tokens[i] == Token::Operator(Operation::Addition)
        }
}

/// A sum is written by precedence, and its tokens are its numbers with a
/// plus sign between any two of them.
pub proof fn lemma_sum_tokens(numerals: Seq<Numeral>)
    requires
        numerals.len() > 0,
        forall|i: int| 0 <= i < numerals.len() ==> (#[trigger] numerals[i]).well_formed(),
    ensures
        sum(numerals).by_precedence(),
        sum(numerals).tokens().len() == 2 * numerals.len() - 1,
        in_turn(sum(numerals).tokens(), true),
    decreases numerals.len(),
{
    let last = Written::Number(numerals.last());
    assert(last.by_precedence());
    assert(last.tokens() == seq![Token::Number(numerals.last())]);
    if numerals.len() > 1 {
        let shorter = numerals.drop_last();
        assert forall|i: int| 0 <= i < shorter.len() implies (#[trigger] shorter[i]).well_formed() by {
            assert(shorter[i] == numerals[i]);
        }
        lemma_sum_tokens(shorter);
        let front = sum(shorter).tokens();
        let tokens = sum(numerals).tokens();
        assert(tokens == front + seq![Token::Operator(Operation::Addition)] + last.tokens());
        assert forall|i: int| 0 <= i < tokens.len() implies if i % 2 == 0 {
            #[trigger] tokens[i] matches Token::Number(numeral) && numeral.well_formed()
        } else {
            tokens[i] == Token::Operator(Operation::Addition)
        } by {
            if i < front.len() {
                assert(tokens[i] == front[i]);
            }
        }
    }
}

/// Numbers and plus signs in turn are readable with any gaps between them,
/// or with none.
pub proof fn lemma_in_turn_readable(tokens: Seq<Token>, gaps: Seq<Seq<char>>, number_first: bool)
    requires
        in_turn(tokens, number_first),
        gaps.len() == tokens.len() + 1,
        forall|i: int| 0 <= i < gaps.len() ==> is_gap(#[trigger] gaps[i]),
    ensures
        readable(tokens, gaps, !number_first),
    decreases tokens.len(),
{
    assert(is_gap(gaps[0]));
    if tokens.len() > 0 {
        let rest = tokens.drop_first();
        let rest_gaps = gaps.drop_first();
        assert forall|i: int| 0 <= i < rest_gaps.len() implies is_gap(#[trigger] rest_gaps[i]) by {
            assert(rest_gaps[i] == gaps[i + 1]);
        }
        assert forall|i: int| 0 <= i < rest.len() implies if (i % 2 == 0) == !number_first {
            #[trigger] rest[i] matches Token::Number(numeral) && numeral.well_formed()
        } else {
            rest[i] == Token::Operator(Operation::Addition)
        } by {
            assert(rest[i] == tokens[i + 1]);
        }
        lemma_in_turn_readable(rest, rest_gaps, !number_first);
        assert(tokens.first() == tokens[0]);
        if tokens.len() > 1 {
            assert(tokens[1] == rest[0]);
        }
    }
}

/// A sum of well-formed numbers is read as it is written, whatever gaps
/// stand between its tokens: the numbers are added from left to right.
pub proof fn lemma_sum_is_read(numerals: Seq<Numeral>, gaps: Seq<Seq<char>>)
    requires
        numerals.len() > 0,
        forall|i: int| 0 <= i < numerals.len() ==> (#[trigger] numerals[i]).well_formed(),
        gaps.len() == 2 * numerals.len(),
        forall|i: int| 0 <= i < gaps.len() ==> is_gap(#[trigger] gaps[i]),
    ensures
        expression_in(layout(sum(numerals).tokens(), gaps)) == Ok::<Expression, ParserError>(
            sum(numerals).meaning(),
        ),
{
    lemma_sum_tokens(numerals);
    lemma_in_turn_readable(sum(numerals).tokens(), gaps, true);
    lemma_reads_what_is_written(sum(numerals), gaps);
}

/// One more number added to what has been added so far, where `worth` is the
/// value of a number and `plus` adds two values.
pub open spec fn add_next<V>(worth: spec_fn(Numeral) -> V, plus: spec_fn(V, V) -> V) -> spec_fn(
    Option<V>,
    Numeral,
) -> Option<V> {
    |so_far: Option<V>, numeral: Numeral|
        match so_far {
            Some(value) => Some(plus(value, worth(numeral))),
            None => Some(worth(numeral)),
        }
}

/// Where the caller's functions give every literal one value and every
/// addition one result, the value of a sum is that of adding its numbers up
/// from the left.
pub proof fn lemma_sum_adds_up<V, N, A>(
    number: N,
    apply: A,
    worth: spec_fn(Numeral) -> V,
    plus: spec_fn(V, V) -> V,
    numerals: Seq<Numeral>,
    value: V,
) where N: Fn(&Literal) -> V, A: Fn(Operation, V, V) -> V
    requires
        forall|literal: &Literal, v: V| #[trigger]
            number.ensures((literal,), v) ==> v == worth(literal@),
        forall|b: V, a: V, v: V| #[trigger]
            apply.ensures((Operation::Addition, b, a), v) ==> v == plus(b, a),
        numerals.len() > 0,
        evaluates_to(number, apply, sum(numerals).meaning(), value),
    ensures
        numerals.fold_left(None, add_next(worth, plus)) == Some(value),
    decreases numerals.len(),
{
    let next = add_next(worth, plus);
    let shorter = numerals.drop_last();
    if numerals.len() == 1 {
        assert(shorter.fold_left(None, next) == None::<V>);
    } else {
        let left = sum(shorter).meaning();
        let right = Expression::Number(numerals.last());
        assert(Written::Number(numerals.last()).meaning() == right);
        assert(sum(numerals).meaning() == binary(Operation::Addition, left, right));
        let (b, a) = choose|b: V, a: V|
            evaluates_to(number, apply, left, b) && evaluates_to(number, apply, right, a)
                && #[trigger] apply.ensures((Operation::Addition, b, a), value);
        lemma_sum_adds_up(number, apply, worth, plus, shorter, b);
    }
}

/// Where the caller's addition is commutative and associative, the value of
/// a sum does not depend on the order of its numbers.
pub proof fn lemma_sum_in_any_order<V, N, A>(
    number: N,
    apply: A,
    worth: spec_fn(Numeral) -> V,
    plus: spec_fn(V, V) -> V,
    first: Seq<Numeral>,
    second: Seq<Numeral>,
    first_value: V,
    second_value: V,
) where N: Fn(&Literal) -> V, A: Fn(Operation, V, V) -> V
    requires
        forall|literal: &Literal, v: V| #[trigger]
            number.ensures((literal,), v) ==> v == worth(literal@),
        forall|b: V, a: V, v: V| #[trigger]
            apply.ensures((Operation::Addition, b, a), v) ==> v == plus(b, a),
        forall|x: V, y: V| #[trigger] plus(x, y) == plus(y, x),
        forall|x: V, y: V, z: V| #[trigger] plus(plus(x, y), z) == plus(x, plus(y, z)),
        first.len() > 0,
        first.to_multiset() == second.to_multiset(),
        evaluates_to(number, apply, sum(first).meaning(), first_value),
        evaluates_to(number, apply, sum(second).meaning(), second_value),
    ensures
        first_value == second_value,
{
    let next = add_next(worth, plus);
    to_multiset_len(first);
    to_multiset_len(second);
    lemma_sum_adds_up(number, apply, worth, plus, first, first_value);
    lemma_sum_adds_up(number, apply, worth, plus, second, second_value);
    assert(commutative_foldl(next)) by {
        assert forall|x: Numeral, y: Numeral, v: Option<V>| #[trigger]
            next(next(v, x), y) == next(next(v, y), x) by {
            match v {
                Some(value) => {
                    assert(plus(plus(value, worth(x)), worth(y)) == plus(
                        value,
                        plus(worth(x), worth(y)),
                    ));
                    assert(plus(plus(value, worth(y)), worth(x)) == plus(
                        value,
                        plus(worth(y), worth(x)),
                    ));
                },
                None => {},
            }
        }
    }
    lemma_fold_left_permutation(first, second, next, None);
}

} // verus!
