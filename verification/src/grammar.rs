//! What the transformation is for: an expression written with the usual
//! rules of precedence means a tree, and the postfix form of its tokens is
//! the postfix sequence of that tree.
use vstd::prelude::*;
use crate::evaluator::{binary, expression_of, lemma_expression_of_postorder, postorder, Expression};
use crate::lexer::symbol::{Numeral, Operation, Token};
use crate::lexer::{
    is_gap, layout, legible, lemma_apart_is_readable, lemma_lex_laid_out, readable, Cursor, Lexed,
};
use crate::parser::{expression_in, postfix_of, ParserError};
use crate::shunting::{
    gives_way, inside_parentheses, lemma_leaving_run, lemma_unload_run, postfix, Yard,
};

verus! {

/// An expression as it is written, with the parentheses that group it.
pub enum Written {
    Number(Numeral),
    /// An expression in parentheses.
    Group(Box<Written>),
    /// An operator between its left and its right operand.
    Binary(Operation, Box<Written>, Box<Written>),
}

impl Written {
    /// The tokens in the order of writing.
    pub open spec fn tokens(self) -> Seq<Token>
        decreases self,
    {
        match self {
            Written::Number(numeral) => seq![Token::Number(numeral)],
            Written::Group(inner) => seq![Token::Open] + inner.tokens() + seq![Token::Close],
            Written::Binary(operation, left, right) => left.tokens() + seq![
                Token::Operator(operation),
            ] + right.tokens(),
        }
    }

    /// The expression that is meant: parentheses group and leave no other
    /// trace.
    pub open spec fn meaning(self) -> Expression
        decreases self,
    {
        match self {
            Written::Number(numeral) => Expression::Number(numeral),
            Written::Group(inner) => inner.meaning(),
            Written::Binary(operation, left, right) => binary(
                operation,
                left.meaning(),
                right.meaning(),
            ),
        }
    }

    /// How tightly the expression holds together: as its operator binds, and
    /// a number or a group tighter than any operator.
    pub open spec fn binding(self) -> nat {
        match self {
            Written::Binary(operation, _, _) => operation.precedence(),
            _ => Operation::Pow.precedence() + 1,
        }
    }

    /// The writing agrees with the rules of precedence: no operand binds
    /// looser than its operator, and a right operand binds tighter, so that
    /// operators of one precedence group from the left. Anything else needs
    /// parentheses.
    pub open spec fn by_precedence(self) -> bool
        decreases self,
    {
        match self {
            Written::Number(_) => true,
            Written::Group(inner) => inner.by_precedence(),
            Written::Binary(operation, left, right) => {
                &&& left.by_precedence()
                &&& right.by_precedence()
                &&& operation.precedence() <= left.binding()
                &&& operation.precedence() < right.binding()
            },
        }
    }

    /// Every number in the expression is well formed.
    pub open spec fn legible(self) -> bool
        decreases self,
    {
        match self {
            Written::Number(numeral) => numeral.well_formed(),
            Written::Group(inner) => inner.legible(),
            Written::Binary(_, left, right) => left.legible() && right.legible(),
        }
    }

    /// The first token of the expression is a negative number.
    pub open spec fn starts_negative(self) -> bool
        decreases self,
    {
        match self {
            Written::Number(numeral) => numeral.negative,
            Written::Group(_) => false,
            Written::Binary(_, left, _) => left.starts_negative(),
        }
    }

    /// The last token of the expression is a number.
    pub open spec fn ends_in_number(self) -> bool
        decreases self,
    {
        match self {
            Written::Number(_) => true,
            Written::Group(_) => false,
            Written::Binary(_, _, right) => right.ends_in_number(),
        }
    }

    /// The operators that still wait on the stack when the expression has
    /// been read: its own and those of its right operands, the outermost
    /// first.
    pub open spec fn waiting(self) -> Seq<Token>
        decreases self,
    {
        match self {
            Written::Binary(operation, _, right) => seq![Token::Operator(operation)]
                + right.waiting(),
            _ => Seq::empty(),
        }
    }

    /// What has reached the output when the expression has been read.
    pub open spec fn settled(self) -> Seq<Token>
        decreases self,
    {
        match self {
            Written::Number(numeral) => seq![Token::Number(numeral)],
            Written::Group(inner) => postorder(inner.meaning()),
            Written::Binary(_, left, right) => postorder(left.meaning()) + right.settled(),
        }
    }
}

/// The operators that wait bind no looser than the expression, and once they
/// have followed what is settled, the postfix sequence is complete.
pub proof fn lemma_waiting(written: Written)
    requires
        written.by_precedence(),
    ensures
        forall|i: int|
            0 <= i < written.waiting().len() ==> gives_way(written.binding())(
                #[trigger] written.waiting()[i],
            ),
        written.settled() + written.waiting().reverse() == postorder(written.meaning()),
    decreases written,
{
    match written {
        Written::Binary(operation, left, right) => {
            lemma_waiting(*right);
            let first = seq![Token::Operator(operation)];
            assert(written.waiting().reverse() =~= right.waiting().reverse() + first);
            assert(written.settled() + written.waiting().reverse() =~= postorder(left.meaning())
                + (right.settled() + right.waiting().reverse()) + first);
            assert forall|i: int| 0 <= i < written.waiting().len() implies gives_way(
                written.binding(),
            )(#[trigger] written.waiting()[i]) by {
                if i > 0 {
                    assert(written.waiting()[i] == right.waiting()[i - 1]);
                }
            }
        },
        _ => {
            assert(written.waiting().reverse() =~= Seq::empty());
            assert(written.settled() + written.waiting().reverse() =~= written.settled());
        },
    }
}

/// The yard after `written` has been read in `yard`.
pub open spec fn after_reading(yard: Yard, written: Written) -> Yard {
    Yard { output: yard.output + written.settled(), stack: yard.stack + written.waiting() }
}

/// Reading an expression that is written by precedence, in a yard whose
/// stack top does not give way to it, settles part of its postfix sequence
/// in the output and leaves the rest waiting on the stack; what was there
/// before is untouched.
pub proof fn lemma_read(written: Written, yard: Yard, rest: Seq<Token>)
    requires
        written.by_precedence(),
        yard.stack.len() == 0 || !gives_way(written.binding())(yard.stack.last()),
    ensures
        yard.feed_all(written.tokens() + rest) == after_reading(yard, written).feed_all(rest),
    decreases written,
{
    match written {
        Written::Number(numeral) => {
            let tokens = written.tokens() + rest;
            let after = after_reading(yard, written);
            assert(tokens.first() == Token::Number(numeral));
            assert(tokens.drop_first() =~= rest);
            assert(after.output =~= yard.output.push(Token::Number(numeral)));
            assert(after.stack =~= yard.stack);
        },
        Written::Group(inner) => {
            lemma_read(*inner, yard.wait(Token::Open), seq![Token::Close] + rest);
            lemma_read_group(*inner, yard, rest);
        },
        Written::Binary(operation, left, right) => {
            let arriving = Token::Operator(operation);
            lemma_read(*left, yard, seq![arriving] + (right.tokens() + rest));
            lemma_read(*right, between(yard, operation, *left), rest);
            lemma_read_binary(operation, *left, *right, yard, rest);
        },
    }
}

/// The yard between the operands of an operator: the left operand is
/// complete in the output and the operator waits.
pub open spec fn between(yard: Yard, operation: Operation, left: Written) -> Yard {
    Yard {
        output: yard.output + postorder(left.meaning()),
        stack: yard.stack.push(Token::Operator(operation)),
    }
}

proof fn lemma_read_group(inner: Written, yard: Yard, rest: Seq<Token>)
    requires
        inner.by_precedence(),
        yard.wait(Token::Open).feed_all(inner.tokens() + (seq![Token::Close] + rest))
            == after_reading(yard.wait(Token::Open), inner).feed_all(seq![Token::Close] + rest),
    ensures
        yard.feed_all(Written::Group(Box::new(inner)).tokens() + rest) == after_reading(
            yard,
            Written::Group(Box::new(inner)),
        ).feed_all(rest),
{
    let written = Written::Group(Box::new(inner));
    let tokens = written.tokens() + rest;
    let closing = seq![Token::Close] + rest;
    let opened = yard.wait(Token::Open);
    let read = after_reading(opened, inner);
    let after = after_reading(yard, written);
    assert(tokens.first() == Token::Open);
    assert(tokens.drop_first() =~= inner.tokens() + closing);
    assert(yard.feed_all(tokens) == read.feed_all(closing));
    assert(closing.first() == Token::Close);
    assert(closing.drop_first() =~= rest);
    lemma_waiting(inner);
    assert forall|i: int| 0 <= i < inner.waiting().len() implies inside_parentheses()(
        #[trigger] inner.waiting()[i],
    ) by {
        assert(gives_way(inner.binding())(inner.waiting()[i]));
    }
    lemma_leaving_run(opened.stack, inner.waiting(), inside_parentheses());
    lemma_unload_run(read.output, opened.stack, inner.waiting());
    let closed = read.feed(Token::Close)->Ok_0;
    assert(opened.stack.drop_last() =~= yard.stack);
    assert(closed.stack == yard.stack);
    assert(closed.output =~= yard.output + (inner.settled() + inner.waiting().reverse()));
    assert(after.stack =~= yard.stack);
    assert(closed == after);
    assert(read.feed_all(closing) == closed.feed_all(rest));
}

proof fn lemma_read_binary(
    operation: Operation,
    left: Written,
    right: Written,
    yard: Yard,
    rest: Seq<Token>,
)
    requires
        left.by_precedence(),
        operation.precedence() <= left.binding(),
        yard.stack.len() == 0 || !gives_way(operation.precedence())(yard.stack.last()),
        yard.feed_all(left.tokens() + (seq![Token::Operator(operation)] + (right.tokens() + rest)))
            == after_reading(yard, left).feed_all(
            seq![Token::Operator(operation)] + (right.tokens() + rest),
        ),
        between(yard, operation, left).feed_all(right.tokens() + rest) == after_reading(
            between(yard, operation, left),
            right,
        ).feed_all(rest),
    ensures
        yard.feed_all(Written::Binary(operation, Box::new(left), Box::new(right)).tokens() + rest)
            == after_reading(
            yard,
            Written::Binary(operation, Box::new(left), Box::new(right)),
        ).feed_all(rest),
{
    let written = Written::Binary(operation, Box::new(left), Box::new(right));
    let arriving = Token::Operator(operation);
    let tokens = written.tokens() + rest;
    let tail = seq![arriving] + (right.tokens() + rest);
    let read = after_reading(yard, left);
    let fed = between(yard, operation, left);
    let after = after_reading(yard, written);
    assert(tokens =~= left.tokens() + tail);
    assert(tail.first() == arriving);
    assert(tail.drop_first() =~= right.tokens() + rest);
    lemma_waiting(left);
    let leaves = gives_way(operation.precedence());
    assert forall|i: int| 0 <= i < left.waiting().len() implies leaves(
        #[trigger] left.waiting()[i],
    ) by {
        assert(gives_way(left.binding())(left.waiting()[i]));
    }
    lemma_leaving_run(yard.stack, left.waiting(), leaves);
    lemma_unload_run(read.output, yard.stack, left.waiting());
    assert(read.feed(arriving)->Ok_0.output =~= yard.output + (left.settled()
        + left.waiting().reverse()));
    assert(read.feed(arriving) == Ok::<Yard, ParserError>(fed));
    assert(read.feed_all(tail) == fed.feed_all(right.tokens() + rest));
    assert(after.output =~= fed.output + right.settled());
    assert(after.stack =~= fed.stack + right.waiting());
}

/// The postfix form of an expression that is written by precedence is the
/// postfix sequence of the expression that is meant, and reduces to it.
pub proof fn lemma_postfix_of_written(written: Written)
    requires
        written.by_precedence(),
    ensures
        postfix(written.tokens()) == Ok::<Seq<Token>, ParserError>(postorder(written.meaning())),
        expression_of(postorder(written.meaning())) == Ok::<Expression, ParserError>(
            written.meaning(),
        ),
{
    let read = Yard { output: written.settled(), stack: written.waiting() };
    lemma_read(written, Yard::empty(), Seq::empty());
    assert(written.tokens() + Seq::empty() =~= written.tokens());
    assert(Yard::empty().output + written.settled() =~= written.settled());
    assert(Yard::empty().stack + written.waiting() =~= written.waiting());
    lemma_waiting(written);
    assert(!read.unclosed()) by {
        if read.unclosed() {
            let i = choose|i: int| 0 <= i < read.stack.len() && #[trigger] read.stack[i] is Open;
            assert(gives_way(written.binding())(written.waiting()[i]));
        }
    }
    lemma_expression_of_postorder(postorder(written.meaning()), written.meaning());
}

/// A text whose tokens are those of an expression written by precedence
/// holds the expression that is meant.
pub proof fn lemma_expression_in_text(input: Seq<char>, written: Written)
    requires
        written.by_precedence(),
        Cursor::start(input).lex() == (Lexed { tokens: written.tokens(), malformed: false }),
    ensures
        postfix_of(input) == Ok::<Seq<Token>, ParserError>(postorder(written.meaning())),
        expression_in(input) == Ok::<Expression, ParserError>(written.meaning()),
{
    lemma_postfix_of_written(written);
}

/// The tokens of an expression with well-formed numbers can be read back
/// from their spelling, wherever no number stands directly before a negative
/// number at its start.
pub proof fn lemma_written_legible(written: Written, after_number: bool, rest: Seq<Token>)
    requires
        written.legible(),
        !(after_number && written.starts_negative()),
        legible(rest, written.ends_in_number()),
    ensures
        legible(written.tokens() + rest, after_number),
    decreases written,
{
    let tokens = written.tokens() + rest;
    match written {
        Written::Number(numeral) => {
            assert(tokens.first() == Token::Number(numeral));
            assert(tokens.drop_first() =~= rest);
        },
        Written::Group(inner) => {
            let closing = seq![Token::Close] + rest;
            assert(closing.first() == Token::Close);
            assert(closing.drop_first() =~= rest);
            lemma_written_legible(*inner, false, closing);
            assert(tokens.first() == Token::Open);
            assert(tokens.drop_first() =~= inner.tokens() + closing);
        },
        Written::Binary(operation, left, right) => {
            let tail = seq![Token::Operator(operation)] + (right.tokens() + rest);
            lemma_written_legible(*right, false, rest);
            assert(tail.first() == Token::Operator(operation));
            assert(tail.drop_first() =~= right.tokens() + rest);
            lemma_written_legible(*left, after_number, tail);
            assert(tokens =~= left.tokens() + tail);
        },
    }
}

/// Every expression that is written by precedence is read as the expression
/// that is meant, whatever stands between its tokens as long as they stay
/// readable.
pub proof fn lemma_reads_what_is_written(written: Written, gaps: Seq<Seq<char>>)
    requires
        written.by_precedence(),
        readable(written.tokens(), gaps, false),
    ensures
        postfix_of(layout(written.tokens(), gaps)) == Ok::<Seq<Token>, ParserError>(
            postorder(written.meaning()),
        ),
        expression_in(layout(written.tokens(), gaps)) == Ok::<Expression, ParserError>(
            written.meaning(),
        ),
{
    let text = layout(written.tokens(), gaps);
    lemma_lex_laid_out(Seq::empty(), written.tokens(), gaps, false);
    assert(Seq::<char>::empty() + text =~= text);
    lemma_expression_in_text(text, written);
}

/// Every expression that is written by precedence, with well-formed numbers
/// and a gap that is not empty between any two tokens, is read as the
/// expression that is meant.
pub proof fn lemma_reads_what_is_written_apart(written: Written, gaps: Seq<Seq<char>>)
    requires
        written.by_precedence(),
        written.legible(),
        gaps.len() == written.tokens().len() + 1,
        forall|i: int| 0 <= i < gaps.len() ==> is_gap(#[trigger] gaps[i]),
        forall|i: int| 0 < i < written.tokens().len() ==> (#[trigger] gaps[i]).len() > 0,
    ensures
        expression_in(layout(written.tokens(), gaps)) == Ok::<Expression, ParserError>(
            written.meaning(),
        ),
{
    let tokens = written.tokens();
    lemma_written_legible(written, false, Seq::empty());
    assert(tokens + Seq::empty() =~= tokens);
    lemma_apart_is_readable(tokens, gaps, false);
    lemma_reads_what_is_written(written, gaps);
}

} // verus!
