//! The shunting-yard algorithm: from symbols in the order of writing to
//! symbols in postfix order.
//!
//! [`Yard`] is the mathematical model: an output sequence and a stack of
//! operators and opening parentheses, with [`Yard::feed`] for one token and
//! [`Yard::finish`] for the end of the expression.
use vstd::prelude::*;
use crate::lexer::symbol::{tokens_of, Symbol, Token};
use crate::parser::{Parser, ParserError};

verus! {

/// How many entries leave `stack` from its top before one stays: the length
/// of the longest run of entries at the top that all satisfy `leaves`.
pub open spec fn leaving(stack: Seq<Token>, leaves: spec_fn(Token) -> bool) -> nat
    decreases stack.len(),
{
    if stack.len() > 0 && leaves(stack.last()) {
        1 + leaving(stack.drop_last(), leaves)
    } else {
        0
    }
}

/// An operator on the stack gives way to an arriving operator of precedence
/// `rank` if its own precedence is not lower: operators of one precedence
/// group from the left.
pub open spec fn gives_way(rank: nat) -> spec_fn(Token) -> bool {
    |token: Token| token matches Token::Operator(operation) && rank <= operation.precedence()
}

/// Everything but an opening parenthesis leaves the stack when a closing
/// parenthesis arrives.
pub open spec fn inside_parentheses() -> spec_fn(Token) -> bool {
    |token: Token| !(token is Open)
}

/// The state of the transformation.
pub struct Yard {
    /// The postfix sequence as far as it is settled.
    pub output: Seq<Token>,
    /// Operators and opening parentheses that wait, the latest at the end.
    pub stack: Seq<Token>,
}

impl Yard {
    /// The state before the first token.
    pub open spec fn empty() -> Yard {
        Yard { output: Seq::empty(), stack: Seq::empty() }
    }

    /// The top `count` entries of the stack go to the output, the topmost
    /// first.
    pub open spec fn unload(self, count: nat) -> Yard {
        let kept = self.stack.len() - count;
        Yard {
            output: self.output + self.stack.subrange(kept, self.stack.len() as int).reverse(),
            stack: self.stack.take(kept),
        }
    }

    /// `token` goes onto the stack.
    pub open spec fn wait(self, token: Token) -> Yard {
        Yard { output: self.output, stack: self.stack.push(token) }
    }

    /// The state after one more token.
    ///
    /// A number goes to the output. An operator first sends to the output
    /// the operators on top of the stack that give way to it, then waits on
    /// the stack. An opening parenthesis waits on the stack. A closing
    /// parenthesis sends everything above the nearest opening parenthesis to
    /// the output and removes that parenthesis; without one it is
    /// mismatched. An end marker changes nothing.
    pub open spec fn feed(self, token: Token) -> Result<Yard, ParserError> {
        match token {
            Token::Number(_) => Ok(Yard { output: self.output.push(token), stack: self.stack }),
            Token::Operator(operation) => Ok(
                self.unload(leaving(self.stack, gives_way(operation.precedence()))).wait(token),
            ),
            Token::Open => Ok(self.wait(token)),
            Token::Close => {
                let inner = self.unload(leaving(self.stack, inside_parentheses()));
                if inner.stack.len() > 0 {
                    Ok(Yard { output: inner.output, stack: inner.stack.drop_last() })
                } else {
                    Err(ParserError::MismatchedParenthesis)
                }
            },
            Token::End => Ok(self),
        }
    }

    /// The state after all of `tokens`, or the first failure.
    pub open spec fn feed_all(self, tokens: Seq<Token>) -> Result<Yard, ParserError>
        decreases tokens.len(),
    {
        if tokens.len() == 0 {
            Ok(self)
        } else {
            match self.feed(tokens.first()) {
                Ok(next) => next.feed_all(tokens.drop_first()),
                Err(error) => Err(error),
            }
        }
    }

    /// An opening parenthesis still waits for its partner.
    pub open spec fn unclosed(self) -> bool {
        exists|i: int| 0 <= i < self.stack.len() && #[trigger] self.stack[i] is Open
    }

    /// The postfix sequence at the end of the expression: the output, then
    /// what waits on the stack, the topmost first.
    pub open spec fn finish(self) -> Result<Seq<Token>, ParserError> {
        if self.unclosed() {
            Err(ParserError::MismatchedParenthesis)
        } else {
            Ok(self.output + self.stack.reverse())
        }
    }
}

/// The postfix form of a sequence of tokens.
pub open spec fn postfix(tokens: Seq<Token>) -> Result<Seq<Token>, ParserError> {
    match Yard::empty().feed_all(tokens) {
        Ok(yard) => yard.finish(),
        Err(error) => Err(error),
    }
}

impl Yard {
    /// Numbers and operators are in the output, and nothing but operators
    /// and opening parentheses waits on the stack.
    pub open spec fn tidy(self) -> bool {
        &&& forall|i: int|
            0 <= i < self.output.len() ==> #[trigger] self.output[i] is Number
                || self.output[i] is Operator
        &&& forall|i: int|
            0 <= i < self.stack.len() ==> #[trigger] self.stack[i] is Operator
                || self.stack[i] is Open
    }
}

/// What leaves the stack is the run of `leaving` entries at its top: each of
/// them leaves, and the one below stays.
pub proof fn lemma_leaving(stack: Seq<Token>, leaves: spec_fn(Token) -> bool)
    ensures
        leaving(stack, leaves) <= stack.len(),
        forall|i: int|
            stack.len() - leaving(stack, leaves) <= i < stack.len() ==> leaves(#[trigger] stack[i]),
        leaving(stack, leaves) < stack.len() ==> !leaves(
            stack[stack.len() - leaving(stack, leaves) - 1],
        ),
    decreases stack.len(),
{
    if stack.len() > 0 && leaves(stack.last()) {
        let below = stack.drop_last();
        lemma_leaving(below, leaves);
        assert forall|i: int| stack.len() - leaving(stack, leaves) <= i < stack.len() implies leaves(
            #[trigger] stack[i],
        ) by {
            if i < below.len() {
                assert(stack[i] == below[i]);
            }
        }
        if leaving(stack, leaves) < stack.len() {
            assert(stack[stack.len() - leaving(stack, leaves) - 1] == below[below.len() - leaving(
                below,
                leaves,
            ) - 1]);
        }
    }
}

/// A tidy yard stays tidy with every token.
pub proof fn lemma_feed_tidy(yard: Yard, token: Token)
    requires
        yard.tidy(),
        yard.feed(token) is Ok,
    ensures
        yard.feed(token)->Ok_0.tidy(),
{
    let next = yard.feed(token)->Ok_0;
    match token {
        Token::Operator(operation) => {
            lemma_leaving(yard.stack, gives_way(operation.precedence()));
        },
        Token::Close => {
            lemma_leaving(yard.stack, inside_parentheses());
        },
        _ => {},
    }
}

/// A postfix sequence holds numbers and operators only: no parenthesis and
/// no end marker reaches it.
pub proof fn lemma_postfix_alphabet(tokens: Seq<Token>)
    requires
        postfix(tokens) is Ok,
    ensures
        forall|i: int|
            0 <= i < postfix(tokens)->Ok_0.len() ==> #[trigger] postfix(tokens)->Ok_0[i] is Number
                || postfix(tokens)->Ok_0[i] is Operator,
{
    lemma_feed_all_tidy(Yard::empty(), tokens);
    lemma_finish_alphabet(Yard::empty().feed_all(tokens)->Ok_0);
}

/// A tidy yard is tidy after any tokens.
pub proof fn lemma_feed_all_tidy(yard: Yard, tokens: Seq<Token>)
    requires
        yard.tidy(),
        yard.feed_all(tokens) is Ok,
    ensures
        yard.feed_all(tokens)->Ok_0.tidy(),
    decreases tokens.len(),
{
    if tokens.len() > 0 {
        lemma_feed_tidy(yard, tokens.first());
        lemma_feed_all_tidy(yard.feed(tokens.first())->Ok_0, tokens.drop_first());
    }
}

/// What a tidy yard hands out at the end holds numbers and operators only.
pub proof fn lemma_finish_alphabet(yard: Yard)
    requires
        yard.tidy(),
        yard.finish() is Ok,
    ensures
        forall|i: int|
            0 <= i < yard.finish()->Ok_0.len() ==> #[trigger] yard.finish()->Ok_0[i] is Number
                || yard.finish()->Ok_0[i] is Operator,
{
    let sequence = yard.finish()->Ok_0;
    assert forall|i: int| 0 <= i < sequence.len() implies #[trigger] sequence[i] is Number
        || sequence[i] is Operator by {
        if i >= yard.output.len() {
            let k = yard.stack.len() - 1 - (i - yard.output.len());
            assert(sequence[i] == yard.stack[k]);
            assert(!(yard.stack[k] is Open));
        }
    }
}

/// A run of entries that all leave, on a stack whose top stays, leaves as a
/// whole and alone.
pub proof fn lemma_leaving_run(base: Seq<Token>, run: Seq<Token>, leaves: spec_fn(Token) -> bool)
    requires
        forall|i: int| 0 <= i < run.len() ==> leaves(#[trigger] run[i]),
        base.len() == 0 || !leaves(base.last()),
    ensures
        leaving(base + run, leaves) == run.len(),
    decreases run.len(),
{
    let stack = base + run;
    if run.len() == 0 {
        assert(stack =~= base);
    } else {
        assert(stack.last() == run.last());
        assert(stack.drop_last() =~= base + run.drop_last());
        lemma_leaving_run(base, run.drop_last(), leaves);
    }
}

/// Unloading a run from the top of the stack appends it to the output in
/// reverse.
pub proof fn lemma_unload_run(output: Seq<Token>, base: Seq<Token>, run: Seq<Token>)
    ensures
        (Yard { output, stack: base + run }).unload(run.len()) == (Yard {
            output: output + run.reverse(),
            stack: base,
        }),
{
    let stack = base + run;
    let unloaded = (Yard { output, stack }).unload(run.len());
    assert(stack.subrange(stack.len() - run.len(), stack.len() as int) =~= run);
    assert(unloaded.stack =~= base);
    assert(unloaded.output =~= output + run.reverse());
}

/// What a token adds to the number of parentheses that are open.
pub open spec fn nesting(token: Token) -> int {
    match token {
        Token::Open => 1,
        Token::Close => -1,
        _ => 0,
    }
}

/// How many more parentheses the tokens open than they close.
pub open spec fn depth(tokens: Seq<Token>) -> int
    decreases tokens.len(),
{
    if tokens.len() == 0 {
        0
    } else {
        nesting(tokens.first()) + depth(tokens.drop_first())
    }
}

/// With `open` parentheses open before them, the tokens never close one
/// that is not open.
pub open spec fn closes_only_open(tokens: Seq<Token>, open: int) -> bool {
    forall|k: int| 0 <= k <= tokens.len() ==> open + #[trigger] depth(tokens.take(k)) >= 0
}

/// Every closing parenthesis has its partner before it, and every opening
/// one its partner behind it.
pub open spec fn balanced(tokens: Seq<Token>) -> bool {
    closes_only_open(tokens, 0) && depth(tokens) == 0
}

/// How many opening parentheses wait on a stack.
pub open spec fn opens(stack: Seq<Token>) -> nat
    decreases stack.len(),
{
    if stack.len() == 0 {
        0
    } else {
        opens(stack.drop_last()) + if stack.last() is Open {
            1nat
        } else {
            0nat
        }
    }
}

/// Taking entries other than opening parentheses from the top of a stack
/// leaves as many opening parentheses as there were.
pub proof fn lemma_opens_below(stack: Seq<Token>, count: nat)
    requires
        count <= stack.len(),
        forall|i: int| stack.len() - count <= i < stack.len() ==> !(#[trigger] stack[i] is Open),
    ensures
        opens(stack.take(stack.len() - count)) == opens(stack),
    decreases count,
{
    if count == 0 {
        assert(stack.take(stack.len() as int) =~= stack);
    } else {
        let below = stack.drop_last();
        assert forall|i: int| below.len() - (count - 1) <= i < below.len() implies !(
        #[trigger] below[i] is Open) by {
            assert(below[i] == stack[i]);
        }
        lemma_opens_below(below, (count - 1) as nat);
        assert(below.take(below.len() - (count - 1)) =~= stack.take(stack.len() - count));
    }
}

/// A stack holds no opening parenthesis exactly if none is counted on it.
pub proof fn lemma_opens_none(stack: Seq<Token>)
    ensures
        opens(stack) == 0 <==> forall|i: int| 0 <= i < stack.len() ==> !(#[trigger] stack[i] is Open),
    decreases stack.len(),
{
    if stack.len() > 0 {
        let below = stack.drop_last();
        lemma_opens_none(below);
        if opens(stack) == 0 {
            assert forall|i: int| 0 <= i < stack.len() implies !(#[trigger] stack[i] is Open) by {
                if i < below.len() {
                    assert(below[i] == stack[i]);
                }
            }
        } else if !(stack.last() is Open) {
            let i = choose|i: int| 0 <= i < below.len() && #[trigger] below[i] is Open;
            assert(stack[i] is Open);
        }
    }
}

/// A token is refused only if it is a closing parenthesis while no opening
/// one waits, and then as mismatched; any other token changes the number of
/// waiting opening parentheses by its nesting.
pub proof fn lemma_feed_nesting(yard: Yard, token: Token)
    ensures
        yard.feed(token) is Err <==> token is Close && opens(yard.stack) == 0,
        yard.feed(token) matches Err(error) ==> error == ParserError::MismatchedParenthesis,
        yard.feed(token) matches Ok(next) ==> opens(next.stack) == opens(yard.stack) + nesting(
            token,
        ),
{
    match token {
        Token::Operator(operation) => {
            let leaves = gives_way(operation.precedence());
            lemma_leaving(yard.stack, leaves);
            lemma_opens_below(yard.stack, leaving(yard.stack, leaves));
            let unloaded = yard.unload(leaving(yard.stack, leaves));
            assert(unloaded.wait(token).stack.drop_last() =~= unloaded.stack);
        },
        Token::Open => {
            assert(yard.wait(token).stack.drop_last() =~= yard.stack);
        },
        Token::Close => {
            let leaves = inside_parentheses();
            lemma_leaving(yard.stack, leaves);
            lemma_opens_below(yard.stack, leaving(yard.stack, leaves));
            let unloaded = yard.unload(leaving(yard.stack, leaves));
            if unloaded.stack.len() > 0 {
                assert(unloaded.stack.last() == yard.stack[yard.stack.len() - leaving(
                    yard.stack,
                    leaves,
                ) - 1]);
                assert(unloaded.stack.last() is Open);
            } else {
                assert(opens(unloaded.stack) == 0);
            }
        },
        _ => {},
    }
}

/// Tokens are refused only for a closing parenthesis that closes none that
/// is open, and then as mismatched; otherwise as many opening parentheses
/// wait behind them as their depth adds.
pub proof fn lemma_feed_all_nesting(yard: Yard, tokens: Seq<Token>)
    ensures
        yard.feed_all(tokens) is Ok <==> closes_only_open(tokens, opens(yard.stack) as int),
        yard.feed_all(tokens) matches Err(error) ==> error == ParserError::MismatchedParenthesis,
        yard.feed_all(tokens) matches Ok(last) ==> opens(last.stack) == opens(yard.stack) + depth(
            tokens,
        ),
    decreases tokens.len(),
{
    let open = opens(yard.stack) as int;
    if tokens.len() == 0 {
        assert forall|k: int| 0 <= k <= tokens.len() implies open + #[trigger] depth(
            tokens.take(k),
        ) >= 0 by {
            assert(tokens.take(k) =~= tokens);
        }
    } else {
        let token = tokens.first();
        let rest = tokens.drop_first();
        lemma_feed_nesting(yard, token);
        assert(tokens.take(1).first() == token);
        assert(tokens.take(1).drop_first() =~= Seq::<Token>::empty());
        assert(depth(tokens.take(1).drop_first()) == 0);
        assert(depth(tokens.take(1)) == nesting(token));
        assert forall|k: int| 1 <= k <= tokens.len() implies #[trigger] depth(tokens.take(k))
            == nesting(token) + depth(rest.take(k - 1)) by {
            assert(tokens.take(k).first() == token);
            assert(tokens.take(k).drop_first() =~= rest.take(k - 1));
        }
        match yard.feed(token) {
            Ok(next) => {
                lemma_feed_all_nesting(next, rest);
                let further = open + nesting(token);
                if closes_only_open(tokens, open) {
                    assert forall|k: int| 0 <= k <= rest.len() implies further + #[trigger] depth(
                        rest.take(k),
                    ) >= 0 by {
                        assert(open + depth(tokens.take(k + 1)) >= 0);
                    }
                }
                if closes_only_open(rest, further) {
                    assert forall|k: int| 0 <= k <= tokens.len() implies open + #[trigger] depth(
                        tokens.take(k),
                    ) >= 0 by {
                        if k == 0 {
                            assert(tokens.take(0) =~= Seq::<Token>::empty());
                        } else {
                            assert(further + depth(rest.take(k - 1)) >= 0);
                        }
                    }
                }
            },
            Err(_) => {
                assert(open + depth(tokens.take(1)) < 0);
            },
        }
    }
}

/// Tokens have a postfix form exactly if their parentheses are balanced, and
/// are mismatched otherwise.
pub proof fn lemma_postfix_balanced(tokens: Seq<Token>)
    ensures
        postfix(tokens) is Ok <==> balanced(tokens),
        postfix(tokens) matches Err(error) ==> error == ParserError::MismatchedParenthesis,
{
    lemma_feed_all_nesting(Yard::empty(), tokens);
    match Yard::empty().feed_all(tokens) {
        Ok(last) => {
            lemma_opens_none(last.stack);
        },
        Err(_) => {},
    }
}

/// Unloading one entry more is unloading, then moving the entry that is then
/// the topmost.
pub proof fn lemma_unload_one_more(yard: Yard, count: nat)
    requires
        count < yard.stack.len(),
    ensures
        yard.unload(count).stack.len() > 0,
        yard.unload(count).stack.last() == yard.stack[yard.stack.len() - count - 1],
        yard.unload(count + 1).stack == yard.unload(count).stack.drop_last(),
        yard.unload(count + 1).output == yard.unload(count).output.push(
            yard.unload(count).stack.last(),
        ),
{
    let size = yard.stack.len() as int;
    let kept = size - count;
    let shorter = yard.stack.subrange(kept, size);
    let longer = yard.stack.subrange(kept - 1, size);
    assert(longer.reverse() =~= shorter.reverse().push(yard.stack[kept - 1]));
    assert(yard.unload(count + 1).stack =~= yard.unload(count).stack.drop_last());
    assert(yard.unload(count + 1).output =~= yard.unload(count).output.push(
        yard.stack[kept - 1],
    ));
}

/// What leaves the stack for an arriving operator of precedence `rank`, or,
/// without a rank, for an arriving closing parenthesis.
pub open spec fn departing(rank: Option<u8>) -> spec_fn(Token) -> bool {
    match rank {
        Some(rank) => gives_way(rank as nat),
        None => inside_parentheses(),
    }
}

/// The transformation at work: it takes the symbols of an expression one by
/// one and hands out the postfix sequence at the end.
pub struct ShuntingYard {
    out: Vec<Symbol>,
    op: Vec<Symbol>,
}

impl View for ShuntingYard {
    type V = Yard;

    closed spec fn view(&self) -> Yard {
        Yard { output: tokens_of(self.out@), stack: tokens_of(self.op@) }
    }
}

impl ShuntingYard {
    /// A yard that has taken no symbol yet.
    pub fn new() -> (yard: ShuntingYard)
        ensures
            yard@ == Yard::empty(),
    {
        let yard = ShuntingYard { out: Vec::new(), op: Vec::new() };
        assert(yard@.output =~= Seq::empty() && yard@.stack =~= Seq::empty());
        yard
    }

    fn departs(top: &Symbol, rank: Option<u8>) -> (goes: bool)
        ensures
            goes == departing(rank)(top@),
    {
        match rank {
            Some(rank) => match top {
                Symbol::BinaryOperator(waiting) => rank <= Parser::get_precedence(waiting),
                _ => false,
            },
            None => match top {
                Symbol::OpenParenthesis => false,
                _ => true,
            },
        }
    }

    /// Sends to the output what leaves the stack for an arriving operator of
    /// precedence `rank`, or, without a rank, for a closing parenthesis.
    fn unload(&mut self, rank: Option<u8>)
        ensures
            final(self)@ == old(self)@.unload(leaving(old(self)@.stack, departing(rank))),
    {
        let ghost before = self@;
        let ghost leaves = departing(rank);
        let ghost mut moved: nat = 0;
        assert(self@.output =~= before.unload(0).output);
        assert(self@.stack =~= before.unload(0).stack);
        loop
            invariant
                moved <= before.stack.len(),
                self@ == before.unload(moved),
                leaving(before.stack, leaves) == moved + leaving(self@.stack, leaves),
                leaves == departing(rank),
            ensures
                self@ == before.unload(leaving(before.stack, leaves)),
            decreases self.op.len(),
        {
            let waiting = self.op.len();
            if waiting == 0 {
                break ;
            }
            if !Self::departs(&self.op[waiting - 1], rank) {
                break ;
            }
            let ghost stack = self@.stack;
            let top = self.op.pop().unwrap();
            self.out.push(top);
            proof {
                assert(stack.last() == top@);
                lemma_unload_one_more(before, moved);
                moved = moved + 1;
                assert(self@.stack =~= stack.drop_last());
                assert(self@.output =~= before.unload(moved).output);
            }
        }
    }

    /// Takes the next symbol of the expression.
    pub fn feed(self, symbol: Symbol) -> (fed: Result<ShuntingYard, ParserError>)
        ensures
            match self@.feed(symbol@) {
                Ok(next) => fed matches Ok(yard) && yard@ == next,
                Err(error) => fed matches Err(e) && e == error,
            },
    {
        let mut yard = self;
        let ghost before = yard@;
        match symbol {
            Symbol::Number(_) => {
                yard.out.push(symbol);
                assert(yard@.output =~= before.output.push(symbol@));
                Ok(yard)
            },
            Symbol::BinaryOperator(arriving) => {
                yard.unload(Some(Parser::get_precedence(&arriving)));
                let ghost unloaded = yard@;
                yard.op.push(symbol);
                assert(yard@.stack =~= unloaded.stack.push(symbol@));
                Ok(yard)
            },
            Symbol::OpenParenthesis => {
                yard.op.push(symbol);
                assert(yard@.stack =~= before.stack.push(symbol@));
                Ok(yard)
            },
            Symbol::ClosedParenthesis => {
                yard.unload(None);
                let ghost unloaded = yard@;
                match yard.op.pop() {
                    Some(_) => {
                        assert(yard@.stack =~= unloaded.stack.drop_last());
                        Ok(yard)
                    },
                    None => Err(ParserError::MismatchedParenthesis),
                }
            },
            Symbol::End => Ok(yard),
        }
    }

    /// Ends the expression and hands out its postfix form.
    pub fn finish(self) -> (done: Result<Vec<Symbol>, ParserError>)
        ensures
            match self@.finish() {
                Ok(sequence) => done matches Ok(symbols) && tokens_of(symbols@) == sequence,
                Err(error) => done matches Err(e) && e == error,
            },
    {
        let mut yard = self;
        let ghost before = yard@;
        let ghost mut moved: nat = 0;
        assert(yard@.output =~= before.unload(0).output);
        assert(yard@.stack =~= before.unload(0).stack);
        loop
            invariant
                before == self@,
                moved <= before.stack.len(),
                yard@ == before.unload(moved),
                forall|i: int|
                    before.stack.len() - moved <= i < before.stack.len() ==> !(
                    #[trigger] before.stack[i] is Open),
            ensures
                moved == before.stack.len(),
                yard@ == before.unload(moved),
                !before.unclosed(),
            decreases yard.op.len(),
        {
            let ghost stack = yard@.stack;
            match yard.op.pop() {
                None => {
                    break ;
                },
                Some(top) => {
                    assert(stack.last() == top@);
                    assert(stack.last() == before.stack[before.stack.len() - moved - 1]);
                    if let Symbol::OpenParenthesis = top {
                        return Err(ParserError::MismatchedParenthesis);
                    }
                    yard.out.push(top);
                    proof {
                        lemma_unload_one_more(before, moved);
                        moved = moved + 1;
                        assert(yard@.stack =~= stack.drop_last());
                        assert(yard@.output =~= before.unload(moved).output);
                    }
                },
            }
        }
        assert(before.stack.subrange(0, before.stack.len() as int) =~= before.stack);
        Ok(yard.out)
    }
}

/// Brings symbols in the order of writing into postfix order.
pub fn shunting_yard(symbols: Vec<Symbol>) -> (done: Result<Vec<Symbol>, ParserError>)
    ensures
        match postfix(tokens_of(symbols@)) {
            Ok(sequence) => done matches Ok(ordered) && tokens_of(ordered@) == sequence,
            Err(error) => done matches Err(e) && e == error,
        },
{
    let mut yard = ShuntingYard::new();
    let ghost all = tokens_of(symbols@);
    assert(all.skip(0) =~= all);
    for symbol in it: symbols
        invariant
            it.seq() == symbols@,
            all == tokens_of(symbols@),
            yard@.feed_all(all.skip(it.index() as int)) == Yard::empty().feed_all(all),
    {
        let ghost rest = all.skip(it.index() as int);
        assert(rest.first() == symbol@);
        assert(rest.drop_first() =~= all.skip(it.index() + 1));
        match yard.feed(symbol) {
            Ok(next) => {
                yard = next;
            },
            Err(error) => {
                return Err(error);
            },
        }
    }
    yard.finish()
}

} // verus!
