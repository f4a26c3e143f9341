//! Cutting the text of an expression into symbols.
//!
//! What the lexer does is fixed by [`Cursor::scan`], a function from the state
//! of a scan to the token found there and the state behind it, and by
//! [`Cursor::lex`], the tokens of all the steps that remain.
use vstd::prelude::*;
use vstd::string::*;
use crate::lexer::symbol::{Literal, Numeral, Operation, Symbol, Token};
use crate::parser::ParserError;

pub mod symbol;

verus! {

/// One of the ten decimal digits.
pub open spec fn is_digit(c: char) -> bool {
    '0' <= c <= '9'
}

/// A character that a literal is made of: a digit or the decimal point.
pub open spec fn in_number(c: char) -> bool {
    is_digit(c) || c == '.'
}

/// A character that belongs to some symbol. Every other character only
/// separates symbols.
pub open spec fn is_significant(c: char) -> bool {
    in_number(c) || c == '+' || c == '-' || c == '*' || c == '/' || c == '^' || c == '(' || c
        == ')'
}

/// The first position at or behind `from` whose character is significant, or
/// the end of the text if there is none.
pub open spec fn next_significant(text: Seq<char>, from: nat) -> nat
    decreases text.len() - from,
{
    if from < text.len() && !is_significant(text[from as int]) {
        next_significant(text, from + 1)
    } else {
        from
    }
}

/// The end of the longest run of digits and decimal points that starts at
/// `from`.
pub open spec fn literal_end(text: Seq<char>, from: nat) -> nat
    decreases text.len() - from,
{
    if from < text.len() && in_number(text[from as int]) {
        literal_end(text, from + 1)
    } else {
        from
    }
}

impl Numeral {
    /// The text is made of digits and at most one decimal point, and holds a
    /// digit.
    pub open spec fn well_formed(self) -> bool {
        &&& forall|i: int| 0 <= i < self.text.len() ==> in_number(#[trigger] self.text[i])
        &&& exists|i: int| 0 <= i < self.text.len() && is_digit(#[trigger] self.text[i])
        &&& forall|i: int, j: int|
            #![trigger self.text[i], self.text[j]]
            0 <= i < j < self.text.len() && self.text[i] == '.' ==> self.text[j] != '.'
    }
}

/// The state of a scan: the text, how far it has been read, and whether the
/// symbol found last was a number.
pub struct Cursor {
    pub input: Seq<char>,
    pub position: nat,
    pub after_number: bool,
}

/// One step of a scan: what was found, and the state behind it.
pub struct Scan {
    pub outcome: Result<Token, ParserError>,
    pub cursor: Cursor,
}

/// All the steps of a scan up to the end of the text or to the first
/// malformed literal.
pub struct Lexed {
    pub tokens: Seq<Token>,
    /// The scan ended at a malformed literal.
    pub malformed: bool,
}

impl Cursor {
    /// The state in which a scan of `input` starts.
    pub open spec fn start(input: Seq<char>) -> Cursor {
        Cursor { input, position: 0, after_number: false }
    }

    /// Nothing of the text is left to read.
    pub open spec fn exhausted(self) -> bool {
        self.position >= self.input.len()
    }

    /// The character at the cursor, if the text is not used up.
    pub open spec fn current(self) -> Option<char> {
        if self.position < self.input.len() {
            Some(self.input[self.position as int])
        } else {
            None
        }
    }

    /// The same scan at another place.
    pub open spec fn at(self, position: nat, after_number: bool) -> Cursor {
        Cursor { input: self.input, position, after_number }
    }

    /// One character further, unless the text is used up.
    pub open spec fn advance(self) -> Cursor {
        if self.exhausted() {
            self
        } else {
            self.at(self.position + 1, self.after_number)
        }
    }

    /// An operator or a parenthesis that ends before `position`.
    pub open spec fn found(self, token: Token, position: nat) -> Scan {
        Scan { outcome: Ok(token), cursor: self.at(position, false) }
    }

    /// The literal that starts at the cursor: the longest run of digits and
    /// decimal points. It is malformed if it holds a second decimal point or
    /// no digit. Either way the scan goes on behind the run.
    pub open spec fn number(self, negative: bool) -> Scan {
        let end = literal_end(self.input, self.position);
        let numeral = Numeral {
            negative,
            text: self.input.subrange(self.position as int, end as int),
        };
        Scan {
            outcome: if numeral.well_formed() {
                Ok(Token::Number(numeral))
            } else {
                Err(ParserError::MalformedNumber)
            },
            cursor: self.at(end, true),
        }
    }

    /// The next symbol. Characters that belong to no symbol are passed over.
    /// A minus sign is a sign prefix if the symbol before it was no number
    /// and a literal follows it directly; otherwise it is the subtraction
    /// operator. Two asterisks in a row are one exponentiation operator.
    pub open spec fn scan(self) -> Scan {
        let at = next_significant(self.input, self.position);
        if at >= self.input.len() {
            Scan { outcome: Ok(Token::End), cursor: self.at(at, self.after_number) }
        } else {
            let c = self.input[at as int];
            let literal_follows = at + 1 < self.input.len() && in_number(self.input[at as int + 1]);
            let asterisk_follows = at + 1 < self.input.len() && self.input[at as int + 1] == '*';
            if in_number(c) {
                self.at(at, self.after_number).number(false)
            } else if c == '-' {
                if !self.after_number && literal_follows {
                    self.at(at + 1, self.after_number).number(true)
                } else {
                    self.found(Token::Operator(Operation::Subtraction), at + 1)
                }
            } else if c == '*' {
                if asterisk_follows {
                    self.found(Token::Operator(Operation::Pow), at + 2)
                } else {
                    self.found(Token::Operator(Operation::Multiplication), at + 1)
                }
            } else if c == '+' {
                self.found(Token::Operator(Operation::Addition), at + 1)
            } else if c == '/' {
                self.found(Token::Operator(Operation::Division), at + 1)
            } else if c == '^' {
                self.found(Token::Operator(Operation::Pow), at + 1)
            } else if c == '(' {
                self.found(Token::Open, at + 1)
            } else {
                self.found(Token::Close, at + 1)
            }
        }
    }

    /// The tokens from the cursor on, up to the end of the text or to the
    /// first malformed literal.
    pub open spec fn lex(self) -> Lexed
        decreases self.input.len() - self.position,
    {
        let step = self.scan();
        match step.outcome {
            Err(_) => Lexed { tokens: Seq::empty(), malformed: true },
            Ok(Token::End) => Lexed { tokens: Seq::empty(), malformed: false },
            Ok(token) => {
                proof {
                    lemma_scan_moves_on(self);
                }
                let rest = step.cursor.lex();
                Lexed { tokens: seq![token] + rest.tokens, malformed: rest.malformed }
            },
        }
    }
}

/// The search for a significant character never goes back, stays in the
/// text, and passes over insignificant characters only.
pub proof fn lemma_next_significant(text: Seq<char>, from: nat)
    ensures
        from <= next_significant(text, from),
        from <= text.len() ==> next_significant(text, from) <= text.len(),
        next_significant(text, from) < text.len() ==> is_significant(
            text[next_significant(text, from) as int],
        ),
        forall|i: int| from <= i < next_significant(text, from) ==> !is_significant(text[i]),
    decreases text.len() - from,
{
    if from < text.len() && !is_significant(text[from as int]) {
        lemma_next_significant(text, from + 1);
    }
}

/// A literal ends in the text, behind its start, before the first character
/// that is neither a digit nor a decimal point.
pub proof fn lemma_literal_end(text: Seq<char>, from: nat)
    ensures
        from <= literal_end(text, from),
        from <= text.len() ==> literal_end(text, from) <= text.len(),
        from < text.len() && in_number(text[from as int]) ==> from < literal_end(text, from),
        literal_end(text, from) < text.len() ==> !in_number(text[literal_end(text, from) as int]),
        forall|i: int| from <= i < literal_end(text, from) ==> in_number(text[i]),
    decreases text.len() - from,
{
    if from < text.len() && in_number(text[from as int]) {
        lemma_literal_end(text, from + 1);
    }
}

/// Every step of a scan keeps the text, never goes back and stays in the
/// text; a step that finds a symbol or a malformed literal moves on.
pub proof fn lemma_scan_moves_on(cursor: Cursor)
    ensures
        cursor.scan().cursor.input == cursor.input,
        cursor.position <= cursor.scan().cursor.position,
        cursor.position <= cursor.input.len() ==> cursor.scan().cursor.position
            <= cursor.input.len(),
        cursor.scan().outcome != Ok::<Token, ParserError>(Token::End) ==> cursor.position
            < cursor.scan().cursor.position <= cursor.input.len(),
{
    let at = next_significant(cursor.input, cursor.position);
    lemma_next_significant(cursor.input, cursor.position);
    lemma_literal_end(cursor.input, at);
    lemma_literal_end(cursor.input, at + 1);
}

/// A scan hands out no end marker among its tokens, and every number among
/// them is well formed: digits around at most one decimal point.
pub proof fn lemma_lexed_tokens(cursor: Cursor)
    ensures
        forall|i: int|
            0 <= i < cursor.lex().tokens.len() ==> {
                let token = #[trigger] cursor.lex().tokens[i];
                &&& !(token is End)
                &&& token matches Token::Number(numeral) ==> numeral.well_formed()
            },
    decreases cursor.input.len() - cursor.position,
{
    let step = cursor.scan();
    match step.outcome {
        Ok(Token::End) => {},
        Ok(token) => {
            lemma_scan_moves_on(cursor);
            lemma_lexed_tokens(step.cursor);
            let rest = step.cursor.lex().tokens;
            assert forall|i: int| 0 <= i < cursor.lex().tokens.len() implies {
                let token = #[trigger] cursor.lex().tokens[i];
                &&& !(token is End)
                &&& token matches Token::Number(numeral) ==> numeral.well_formed()
            } by {
                if i > 0 {
                    assert(cursor.lex().tokens[i] == rest[i - 1]);
                }
            }
        },
        Err(_) => {},
    }
}

/// A stretch of text between symbols: characters that belong to none.
pub open spec fn is_gap(text: Seq<char>) -> bool {
    forall|i: int| 0 <= i < text.len() ==> !is_significant(#[trigger] text[i])
}

/// The tokens written one after another: before each token the gap of its
/// place in `gaps`, and behind the last token one gap more.
pub open spec fn layout(tokens: Seq<Token>, gaps: Seq<Seq<char>>) -> Seq<char>
    decreases tokens.len(),
{
    if tokens.len() == 0 {
        gaps.first()
    } else {
        gaps.first() + tokens.first().spelling() + layout(tokens.drop_first(), gaps.drop_first())
    }
}

/// Written directly behind `token`, `next` would not be read as itself: a
/// number runs into a number before it, a number makes a sign of a minus
/// that follows no number, and an asterisk makes a power of a
/// multiplication sign.
pub open spec fn runs_into(token: Token, after_number: bool, next: Token) -> bool {
    match token {
        Token::Number(_) => next is Number,
        Token::Operator(Operation::Subtraction) => {
            &&& !after_number
            &&& next matches Token::Number(numeral)
            &&& !numeral.negative
        },
        Token::Operator(Operation::Multiplication) => {
            ||| next == Token::Operator(Operation::Multiplication)
            ||| next == Token::Operator(Operation::Pow)
        },
        _ => false,
    }
}

/// The tokens can be read back from their spelling: there is no end marker
/// among them, every number is well formed, and no negative number follows
/// a number, where its sign would be taken for a subtraction.
pub open spec fn legible(tokens: Seq<Token>, after_number: bool) -> bool
    decreases tokens.len(),
{
    if tokens.len() == 0 {
        true
    } else {
        match tokens.first() {
            Token::End => false,
            Token::Number(numeral) => numeral.well_formed() && !(numeral.negative
                && after_number) && legible(tokens.drop_first(), true),
            _ => legible(tokens.drop_first(), false),
        }
    }
}

/// The tokens can be read back from their layout with these gaps: they are
/// legible, the gaps are gaps, and where a gap is empty the token behind it
/// does not run into the one before it.
pub open spec fn readable(tokens: Seq<Token>, gaps: Seq<Seq<char>>, after_number: bool) -> bool
    decreases tokens.len(),
{
    &&& gaps.len() == tokens.len() + 1
    &&& is_gap(gaps.first())
    &&& tokens.len() > 0 ==> {
        let token = tokens.first();
        &&& !(token is End)
        &&& token matches Token::Number(numeral) ==> numeral.well_formed() && !(numeral.negative
            && after_number)
        &&& tokens.len() > 1 && gaps[1].len() == 0 ==> !runs_into(token, after_number, tokens[1])
        &&& readable(tokens.drop_first(), gaps.drop_first(), token is Number)
    }
}

/// A run of digits and decimal points that is followed by something else,
/// or by nothing, is one literal.
pub proof fn lemma_literal_run(text: Seq<char>, from: nat, length: nat)
    requires
        from + length <= text.len(),
        forall|i: int| from <= i < from + length ==> in_number(#[trigger] text[i]),
        from + length < text.len() ==> !in_number(text[from as int + length]),
    ensures
        literal_end(text, from) == from + length,
    decreases length,
{
    if length > 0 {
        assert(in_number(text[from as int]));
        lemma_literal_run(text, from + 1, (length - 1) as nat);
    }
}

/// A gap is passed over as a whole, up to the symbol or the end behind it.
pub proof fn lemma_gap_is_passed(text: Seq<char>, from: nat, length: nat)
    requires
        from + length <= text.len(),
        forall|i: int| from <= i < from + length ==> !is_significant(#[trigger] text[i]),
        from + length < text.len() ==> is_significant(text[from as int + length]),
    ensures
        next_significant(text, from) == from + length,
    decreases length,
{
    if length > 0 {
        assert(!is_significant(text[from as int]));
        lemma_gap_is_passed(text, from + 1, (length - 1) as nat);
    }
}

/// The spelling of a token that is no end marker, and whose number is well
/// formed, is not empty and begins with a significant character.
pub proof fn lemma_spelling(token: Token)
    requires
        !(token is End),
        token matches Token::Number(numeral) ==> numeral.well_formed(),
    ensures
        token.spelling().len() > 0,
        is_significant(token.spelling()[0]),
        token matches Token::Number(numeral) ==> (in_number(token.spelling()[0])
            <==> !numeral.negative),
        token is Number || !in_number(token.spelling()[0]),
        token.spelling()[0] == '*' <==> token == Token::Operator(Operation::Multiplication)
            || token == Token::Operator(Operation::Pow),
{
    match token {
        Token::Number(numeral) => {
            let text = numeral.text;
            let digit_at = choose|i: int| 0 <= i < text.len() && is_digit(#[trigger] text[i]);
            assert(in_number(text[0]));
        },
        _ => {},
    }
}

/// What stands behind a token does not change what the token is read as.
pub open spec fn leaves_alone(token: Token, after_number: bool, behind: Seq<char>) -> bool {
    behind.len() > 0 ==> match token {
        Token::Number(_) => !in_number(behind[0]),
        Token::Operator(Operation::Subtraction) => after_number || !in_number(behind[0]),
        Token::Operator(Operation::Multiplication) => behind[0] != '*',
        _ => true,
    }
}

/// The step of a scan that stands before a gap and the spelling of a token
/// finds that token and stops behind it, if what stands behind leaves the
/// token alone.
pub proof fn lemma_scan_laid_out(
    before: Seq<char>,
    gap: Seq<char>,
    token: Token,
    behind: Seq<char>,
    after_number: bool,
)
    requires
        is_gap(gap),
        !(token is End),
        token matches Token::Number(numeral) ==> numeral.well_formed() && !(numeral.negative
            && after_number),
        leaves_alone(token, after_number, behind),
    ensures
        (Cursor {
            input: before + gap + token.spelling() + behind,
            position: before.len(),
            after_number,
        }).scan() == (Scan {
            outcome: Ok(token),
            cursor: Cursor {
                input: before + gap + token.spelling() + behind,
                position: before.len() + gap.len() + token.spelling().len(),
                after_number: token is Number,
            },
        }),
{
    let word = token.spelling();
    let input = before + gap + word + behind;
    let at = before.len() + gap.len();
    let end = at + word.len();
    lemma_spelling(token);
    assert forall|i: int| before.len() <= i < at implies !is_significant(#[trigger] input[i]) by {
        assert(input[i] == gap[i - before.len()]);
    }
    assert forall|k: int| 0 <= k < word.len() implies input[at + k] == word[k] by {}
    assert(input[at as int] == word[0]);
    assert(end < input.len() ==> input[end as int] == behind[0]);
    lemma_gap_is_passed(input, before.len(), gap.len());
    match token {
        Token::Number(numeral) => {
            let text = numeral.text;
            let start = if numeral.negative {
                at + 1
            } else {
                at
            };
            assert forall|i: int| start <= i < start + text.len() implies in_number(
                #[trigger] input[i],
            ) by {
                assert(input[i] == text[i - start]);
            }
            lemma_literal_run(input, start as nat, text.len());
            assert(input.subrange(start as int, end as int) =~= text);
        },
        Token::Operator(operation) => {
            if operation == Operation::Pow {
                assert(input[at as int + 1] == word[1]);
            }
        },
        _ => {},
    }
}

/// The layout of tokens begins with a gap, and behind an empty gap with the
/// spelling of the first token.
pub proof fn lemma_layout_begins(tokens: Seq<Token>, gaps: Seq<Seq<char>>)
    requires
        gaps.len() == tokens.len() + 1,
    ensures
        gaps[0].len() > 0 ==> layout(tokens, gaps).len() > 0 && layout(tokens, gaps)[0]
            == gaps[0][0],
        gaps[0].len() == 0 && tokens.len() > 0 && tokens[0].spelling().len() > 0 ==> layout(
            tokens,
            gaps,
        ).len() > 0 && layout(tokens, gaps)[0] == tokens[0].spelling()[0],
        gaps[0].len() == 0 && tokens.len() == 0 ==> layout(tokens, gaps).len() == 0,
{
}

/// A scan of the layout of readable tokens finds those tokens, all of them
/// and nothing else.
pub proof fn lemma_lex_laid_out(
    before: Seq<char>,
    tokens: Seq<Token>,
    gaps: Seq<Seq<char>>,
    after_number: bool,
)
    requires
        readable(tokens, gaps, after_number),
    ensures
        (Cursor { input: before + layout(tokens, gaps), position: before.len(), after_number }).lex()
            == (Lexed { tokens, malformed: false }),
    decreases tokens.len(),
{
    let input = before + layout(tokens, gaps);
    let cursor = Cursor { input, position: before.len(), after_number };
    if tokens.len() == 0 {
        let gap = gaps.first();
        assert forall|i: int| before.len() <= i < before.len() + gap.len() implies !is_significant(
            #[trigger] input[i],
        ) by {
            assert(input[i] == gap[i - before.len()]);
        }
        lemma_gap_is_passed(input, before.len(), gap.len());
        assert(cursor.lex().tokens =~= tokens);
    } else {
        let token = tokens.first();
        let rest = tokens.drop_first();
        let behind = layout(rest, gaps.drop_first());
        let read = before + gaps.first() + token.spelling();
        assert(input =~= read + behind);
        assert(readable(rest, gaps.drop_first(), token is Number));
        assert(leaves_alone(token, after_number, behind)) by {
            lemma_layout_begins(rest, gaps.drop_first());
            assert(gaps.drop_first().first() == gaps[1]);
            if gaps[1].len() > 0 {
                assert(!is_significant(gaps[1][0]));
            } else if rest.len() > 0 {
                assert(rest.first() == tokens[1]);
                lemma_spelling(rest.first());
            }
        }
        lemma_scan_laid_out(before, gaps.first(), token, behind, after_number);
        lemma_lex_laid_out(read, rest, gaps.drop_first(), token is Number);
        assert(cursor.lex().tokens =~= tokens);
    }
}

/// With a gap that is not empty between any two of them, legible tokens are
/// readable.
pub proof fn lemma_apart_is_readable(
    tokens: Seq<Token>,
    gaps: Seq<Seq<char>>,
    after_number: bool,
)
    requires
        legible(tokens, after_number),
        gaps.len() == tokens.len() + 1,
        forall|i: int| 0 <= i < gaps.len() ==> is_gap(#[trigger] gaps[i]),
        forall|i: int| 0 < i < tokens.len() ==> (#[trigger] gaps[i]).len() > 0,
    ensures
        readable(tokens, gaps, after_number),
    decreases tokens.len(),
{
    if tokens.len() > 0 {
        let rest = gaps.drop_first();
        assert forall|i: int| 0 <= i < rest.len() implies is_gap(#[trigger] rest[i]) by {
            assert(rest[i] == gaps[i + 1]);
        }
        assert forall|i: int| 0 < i < tokens.len() - 1 implies (#[trigger] rest[i]).len() > 0 by {
            assert(rest[i] == gaps[i + 1]);
        }
        lemma_apart_is_readable(tokens.drop_first(), rest, tokens.first() is Number);
    }
}

fn digit(c: char) -> (b: bool)
    ensures
        b == is_digit(c),
{
    '0' <= c && c <= '9'
}

fn numeric(c: char) -> (b: bool)
    ensures
        b == in_number(c),
{
    digit(c) || c == '.'
}

fn significant(c: char) -> (b: bool)
    ensures
        b == is_significant(c),
{
    numeric(c) || c == '+' || c == '-' || c == '*' || c == '/' || c == '^' || c == '(' || c == ')'
}

/// A scan of one text. It runs forward only: for another pass over the same
/// text, make another lexer.
pub struct Lexer {
    /// The text as it came in, from which the literals are copied.
    source: String,
    /// The characters of the text, for reading one at a time.
    input: Vec<char>,
    scanner: usize,
    prev_was_number: bool,
}

impl View for Lexer {
    type V = Cursor;

    closed spec fn view(&self) -> Cursor {
        Cursor {
            input: self.input@,
            position: self.scanner as nat,
            after_number: self.prev_was_number,
        }
    }
}

impl Lexer {
    #[verifier::type_invariant]
    spec fn within_input(self) -> bool {
        self.input@ == self.source@ && self.scanner <= self.input@.len()
    }

    /// A scan of `input` that stands at its first character.
    pub fn new(input: &str) -> (lexer: Lexer)
        ensures
            lexer@ == Cursor::start(input@),
    {
        let mut characters: Vec<char> = Vec::new();
        for c in it: input.chars()
            invariant
                it.seq() == input@,
                characters@ == input@.take(it.index() as int),
        {
            characters.push(c);
            assert(input@.take(it.index() + 1) =~= input@.take(it.index() as int).push(c));
        }
        assert(input@.take(input@.len() as int) =~= input@);
        Lexer { source: input.to_owned(), input: characters, scanner: 0, prev_was_number: false }
    }

    /// Whether the scanner has reached the end of the text. It never goes
    /// beyond it.
    pub fn exhausted(&self) -> (done: bool)
        ensures
            done == self@.exhausted(),
            self@.position <= self@.input.len(),
    {
        proof {
            use_type_invariant(self);
        }
        self.scanner >= self.input.len()
    }

    /// The character under the scanner.
    pub fn current(&self) -> (c: Option<char>)
        ensures
            c == self@.current(),
    {
        proof {
            use_type_invariant(self);
        }
        if self.scanner < self.input.len() {
            Some(self.input[self.scanner])
        } else {
            None
        }
    }

    /// Moves the scanner one character on and hands out the character that
    /// it then stands on.
    pub fn take_next(&mut self) -> (c: Option<char>)
        ensures
            final(self)@ == old(self)@.advance(),
            c == final(self)@.current(),
    {
        proof {
            use_type_invariant(&*self);
        }
        if self.scanner < self.input.len() {
            self.scanner = self.scanner + 1;
        }
        self.current()
    }

    /// Reads the literal that starts under the scanner, up to the first
    /// character that is neither a digit nor a decimal point. With
    /// `negative` the literal stands behind a sign prefix.
    pub fn take_numbers(&mut self, negative: bool) -> (found: Result<Symbol, ParserError>)
        ensures
            final(self)@ == old(self)@.number(negative).cursor,
            match old(self)@.number(negative).outcome {
                Ok(token) => found matches Ok(symbol) && symbol@ == token,
                Err(error) => found == Err::<Symbol, ParserError>(error),
            },
    {
        proof {
            use_type_invariant(&*self);
        }
        let start = self.scanner;
        let mut end = start;
        let mut has_digit = false;
        let mut has_point = false;
        let mut has_second_point = false;
        let ghost mut digit_at: int = 0;
        let ghost mut point_at: int = 0;
        let ghost mut second_at: int = 0;
        loop
            invariant
                self.input@ == old(self).input@,
                start <= end <= self.input@.len(),
                self.source@ == self.input@,
                literal_end(self.input@, end as nat) == literal_end(self.input@, start as nat),
                forall|i: int| start <= i < end ==> in_number(self.input@[i]),
                has_digit ==> start <= digit_at < end && is_digit(self.input@[digit_at]),
                !has_digit ==> forall|i: int| start <= i < end ==> !is_digit(self.input@[i]),
                has_point ==> start <= point_at < end && self.input@[point_at] == '.',
                !has_point ==> !has_second_point && forall|i: int|
                    start <= i < end ==> self.input@[i] != '.',
                has_second_point ==> has_point && point_at < second_at < end
                    && self.input@[second_at] == '.',
                !has_second_point ==> forall|i: int|
                    start <= i < end && i != point_at ==> self.input@[i] != '.',
            ensures
                end == literal_end(self.input@, start as nat),
            decreases self.input@.len() - end,
        {
            if end >= self.input.len() {
                break ;
            }
            let c = self.input[end];
            if c == '.' {
                if has_point {
                    has_second_point = true;
                    proof {
                        second_at = end as int;
                    }
                } else {
                    has_point = true;
                    proof {
                        point_at = end as int;
                    }
                }
            } else if digit(c) {
                has_digit = true;
                proof {
                    digit_at = end as int;
                }
            } else {
                break ;
            }
            end = end + 1;
        }
        let ghost numeral = Numeral {
            negative,
            text: self.input@.subrange(start as int, end as int),
        };
        proof {
            let text = numeral.text;
            assert forall|i: int| 0 <= i < text.len() implies in_number(#[trigger] text[i]) by {
                assert(text[i] == self.input@[start + i]);
            }
            if has_digit {
                assert(is_digit(text[digit_at - start]));
            }
            if has_second_point {
                assert(text[point_at - start] == '.' && text[second_at - start] == '.');
            } else {
                assert forall|i: int, j: int|
                    #![trigger text[i], text[j]]
                    0 <= i < j < text.len() && text[i] == '.' implies text[j] != '.' by {
                    assert(text[i] == self.input@[start + i]);
                    assert(text[j] == self.input@[start + j]);
                }
            }
            if numeral.well_formed() {
                let k = choose|k: int| 0 <= k < text.len() && is_digit(#[trigger] text[k]);
                assert(is_digit(self.input@[start + k]));
            }
            assert(numeral.well_formed() <==> has_digit && !has_second_point);
        }
        self.scanner = end;
        self.prev_was_number = true;
        if has_digit && !has_second_point {
            let text = self.source.as_str().substring_char(start, end).to_owned();
            Ok(Symbol::Number(Literal { negative, text }))
        } else {
            Err(ParserError::MalformedNumber)
        }
    }

    /// An operator or a parenthesis has been read.
    fn passed(&mut self, symbol: Symbol) -> (found: Result<Symbol, ParserError>)
        ensures
            final(self)@ == old(self)@.at(old(self)@.position, false),
            found == Ok::<Symbol, ParserError>(symbol),
    {
        proof {
            use_type_invariant(&*self);
        }
        self.prev_was_number = false;
        Ok(symbol)
    }

    /// Reads the next symbol and moves the scanner behind it. At the end of
    /// the text the symbol is [`Symbol::End`], again and again. A malformed
    /// literal is a fault; the scanner then stands behind the literal.
    pub fn next_symbol(&mut self) -> (found: Result<Symbol, ParserError>)
        ensures
            final(self)@ == old(self)@.scan().cursor,
            final(self)@.position <= final(self)@.input.len(),
            match old(self)@.scan().outcome {
                Ok(token) => found matches Ok(symbol) && symbol@ == token,
                Err(error) => found == Err::<Symbol, ParserError>(error),
            },
    {
        proof {
            use_type_invariant(&*self);
            lemma_next_significant(self@.input, self@.position);
            lemma_scan_moves_on(self@);
        }
        let mut next = self.current();
        loop
            invariant
                self@.input == old(self)@.input,
                self@.after_number == old(self)@.after_number,
                self@.position <= self@.input.len(),
                next_significant(self@.input, self@.position) == next_significant(
                    self@.input,
                    old(self)@.position,
                ),
                next == self@.current(),
            ensures
                self@.position == next_significant(self@.input, old(self)@.position),
            decreases self@.input.len() - self@.position,
        {
            match next {
                None => {
                    break ;
                },
                Some(c) => {
                    if significant(c) {
                        break ;
                    }
                    next = self.take_next();
                },
            }
        }
        let c = match next {
            None => {
                return Ok(Symbol::End);
            },
            Some(c) => c,
        };
        if numeric(c) {
            return self.take_numbers(false);
        }
        let follower = self.take_next();
        if c == '-' {
            if !self.prev_was_number {
                if let Some(d) = follower {
                    if numeric(d) {
                        return self.take_numbers(true);
                    }
                }
            }
            self.passed(Symbol::BinaryOperator(Operation::Subtraction))
        } else if c == '*' {
            if let Some(d) = follower {
                if d == '*' {
                    self.take_next();
                    return self.passed(Symbol::BinaryOperator(Operation::Pow));
                }
            }
            self.passed(Symbol::BinaryOperator(Operation::Multiplication))
        } else if c == '+' {
            self.passed(Symbol::BinaryOperator(Operation::Addition))
        } else if c == '/' {
            self.passed(Symbol::BinaryOperator(Operation::Division))
        } else if c == '^' {
            self.passed(Symbol::BinaryOperator(Operation::Pow))
        } else if c == '(' {
            self.passed(Symbol::OpenParenthesis)
        } else {
            self.passed(Symbol::ClosedParenthesis)
        }
    }

    /// The next symbol of the text, or `None` once the text is used up.
    pub fn next(&mut self) -> (found: Option<Result<Symbol, ParserError>>)
        ensures
            final(self)@ == old(self)@.scan().cursor,
            final(self)@.position <= final(self)@.input.len(),
            match old(self)@.scan().outcome {
                Ok(Token::End) => found is None,
                Ok(token) => found matches Some(Ok(symbol)) && symbol@ == token,
                Err(error) => found == Some(Err::<Symbol, ParserError>(error)),
            },
    {
        match self.next_symbol() {
            Ok(Symbol::End) => None,
            other => Some(other),
        }
    }
}

} // verus!
