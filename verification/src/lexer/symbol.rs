//! The symbols of an expression and their mathematical views.
use vstd::prelude::*;
use vstd::string::*;

verus! {

/// A binary operator.
#[derive(Clone, Copy, Debug, PartialEq, Eq, Hash, Structural)]
pub enum Operation {
    Addition,
    Subtraction,
    Multiplication,
    Division,
    Pow,
}

impl Operation {
    /// How tightly the operator binds: the larger number binds first.
    pub open spec fn precedence(self) -> nat {
        match self {
            Operation::Pow => 3,
            Operation::Multiplication | Operation::Division => 2,
            Operation::Addition | Operation::Subtraction => 1,
        }
    }

    /// The characters by which the operator is written.
    pub open spec fn glyph(self) -> Seq<char> {
        match self {
            Operation::Addition => seq!['+'],
            Operation::Subtraction => seq!['-'],
            Operation::Multiplication => seq!['*'],
            Operation::Division => seq!['/'],
            Operation::Pow => seq!['*', '*'],
        }
    }

    /// The operator as it is written in an expression.
    pub fn to_string(&self) -> (s: String)
        ensures
            s@ == self.glyph(),
    {
        proof {
            reveal_strlit("+");
            reveal_strlit("-");
            reveal_strlit("*");
            reveal_strlit("/");
            reveal_strlit("**");
        }
        let s = match self {
            Operation::Addition => String::from_str("+"),
            Operation::Subtraction => String::from_str("-"),
            Operation::Multiplication => String::from_str("*"),
            Operation::Division => String::from_str("/"),
            Operation::Pow => String::from_str("**"),
        };
        assert(s@ =~= self.glyph());
        s
    }
}

/// A number as it was written: the digits and the decimal point of the
/// literal, and whether a minus sign stood in front of it.
#[derive(Clone, Debug, PartialEq, Eq, Hash)]
pub struct Literal {
    /// A sign prefix preceded the literal: its value is the negated one.
    pub negative: bool,
    /// The literal without its sign.
    pub text: String,
}

/// The mathematical view of a [`Literal`].
pub struct Numeral {
    pub negative: bool,
    pub text: Seq<char>,
}

impl View for Literal {
    type V = Numeral;

    open spec fn view(&self) -> Numeral {
        Numeral { negative: self.negative, text: self.text@ }
    }
}

/// One lexical unit of an expression.
#[derive(Clone, Debug, PartialEq, Eq, Hash)]
pub enum Symbol {
    Number(Literal),
    BinaryOperator(Operation),
    OpenParenthesis,
    ClosedParenthesis,
    /// The input is used up. No sequence of symbols holds this one.
    End,
}

/// The mathematical view of a [`Symbol`].
pub enum Token {
    Number(Numeral),
    Operator(Operation),
    Open,
    Close,
    End,
}

impl View for Symbol {
    type V = Token;

    open spec fn view(&self) -> Token {
        match self {
            Symbol::Number(literal) => Token::Number(literal@),
            Symbol::BinaryOperator(operation) => Token::Operator(*operation),
            Symbol::OpenParenthesis => Token::Open,
            Symbol::ClosedParenthesis => Token::Close,
            Symbol::End => Token::End,
        }
    }
}

impl Token {
    /// The characters by which a token is written.
    pub open spec fn spelling(self) -> Seq<char> {
        match self {
            Token::Number(numeral) => if numeral.negative {
                seq!['-'] + numeral.text
            } else {
                numeral.text
            },
            Token::Operator(operation) => operation.glyph(),
            Token::Open => seq!['('],
            Token::Close => seq![')'],
            Token::End => Seq::empty(),
        }
    }

    /// A token in words: its kind, and for a number or an operator how it is
    /// written.
    pub open spec fn caption(self) -> Seq<char> {
        match self {
            Token::Number(_) => "Number "@ + self.spelling(),
            Token::Operator(_) => "Binary Operator "@ + self.spelling(),
            Token::Open => "Open Parenthesis"@,
            Token::Close => "Closed Parenthesis"@,
            Token::End => "End"@,
        }
    }
}

impl Symbol {
    /// The symbol in words.
    pub fn to_string(&self) -> (s: String)
        ensures
            s@ == self@.caption(),
    {
        match self {
            Symbol::Number(literal) => {
                let mut s = String::from_str("Number ");
                if literal.negative {
                    proof {
                        reveal_strlit("-");
                    }
                    s.append("-");
                }
                s.append(literal.text.as_str());
                assert(s@ =~= "Number "@ + self@.spelling());
                s
            },
            Symbol::BinaryOperator(operation) => {
                let mut s = String::from_str("Binary Operator ");
                let glyph = operation.to_string();
                s.append(glyph.as_str());
                s
            },
            Symbol::OpenParenthesis => String::from_str("Open Parenthesis"),
            Symbol::ClosedParenthesis => String::from_str("Closed Parenthesis"),
            Symbol::End => String::from_str("End"),
        }
    }
}

/// The views of a sequence of symbols, in the same order.
pub open spec fn tokens_of(symbols: Seq<Symbol>) -> Seq<Token> {
    Seq::new(symbols.len(), |i: int| symbols[i]@)
}

} // verus!
