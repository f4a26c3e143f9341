//! Evaluation of arithmetic expressions written as text.
//!
//! An expression passes through three stages: the [`lexer`] cuts the text into
//! symbols, the [`shunting`] yard brings them into postfix order, and the
//! [`evaluator`] reduces the postfix sequence over a stack of values. The
//! [`parser`] runs the three in a row. Every stage is described by a function
//! on mathematical sequences, and the executable code is proved to compute
//! exactly that function.
//!
//! What a number is worth and what an operation yields is left to the caller,
//! who hands in two functions; the library decides which operation meets
//! which operands. That it decides as the rules of precedence demand is
//! proved in [`grammar`], and what follows for sums in [`sums`].
pub mod evaluator;
pub mod grammar;
pub mod lexer;
pub mod parser;
pub mod shunting;
pub mod sums;
