//! Arithmetic expression evaluation: tokenizing infix text, converting the
//! tokens to postfix order with the shunting-yard algorithm, and reducing a
//! postfix sequence to the expression tree that a numeric fold evaluates;
//! and a scanner that collects TODO comments from source text.
use vstd::prelude::*;

pub mod containers;
pub mod text;
pub mod tokenizer;
pub mod shunting;
pub mod postfix;
pub mod todo;

verus! {

/// Why an expression could not be evaluated.
#[derive(Debug, PartialEq, Eq)]
pub enum CalcError {
    /// A `)` without a matching `(`, or a `(` left open.
    UnbalancedParentheses,
    /// An operator without two operands before it.
    MissingOperand,
    /// Operands left over after the last operator, or none at all.
    ResidualOperands,
    /// An operand that does not read as a number.
    InvalidNumeral(String),
}

} // verus!
