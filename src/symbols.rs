use vstd::prelude::*;

verus! {

/// The longest pattern, in characters, that the pattern-level constructors
/// take: state and position numbers then fit in `usize`.
pub const MAX_PATTERN_LEN: usize = usize::MAX / 16;

/// An automaton state; state 0 is the initial one.
pub type State = usize;

/// A letter of a pattern: the empty word or one character.
#[derive(Debug, Clone, Copy, PartialEq, Eq, Structural, Hash)]
pub enum Symbol {
    Epsilon,
    Character(char),
}

#[derive(Debug, Clone, Copy, PartialEq, Eq, Structural, Hash)]
pub enum BinaryOperator {
    Concat,
    Or,
}

#[derive(Debug, Clone, Copy, PartialEq, Eq, Structural, Hash)]
pub enum UnaryOperator {
    /// zero or more
    Kleene,
    /// zero or one
    Maybe,
    /// one or more
    Many,
}

#[derive(Debug, Clone, Copy, PartialEq, Eq, Structural, Hash)]
pub enum Operator {
    Binary(BinaryOperator),
    Unary(UnaryOperator),
    OpenParenthesis,
    CloseParenthesis,
}

/// Precedence of an operator: `|` binds weakest, then concatenation, then
/// the postfix operators; parentheses carry none.
pub open spec fn order_of(op: Operator) -> nat {
    match op {
        Operator::Binary(BinaryOperator::Or) => 1,
        Operator::Binary(BinaryOperator::Concat) => 2,
        Operator::Unary(_) => 3,
        Operator::OpenParenthesis | Operator::CloseParenthesis => 0,
    }
}

impl Operator {
    pub fn order(self) -> (r: usize)
        ensures
            r == order_of(self),
    {
        match self {
            Operator::Unary(_) => 3,
            Operator::Binary(operation) => match operation {
                BinaryOperator::Concat => 2,
                BinaryOperator::Or => 1,
            },
            Operator::OpenParenthesis | Operator::CloseParenthesis => 0,
        }
    }
}

} // verus!
