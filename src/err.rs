use vstd::prelude::*;

verus! {

/// Why a pattern was rejected. Each variant carries the index (in
/// characters) where the problem was found and the pattern itself.
#[derive(Debug, PartialEq, Eq)]
pub enum LexError {
    MissingOpeningParenthesis(usize, String),
    MissingClosingParenthesis(usize, String),
    MissingArgument(usize, String),
    /// The token stream did not form a well-built postfix expression; the
    /// tokenizer never hands such a stream on, so this marks a broken
    /// invariant rather than a bad pattern.
    MalformedExpression(String),
}

/// The kind and position of a rejection, without the pattern text.
pub enum Failure {
    MissingOpeningParenthesis(nat),
    MissingClosingParenthesis(nat),
    MissingArgument(nat),
    MalformedExpression,
}

impl LexError {
    pub open spec fn failure(&self) -> Failure {
        match self {
            LexError::MissingOpeningParenthesis(i, _) => Failure::MissingOpeningParenthesis(*i as nat),
            LexError::MissingClosingParenthesis(i, _) => Failure::MissingClosingParenthesis(*i as nat),
            LexError::MissingArgument(i, _) => Failure::MissingArgument(*i as nat),
            LexError::MalformedExpression(_) => Failure::MalformedExpression,
        }
    }

    pub open spec fn source(&self) -> Seq<char> {
        match self {
            LexError::MissingOpeningParenthesis(_, s) => s@,
            LexError::MissingClosingParenthesis(_, s) => s@,
            LexError::MissingArgument(_, s) => s@,
            LexError::MalformedExpression(s) => s@,
        }
    }

    /// The position the error points at (0 for a malformed expression).
    pub fn position(&self) -> (r: usize)
        ensures
            self.failure() matches Failure::MissingOpeningParenthesis(p) ==> r == p,
            self.failure() matches Failure::MissingClosingParenthesis(p) ==> r == p,
            self.failure() matches Failure::MissingArgument(p) ==> r == p,
            self.failure() matches Failure::MalformedExpression ==> r == 0,
    {
        match self {
            LexError::MissingOpeningParenthesis(i, _) => *i,
            LexError::MissingClosingParenthesis(i, _) => *i,
            LexError::MissingArgument(i, _) => *i,
            LexError::MalformedExpression(_) => 0,
        }
    }
}

} // verus!
