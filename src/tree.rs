use vstd::prelude::*;
use crate::err::{Failure, LexError};
use crate::symbols::{BinaryOperator, Operator, Symbol, UnaryOperator};
use crate::tokenize::{
    flush, pop_to_open, pop_weaker, postfix_prefix, postfix_spec, to_postfix, tok_prefix, tok_step, tokenize_regular_expression,
    tokenize_spec, LexToken, TokState,
};

verus! {

/// The syntax tree of a pattern.
#[allow(inconsistent_fields)]
#[derive(Debug, PartialEq, Eq)]
pub enum LexTree {
    Binary { value: BinaryOperator, left_child: Box<LexTree>, right_child: Box<LexTree> },
    Unary { value: UnaryOperator, child: Box<LexTree> },
    Leaf { value: Symbol },
}

/// Reads one tree off the end of a postfix token stack: the tree and what
/// is left below it, or `None` when the stack runs out first or holds a
/// parenthesis. A binary operator's first operand read is its right child.
pub open spec fn parse_postfix(stack: Seq<LexToken>) -> Option<(LexTree, Seq<LexToken>)>
    decreases stack.len(),
{
    if stack.len() == 0 {
        None
    } else {
        let rest = stack.drop_last();
        match stack.last() {
            LexToken::Symbol(value) => Some((LexTree::Leaf { value }, rest)),
            LexToken::Operator(Operator::Binary(value)) => match parse_postfix(rest) {
                Some((right, rest1)) => if rest1.len() < rest.len() {
                    match parse_postfix(rest1) {
                        Some((left, rest2)) => Some(
                            (LexTree::Binary { value, left_child: Box::new(left), right_child: Box::new(right) }, rest2),
                        ),
                        None => None,
                    }
                } else {
                    None
                },
                None => None,
            },
            LexToken::Operator(Operator::Unary(value)) => match parse_postfix(rest) {
                Some((child, rest1)) => Some((LexTree::Unary { value, child: Box::new(child) }, rest1)),
                None => None,
            },
            LexToken::Operator(_) => None,
        }
    }
}

proof fn lemma_parse_shrinks(stack: Seq<LexToken>)
    ensures
        parse_postfix(stack) matches Some((_, rest)) ==> rest.len() < stack.len(),
    decreases stack.len(),
{
    if stack.len() > 0 {
        let rest = stack.drop_last();
        lemma_parse_shrinks(rest);
        if let Some((_, rest1)) = parse_postfix(rest) {
            lemma_parse_shrinks(rest1);
        }
    }
}

/// The number of nodes of a tree.
pub open spec fn tree_size(t: LexTree) -> nat
    decreases t,
{
    match t {
        LexTree::Leaf { .. } => 1,
        LexTree::Binary { left_child, right_child, .. } => 1 + tree_size(*left_child) + tree_size(*right_child),
        LexTree::Unary { child, .. } => 1 + tree_size(*child),
    }
}

proof fn lemma_parse_size(stack: Seq<LexToken>)
    ensures
        parse_postfix(stack) matches Some((t, rest)) ==> tree_size(t) + rest.len() <= stack.len(),
    decreases stack.len(),
{
    if stack.len() > 0 {
        let rest = stack.drop_last();
        lemma_parse_size(rest);
        if let Some((_, rest1)) = parse_postfix(rest) {
            lemma_parse_size(rest1);
        }
    }
}

proof fn lemma_tok_prefix_len(s: Seq<char>, n: nat)
    requires
        n <= s.len(),
    ensures
        tok_prefix(s, n) matches Ok(st) ==> st.output.len() <= 2 * n,
    decreases n,
{
    if n > 0 {
        lemma_tok_prefix_len(s, (n - 1) as nat);
        if let Ok(prev) = tok_prefix(s, (n - 1) as nat) {
            lemma_tok_step_len(prev, (n - 1) as nat, s[n - 1]);
        }
    }
}

proof fn lemma_tok_step_len(st: TokState, index: nat, c: char)
    ensures
        tok_step(st, index, c) matches Ok(next) ==> next.output.len() <= st.output.len() + 2,
{
    let concat_len: nat = if st.add_concat { 1 } else { 0 };
    if st.escape {
        assert(crate::tokenize::push_operand(TokState { escape: false, ..st }, LexToken::Symbol(crate::symbols::Symbol::Character(c))).output.len()
            == st.output.len() + concat_len + 1);
    } else if c == '(' || c == ')' || c == '|' || c == '*' || c == '?' || c == '+' || c == '\\' {
    } else if c == crate::tokenize::EPSILON_GLYPH {
        assert(crate::tokenize::push_operand(st, LexToken::Symbol(crate::symbols::Symbol::Epsilon)).output.len() == st.output.len() + concat_len + 1);
    } else {
        assert(crate::tokenize::push_operand(st, LexToken::Symbol(crate::symbols::Symbol::Character(c))).output.len() == st.output.len() + concat_len + 1);
    }
}

proof fn lemma_pop_to_open_len(out: Seq<LexToken>, stack: Seq<crate::symbols::Operator>)
    ensures
        pop_to_open(out, stack).0.len() + pop_to_open(out, stack).1.len() <= out.len() + stack.len(),
    decreases stack.len(),
{
    if stack.len() > 0 && stack.last() != crate::symbols::Operator::OpenParenthesis {
        lemma_pop_to_open_len(out.push(LexToken::Operator(stack.last())), stack.drop_last());
    }
}

proof fn lemma_pop_weaker_len(out: Seq<LexToken>, stack: Seq<crate::symbols::Operator>, op: crate::symbols::Operator)
    ensures
        pop_weaker(out, stack, op).0.len() + pop_weaker(out, stack, op).1.len() == out.len() + stack.len(),
    decreases stack.len(),
{
    if stack.len() > 0 && !(crate::symbols::order_of(op) > crate::symbols::order_of(stack.last())) {
        lemma_pop_weaker_len(out.push(LexToken::Operator(stack.last())), stack.drop_last(), op);
    }
}

proof fn lemma_flush_len(out: Seq<LexToken>, stack: Seq<crate::symbols::Operator>)
    ensures
        flush(out, stack).len() == out.len() + stack.len(),
    decreases stack.len(),
{
    if stack.len() > 0 {
        lemma_flush_len(out.push(LexToken::Operator(stack.last())), stack.drop_last());
    }
}

proof fn lemma_postfix_prefix_len(tokens: Seq<LexToken>, n: nat)
    requires
        n <= tokens.len(),
    ensures
        postfix_prefix(tokens, n).0.len() + postfix_prefix(tokens, n).1.len() <= n,
    decreases n,
{
    if n > 0 {
        lemma_postfix_prefix_len(tokens, (n - 1) as nat);
        let (o, st) = postfix_prefix(tokens, (n - 1) as nat);
        lemma_pop_to_open_len(o, st);
        match tokens[n - 1] {
            LexToken::Operator(op) => lemma_pop_weaker_len(o, st, op),
            _ => {},
        }
    }
}

/// A parsed pattern of `n` characters has at most `2n + 1` nodes.
pub proof fn lemma_parse_spec_size(s: Seq<char>)
    ensures
        parse_spec(s) matches Ok(t) ==> tree_size(t) <= 2 * s.len() + 1,
{
    lemma_tok_prefix_len(s, s.len());
    if let Ok(tokens) = tokenize_spec(s) {
        assert(tokens.len() <= 2 * s.len() + 1);
        lemma_postfix_prefix_len(tokens, tokens.len());
        let (o, st) = postfix_prefix(tokens, tokens.len());
        lemma_flush_len(o, st);
        lemma_parse_size(postfix_spec(tokens));
    }
}

/// The tree of pattern `s`, or why it is rejected.
pub open spec fn parse_spec(s: Seq<char>) -> Result<LexTree, Failure> {
    match tokenize_spec(s) {
        Err(e) => Err(e),
        Ok(tokens) => match parse_postfix(postfix_spec(tokens)) {
            Some((t, _)) => Ok(t),
            None => Err(Failure::MalformedExpression),
        },
    }
}

impl LexTree {
    fn from_reference(stack: &mut Vec<LexToken>) -> (r: Option<LexTree>)
        ensures
            match parse_postfix(old(stack)@) {
                Some((t, rest)) => r == Some(t) && final(stack)@ == rest,
                None => r is None,
            },
        decreases old(stack)@.len(),
    {
        proof { lemma_parse_shrinks(stack@); }
        match stack.pop() {
            None => None,
            Some(LexToken::Symbol(value)) => Some(LexTree::Leaf { value }),
            Some(LexToken::Operator(Operator::Binary(value))) => {
                proof { lemma_parse_shrinks(stack@); }
                let right = match LexTree::from_reference(stack) {
                    Some(t) => t,
                    None => return None,
                };
                let left = match LexTree::from_reference(stack) {
                    Some(t) => t,
                    None => return None,
                };
                Some(LexTree::Binary { value, left_child: Box::new(left), right_child: Box::new(right) })
            },
            Some(LexToken::Operator(Operator::Unary(value))) => {
                let child = match LexTree::from_reference(stack) {
                    Some(t) => t,
                    None => return None,
                };
                Some(LexTree::Unary { value, child: Box::new(child) })
            },
            Some(LexToken::Operator(_)) => None,
        }
    }

    /// Parses a pattern into its syntax tree.
    pub fn try_from(value: &str) -> (r: Result<LexTree, LexError>)
        ensures
            match r {
                Ok(t) => parse_spec(value@) == Ok::<LexTree, Failure>(t),
                Err(e) => parse_spec(value@) == Err::<LexTree, Failure>(e.failure()) && e.source() == value@,
            },
    {
        let tokens = tokenize_regular_expression(value)?;
        let mut postfix = to_postfix(tokens);
        match LexTree::from_reference(&mut postfix) {
            Some(t) => Ok(t),
            None => Err(LexError::MalformedExpression(value.to_owned())),
        }
    }
}

} // verus!
