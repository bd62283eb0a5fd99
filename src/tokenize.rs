use vstd::prelude::*;
use vstd::string::StrSliceExecFns;
use crate::err::{Failure, LexError};
use crate::symbols::{BinaryOperator, Operator, Symbol, UnaryOperator, order_of};

verus! {

#[derive(Debug, Clone, Copy, PartialEq, Eq, Structural, Hash)]
pub enum LexToken {
    Operator(Operator),
    Symbol(Symbol),
}

/// The glyph that stands for the empty word in a pattern.
pub const EPSILON_GLYPH: char = 'ε';

/// The tokenizer's state after a prefix of the pattern.
pub struct TokState {
    pub output: Seq<LexToken>,
    /// an operand has just ended, so a following operand is concatenated
    pub add_concat: bool,
    pub last_binary: bool,
    /// the previous character was an escaping backslash
    pub escape: bool,
    /// positions of the parentheses still open
    pub levels: Seq<nat>,
}

pub open spec fn concat_token() -> LexToken {
    LexToken::Operator(Operator::Binary(BinaryOperator::Concat))
}

/// An operand is appended, preceded by `Concat` when one just ended.
pub open spec fn push_operand(st: TokState, t: LexToken) -> TokState {
    TokState {
        output: if st.add_concat { st.output.push(concat_token()).push(t) } else { st.output.push(t) },
        add_concat: true,
        last_binary: false,
        ..st
    }
}

/// One character of the pattern, at position `index`.
pub open spec fn tok_step(st: TokState, index: nat, c: char) -> Result<TokState, Failure> {
    if st.escape {
        Ok(push_operand(TokState { escape: false, ..st }, LexToken::Symbol(Symbol::Character(c))))
    } else if c == '(' {
        Ok(TokState {
            output: if st.add_concat {
                st.output.push(concat_token()).push(LexToken::Operator(Operator::OpenParenthesis))
            } else {
                st.output.push(LexToken::Operator(Operator::OpenParenthesis))
            },
            add_concat: false,
            last_binary: false,
            levels: st.levels.push(index),
            ..st
        })
    } else if c == ')' {
        if st.last_binary {
            Err(Failure::MissingArgument(index))
        } else if st.levels.len() == 0 {
            Err(Failure::MissingOpeningParenthesis(index))
        } else {
            Ok(TokState {
                output: if st.add_concat {
                    st.output.push(LexToken::Operator(Operator::CloseParenthesis))
                } else {
                    st.output.push(LexToken::Symbol(Symbol::Epsilon)).push(
                        LexToken::Operator(Operator::CloseParenthesis),
                    )
                },
                add_concat: true,
                levels: st.levels.drop_last(),
                ..st
            })
        }
    } else if c == '|' {
        if !st.add_concat {
            Err(Failure::MissingArgument(index))
        } else {
            Ok(TokState {
                output: st.output.push(LexToken::Operator(Operator::Binary(BinaryOperator::Or))),
                add_concat: false,
                last_binary: true,
                ..st
            })
        }
    } else if c == '*' || c == '?' || c == '+' {
        if st.last_binary || !st.add_concat {
            Err(Failure::MissingArgument(index))
        } else {
            let op = if c == '*' {
                UnaryOperator::Kleene
            } else if c == '?' {
                UnaryOperator::Maybe
            } else {
                UnaryOperator::Many
            };
            Ok(TokState { output: st.output.push(LexToken::Operator(Operator::Unary(op))), ..st })
        }
    } else if c == '\\' {
        Ok(TokState { escape: true, ..st })
    } else if c == EPSILON_GLYPH {
        Ok(push_operand(st, LexToken::Symbol(Symbol::Epsilon)))
    } else {
        Ok(push_operand(st, LexToken::Symbol(Symbol::Character(c))))
    }
}

pub open spec fn tok_initial() -> TokState {
    TokState { output: seq![], add_concat: false, last_binary: false, escape: false, levels: seq![] }
}

/// The tokenizer's state after the first `n` characters of `s`.
pub open spec fn tok_prefix(s: Seq<char>, n: nat) -> Result<TokState, Failure>
    decreases n,
{
    if n == 0 {
        Ok(tok_initial())
    } else {
        match tok_prefix(s, (n - 1) as nat) {
            Ok(st) => tok_step(st, (n - 1) as nat, s[n - 1]),
            Err(e) => Err(e),
        }
    }
}

/// The tokens of pattern `s`, or why it is rejected.
pub open spec fn tokenize_spec(s: Seq<char>) -> Result<Seq<LexToken>, Failure> {
    match tok_prefix(s, s.len()) {
        Err(e) => Err(e),
        Ok(st) => if st.last_binary || st.escape {
            Err(Failure::MissingArgument((s.len() - 1) as nat))
        } else if st.levels.len() > 0 {
            Err(Failure::MissingClosingParenthesis(st.levels.last()))
        } else if st.output.len() == 0 {
            Ok(seq![LexToken::Symbol(Symbol::Epsilon)])
        } else {
            Ok(st.output)
        },
    }
}

proof fn lemma_tok_err_persists(s: Seq<char>, n: nat, m: nat)
    requires
        n <= m,
        tok_prefix(s, n) is Err,
    ensures
        tok_prefix(s, m) == tok_prefix(s, n),
    decreases m - n,
{
    if n < m {
        lemma_tok_err_persists(s, n, (m - 1) as nat);
    }
}

/// The characters of `s`, one per scalar value.
pub fn chars_of(s: &str) -> (r: Vec<char>)
    ensures
        r@ == s@,
{
    let n = s.unicode_len();
    let mut r: Vec<char> = Vec::new();
    let mut i: usize = 0;
    while i < n
        invariant
            n == s@.len(),
            i <= n,
            r@ == s@.subrange(0, i as int),
        decreases n - i,
    {
        r.push(s.get_char(i));
        i += 1;
    }
    assert(r@ =~= s@);
    r
}

fn push_operand_exec(output: &mut Vec<LexToken>, add_concat: bool, t: LexToken)
    ensures
        final(output)@ == (if add_concat { old(output)@.push(concat_token()).push(t) } else { old(output)@.push(t) }),
{
    if add_concat {
        output.push(LexToken::Operator(Operator::Binary(BinaryOperator::Concat)));
    }
    output.push(t);
}

/// Splits a pattern into tokens, making every implicit concatenation an
/// explicit `Concat` operator.
pub fn tokenize_regular_expression(input: &str) -> (r: Result<Vec<LexToken>, LexError>)
    ensures
        match r {
            Ok(v) => tokenize_spec(input@) == Ok::<Seq<LexToken>, Failure>(v@) && parens_matched(v@),
            Err(e) => tokenize_spec(input@) == Err::<Seq<LexToken>, Failure>(e.failure()) && e.source() == input@,
        },
{
    let chars = chars_of(input);
    let n = chars.len();
    let mut output: Vec<LexToken> = Vec::new();
    let mut add_concat = false;
    let mut last_was_binary_operation = false;
    let mut must_be_char = false;
    let mut parenthesis_levels: Vec<usize> = Vec::new();
    let mut index: usize = 0;
    assert(parenthesis_levels@.map_values(|x: usize| x as nat) =~= seq![]);
    while index < n
        invariant
            n == chars@.len(),
            chars@ == input@,
            index <= n,
            tok_prefix(input@, index as nat) == Ok::<TokState, Failure>(TokState {
                output: output@,
                add_concat,
                last_binary: last_was_binary_operation,
                escape: must_be_char,
                levels: parenthesis_levels@.map_values(|x: usize| x as nat),
            }),
        decreases n - index,
    {
        let c = chars[index];
        let ghost levels = parenthesis_levels@.map_values(|x: usize| x as nat);
        if must_be_char {
            must_be_char = false;
            push_operand_exec(&mut output, add_concat, LexToken::Symbol(Symbol::Character(c)));
            add_concat = true;
            last_was_binary_operation = false;
        } else if c == '(' {
            if add_concat {
                output.push(LexToken::Operator(Operator::Binary(BinaryOperator::Concat)));
            }
            output.push(LexToken::Operator(Operator::OpenParenthesis));
            last_was_binary_operation = false;
            add_concat = false;
            parenthesis_levels.push(index);
            assert(parenthesis_levels@.map_values(|x: usize| x as nat) =~= levels.push(index as nat));
        } else if c == ')' {
            if last_was_binary_operation {
                proof { lemma_tok_err_persists(input@, (index + 1) as nat, n as nat); }
                return Err(LexError::MissingArgument(index, input.to_owned()));
            }
            if parenthesis_levels.len() == 0 {
                proof { lemma_tok_err_persists(input@, (index + 1) as nat, n as nat); }
                return Err(LexError::MissingOpeningParenthesis(index, input.to_owned()));
            }
            parenthesis_levels.pop();
            assert(parenthesis_levels@.map_values(|x: usize| x as nat) =~= levels.drop_last());
            if !add_concat {
                output.push(LexToken::Symbol(Symbol::Epsilon));
                add_concat = true;
            }
            output.push(LexToken::Operator(Operator::CloseParenthesis));
        } else if c == '|' {
            if !add_concat {
                proof { lemma_tok_err_persists(input@, (index + 1) as nat, n as nat); }
                return Err(LexError::MissingArgument(index, input.to_owned()));
            }
            add_concat = false;
            last_was_binary_operation = true;
            output.push(LexToken::Operator(Operator::Binary(BinaryOperator::Or)));
        } else if c == '*' || c == '?' || c == '+' {
            if last_was_binary_operation || !add_concat {
                proof { lemma_tok_err_persists(input@, (index + 1) as nat, n as nat); }
                return Err(LexError::MissingArgument(index, input.to_owned()));
            }
            let op = if c == '*' {
                UnaryOperator::Kleene
            } else if c == '?' {
                UnaryOperator::Maybe
            } else {
                UnaryOperator::Many
            };
            output.push(LexToken::Operator(Operator::Unary(op)));
        } else if c == '\\' {
            must_be_char = true;
        } else {
            let t = if c == EPSILON_GLYPH {
                LexToken::Symbol(Symbol::Epsilon)
            } else {
                LexToken::Symbol(Symbol::Character(c))
            };
            push_operand_exec(&mut output, add_concat, t);
            add_concat = true;
            last_was_binary_operation = false;
        }
        index += 1;
    }
    assert(input@.len() == n);
    if last_was_binary_operation || must_be_char {
        return Err(LexError::MissingArgument(n - 1, input.to_owned()));
    }
    if parenthesis_levels.len() > 0 {
        let x = parenthesis_levels[parenthesis_levels.len() - 1];
        return Err(LexError::MissingClosingParenthesis(x, input.to_owned()));
    }
    if output.len() == 0 {
        output.push(LexToken::Symbol(Symbol::Epsilon));
        assert(output@ =~= seq![LexToken::Symbol(Symbol::Epsilon)]);
    }
    proof { lemma_tokens_parens_matched(input@); }
    Ok(output)
}

/// Pops operators to the output up to the nearest `(`, which is dropped.
pub open spec fn pop_to_open(out: Seq<LexToken>, stack: Seq<Operator>) -> (Seq<LexToken>, Seq<Operator>)
    decreases stack.len(),
{
    if stack.len() == 0 {
        (out, stack)
    } else if stack.last() == Operator::OpenParenthesis {
        (out, stack.drop_last())
    } else {
        pop_to_open(out.push(LexToken::Operator(stack.last())), stack.drop_last())
    }
}

/// Pops to the output every operator on top of the stack that binds at
/// least as tightly as `op`.
pub open spec fn pop_weaker(out: Seq<LexToken>, stack: Seq<Operator>, op: Operator) -> (Seq<LexToken>, Seq<Operator>)
    decreases stack.len(),
{
    if stack.len() == 0 || order_of(op) > order_of(stack.last()) {
        (out, stack)
    } else {
        pop_weaker(out.push(LexToken::Operator(stack.last())), stack.drop_last(), op)
    }
}

/// Pops the whole stack to the output.
pub open spec fn flush(out: Seq<LexToken>, stack: Seq<Operator>) -> Seq<LexToken>
    decreases stack.len(),
{
    if stack.len() == 0 {
        out
    } else {
        flush(out.push(LexToken::Operator(stack.last())), stack.drop_last())
    }
}

pub open spec fn postfix_step(out: Seq<LexToken>, stack: Seq<Operator>, t: LexToken) -> (Seq<LexToken>, Seq<Operator>) {
    match t {
        LexToken::Symbol(_) => (out.push(t), stack),
        LexToken::Operator(Operator::OpenParenthesis) => (out, stack.push(Operator::OpenParenthesis)),
        LexToken::Operator(Operator::CloseParenthesis) => pop_to_open(out, stack),
        LexToken::Operator(op) => {
            let (o, st) = pop_weaker(out, stack, op);
            (o, st.push(op))
        },
    }
}

/// Output and operator stack after the first `n` tokens.
pub open spec fn postfix_prefix(tokens: Seq<LexToken>, n: nat) -> (Seq<LexToken>, Seq<Operator>)
    decreases n,
{
    if n == 0 {
        (seq![], seq![])
    } else {
        let (o, st) = postfix_prefix(tokens, (n - 1) as nat);
        postfix_step(o, st, tokens[n - 1])
    }
}

/// The shunting-yard reordering of `tokens` into postfix order.
pub open spec fn postfix_spec(tokens: Seq<LexToken>) -> Seq<LexToken> {
    let (o, st) = postfix_prefix(tokens, tokens.len());
    flush(o, st)
}

/// How many parentheses the tokens leave open.
pub open spec fn depth(tokens: Seq<LexToken>) -> int
    decreases tokens.len(),
{
    if tokens.len() == 0 {
        0
    } else {
        depth(tokens.drop_last()) + if tokens.last() == LexToken::Operator(Operator::OpenParenthesis) {
            1int
        } else if tokens.last() == LexToken::Operator(Operator::CloseParenthesis) {
            -1int
        } else {
            0int
        }
    }
}

/// Every `)` closes a `(` before it.
pub open spec fn parens_matched(tokens: Seq<LexToken>) -> bool
    decreases tokens.len(),
{
    tokens.len() == 0 || (parens_matched(tokens.drop_last()) && depth(tokens) >= 0)
}

/// A token other than a parenthesis changes neither the depth nor the
/// matching.
proof fn lemma_push_plain(o: Seq<LexToken>, x: LexToken)
    requires
        x != LexToken::Operator(Operator::OpenParenthesis),
        x != LexToken::Operator(Operator::CloseParenthesis),
        parens_matched(o),
        depth(o) >= 0,
    ensures
        depth(o.push(x)) == depth(o),
        parens_matched(o.push(x)),
{
    assert(o.push(x).drop_last() =~= o);
}

proof fn lemma_push_operand_parens(st: TokState, t: LexToken)
    requires
        t is Symbol,
        depth(st.output) == st.levels.len(),
        parens_matched(st.output),
    ensures
        depth(push_operand(st, t).output) == st.levels.len(),
        parens_matched(push_operand(st, t).output),
{
    let o = st.output;
    if st.add_concat {
        lemma_push_plain(o, concat_token());
        lemma_push_plain(o.push(concat_token()), t);
    } else {
        lemma_push_plain(o, t);
    }
}

/// The tokenizer's output so far opens as many parentheses as it keeps
/// positions of, and closes none it did not open.
proof fn lemma_tok_step_parens(st: TokState, index: nat, c: char)
    requires
        depth(st.output) == st.levels.len(),
        parens_matched(st.output),
    ensures
        tok_step(st, index, c) matches Ok(next) ==> depth(next.output) == next.levels.len() && parens_matched(next.output),
{
    let o = st.output;
    let open = LexToken::Operator(Operator::OpenParenthesis);
    let close = LexToken::Operator(Operator::CloseParenthesis);
    if st.escape {
        lemma_push_operand_parens(TokState { escape: false, ..st }, LexToken::Symbol(Symbol::Character(c)));
    } else if c == '(' {
        if st.add_concat {
            lemma_push_plain(o, concat_token());
            assert(o.push(concat_token()).push(open).drop_last() =~= o.push(concat_token()));
        } else {
            assert(o.push(open).drop_last() =~= o);
        }
    } else if c == ')' {
        if !st.last_binary && st.levels.len() > 0 {
            if st.add_concat {
                assert(o.push(close).drop_last() =~= o);
            } else {
                let e = LexToken::Symbol(Symbol::Epsilon);
                lemma_push_plain(o, e);
                assert(o.push(e).push(close).drop_last() =~= o.push(e));
            }
        }
    } else if c == '|' {
        if st.add_concat {
            lemma_push_plain(o, LexToken::Operator(Operator::Binary(BinaryOperator::Or)));
        }
    } else if c == '*' || c == '?' || c == '+' {
        if !(st.last_binary || !st.add_concat) {
            let op = if c == '*' {
                UnaryOperator::Kleene
            } else if c == '?' {
                UnaryOperator::Maybe
            } else {
                UnaryOperator::Many
            };
            lemma_push_plain(o, LexToken::Operator(Operator::Unary(op)));
        }
    } else if c == '\\' {
    } else if c == EPSILON_GLYPH {
        lemma_push_operand_parens(st, LexToken::Symbol(Symbol::Epsilon));
    } else {
        lemma_push_operand_parens(st, LexToken::Symbol(Symbol::Character(c)));
    }
}

proof fn lemma_tok_prefix_parens(s: Seq<char>, n: nat)
    requires
        n <= s.len(),
    ensures
        tok_prefix(s, n) matches Ok(st) ==> depth(st.output) == st.levels.len() && parens_matched(st.output),
    decreases n,
{
    if n > 0 {
        lemma_tok_prefix_parens(s, (n - 1) as nat);
        if let Ok(prev) = tok_prefix(s, (n - 1) as nat) {
            lemma_tok_step_parens(prev, (n - 1) as nat, s[n - 1]);
        }
    }
}

/// The tokens of an accepted pattern close only parentheses they opened.
pub proof fn lemma_tokens_parens_matched(s: Seq<char>)
    ensures
        tokenize_spec(s) matches Ok(v) ==> parens_matched(v),
{
    lemma_tok_prefix_parens(s, s.len());
    let e = seq![LexToken::Symbol(Symbol::Epsilon)];
    let empty = Seq::<LexToken>::empty();
    assert(depth(empty) == 0);
    assert(parens_matched(empty));
    lemma_push_plain(empty, LexToken::Symbol(Symbol::Epsilon));
    assert(e =~= empty.push(LexToken::Symbol(Symbol::Epsilon)));
}

/// Reorders infix tokens into postfix order (shunting-yard). Parentheses are
/// consumed. Every `)` must close an earlier `(`: the tokenizer reports an
/// unmatched `)` as `MissingOpeningParenthesis` at its place in the pattern.
pub fn to_postfix(input: Vec<LexToken>) -> (r: Vec<LexToken>)
    requires
        parens_matched(input@),
    ensures
        r@ == postfix_spec(input@),
{
    let mut output: Vec<LexToken> = Vec::new();
    let mut stack: Vec<Operator> = Vec::new();
    let mut i: usize = 0;
    while i < input.len()
        invariant
            i <= input@.len(),
            postfix_prefix(input@, i as nat) == (output@, stack@),
        decreases input@.len() - i,
    {
        let token = input[i];
        match token {
            LexToken::Symbol(x) => output.push(LexToken::Symbol(x)),
            LexToken::Operator(operation) => {
                match operation {
                    Operator::OpenParenthesis => stack.push(Operator::OpenParenthesis),
                    Operator::CloseParenthesis => {
                        let ghost target = pop_to_open(output@, stack@);
                        loop
                            invariant_except_break
                                pop_to_open(output@, stack@) == target,
                            ensures
                                (output@, stack@) == target,
                            decreases stack@.len(),
                        {
                            match stack.pop() {
                                None => break,
                                Some(last) => {
                                    if last == Operator::OpenParenthesis {
                                        break;
                                    }
                                    output.push(LexToken::Operator(last));
                                },
                            }
                        }
                    },
                    _ => {
                        let ghost target = pop_weaker(output@, stack@, operation);
                        while stack.len() > 0 && !(operation.order() > stack[stack.len() - 1].order())
                            invariant
                                pop_weaker(output@, stack@, operation) == target,
                            ensures
                                (output@, stack@) == target,
                            decreases stack@.len(),
                        {
                            let top = stack.pop().unwrap();
                            output.push(LexToken::Operator(top));
                        }
                        stack.push(operation);
                    },
                }
            },
        }
        i += 1;
    }
    let ghost target = flush(output@, stack@);
    while stack.len() > 0
        invariant
            flush(output@, stack@) == target,
        ensures
            output@ == target,
        decreases stack@.len(),
    {
        let operation = stack.pop().unwrap();
        output.push(LexToken::Operator(operation));
    }
    assert(input@.subrange(0, input@.len() as int) == input@);
    output
}

} // verus!
