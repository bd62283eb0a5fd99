//! Compiles regular expressions into automata that decide membership of
//! strings: a tokenizer and a shunting-yard parser build the syntax tree;
//! Thompson's construction gives an NFA, which the subset construction turns
//! into a DFA; the position (follow-set) construction builds a DFA straight
//! from the tree; partition refinement minimizes any DFA.
//!
//! The language of a tree is `language::in_language`. The NFA, its subset
//! DFA, the direct DFA and their minimizations each accept exactly that
//! language (`laws` gathers these facts).

pub mod automata;
pub mod bitset;
pub mod builder;
pub mod dfa;
pub mod err;
pub mod language;
pub mod laws;
pub mod nfa;
pub mod nfa_language;
pub mod optimize;
pub mod symbols;
pub mod tokenize;
pub mod tree;
pub mod visualizer;

pub use automata::Automata;
pub use builder::DFABuilder;
pub use dfa::DFAutomata;
pub use err::LexError;
pub use nfa::{NFABuilder, NFAutomata};
pub use optimize::DFAOptimizer;
pub use symbols::{BinaryOperator, Operator, Symbol, UnaryOperator, MAX_PATTERN_LEN};
pub use tokenize::{to_postfix, tokenize_regular_expression, LexToken};
pub use tree::LexTree;
pub use visualizer::{DFAVisualizer, LexTreeVisualizer, NFAVisualizer};
