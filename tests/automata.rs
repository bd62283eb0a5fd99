use lexer::{Automata, DFAOptimizer, DFAVisualizer, DFAutomata, LexError, LexTree, NFAutomata, Symbol, UnaryOperator};

#[test]
fn automata_simple_expression() {
    let automata = NFAutomata::try_from("a").unwrap();
    assert!(automata.test("a"))
}

#[test]
fn try_automata() {
    DFAutomata::try_from("a(a|b)*a(a|b)").unwrap();
}

#[test]
fn test() {
    let minimized = DFAOptimizer::optimize(
        vec![
            (0, '0', 1),
            (0, '1', 5),
            (1, '0', 6),
            (1, '1', 2),
            (2, '0', 0),
            (2, '1', 2),
            (3, '0', 2),
            (3, '1', 6),
            (4, '0', 7),
            (4, '1', 5),
            (5, '0', 2),
            (5, '1', 6),
            (6, '0', 6),
            (6, '1', 4),
            (7, '0', 6),
            (7, '1', 2),
        ],
        vec![2],
        7,
        vec!['0', '1'],
    );
    // the states merge into {0, 4}, {1, 7}, {2}, {3, 5}, {6}
    assert_eq!(minimized.last_state(), 4);
    assert!(minimized.test("01"));
    assert!(minimized.test("011"));
    assert!(!minimized.test("0110"));
    assert!(!minimized.test("0"));
    assert!(!minimized.test(""));
    assert!(!minimized.test("2"));
    let page = DFAVisualizer::new(&minimized).graph();
    assert!(page.contains("graph LR"));
}

/// Which of the three constructions accept `input` for `pattern`.
fn all_constructions(pattern: &str, input: &str) -> (bool, bool, bool, bool) {
    let nfa = NFAutomata::try_from(pattern).unwrap();
    let tree = LexTree::try_from(pattern).unwrap();
    let subset = DFAutomata::from_nfa(NFAutomata::try_from(pattern).unwrap());
    let direct = DFAutomata::unoptimized_from(&tree);
    let minimal = DFAutomata::from(&tree);
    (nfa.test(input), subset.test(input), direct.test(input), minimal.test(input))
}

fn agree(pattern: &str, input: &str, expected: bool) {
    let (a, b, c, d) = all_constructions(pattern, input);
    assert_eq!((a, b, c, d), (expected, expected, expected, expected), "{pattern} on {input:?}");
}

#[test]
fn single_character_scenario() {
    agree("a", "a", true);
    agree("a", "b", false);
    agree("a", "", false);
}

#[test]
fn kleene_star_scenario() {
    agree("a*", "", true);
    agree("a*", "aaaa", true);
    agree("a*", "ab", false);
}

#[test]
fn second_to_last_scenario() {
    agree("a(a|b)*a(a|b)", "aab", true);
    agree("a(a|b)*a(a|b)", "a", false);
    agree("a(a|b)*a(a|b)", "abbbab", true);
    agree("a(a|b)*a(a|b)", "abbbba", false);
}

#[test]
fn empty_pattern_scenario() {
    agree("", "", true);
    agree("", "x", false);
    agree("ε", "", true);
    agree("ε", "ε", false);
}

#[test]
fn optional_and_one_or_more() {
    agree("ab?", "a", true);
    agree("ab?", "ab", true);
    agree("ab?", "abb", false);
    agree("a+", "", false);
    agree("a+", "aaa", true);
    agree("(ab)+", "abab", true);
    agree("(ab)+", "aba", false);
}

#[test]
fn escaped_characters_match_literally() {
    agree("\\*\\(", "*(", true);
    agree("\\*\\(", "", false);
    agree("a\\|b", "a|b", true);
    agree("a\\|b", "a", false);
}

#[test]
fn non_ascii_characters() {
    agree("é(ß|ü)*", "éüßü", true);
    agree("é(ß|ü)*", "eü", false);
}

#[test]
fn one_or_more_fragments_side_by_side() {
    // each `+` fragment repeats through a fresh entry state, so two of them
    // side by side cannot be re-entered through a shared state
    agree("a+b+", "abab", false);
    agree("a+b+", "aabb", true);
    agree("a+b+", "ab", true);
    agree("a+b+", "ba", false);
    agree("(a+b?)+c", "abaac", true);
    agree("(a+b?)+c", "bac", false);
}

#[test]
fn nfa_try_from_reports_parse_errors() {
    assert!(matches!(NFAutomata::try_from("(a"), Err(LexError::MissingClosingParenthesis(0, _))));
    assert!(matches!(DFAutomata::try_from("a)"), Err(LexError::MissingOpeningParenthesis(1, _))));
    assert!(matches!(DFAutomata::try_from("*a"), Err(LexError::MissingArgument(0, _))));
}

#[test]
fn minimizing_empty_language_gives_one_state() {
    let d = DFAOptimizer::optimize(vec![(0, 'a', 1), (1, 'b', 0)], vec![], 1, vec!['a', 'b']);
    assert_eq!(d.last_state(), 0);
    assert!(d.transitions().is_empty());
    assert_eq!(d.acceptance_states(), &vec![false]);
    assert!(!d.test(""));
    assert!(!d.test("ab"));
}

#[test]
fn minimizing_keeps_language_and_never_grows() {
    for pattern in ["a(a|b)*a(a|b)", "(a|b)*abb", "a*b*", "(ab|ba)*", "", "a?(b|c)+"] {
        let tree = LexTree::try_from(pattern).unwrap();
        let direct = DFAutomata::unoptimized_from(&tree);
        let once = direct.minimize();
        let twice = once.minimize();
        assert!(once.last_state() <= direct.last_state());
        assert_eq!(twice.last_state(), once.last_state());
        for w in words(&['a', 'b', 'c'], 5) {
            assert_eq!(once.test(&w), direct.test(&w));
            assert_eq!(twice.test(&w), once.test(&w));
        }
    }
}

#[test]
fn unreachable_acceptance_gives_empty_language() {
    let d = DFAutomata::from_nfa(NFAutomata::try_from("a").unwrap());
    assert!(d.test("a"));
    let dead = DFAOptimizer::optimize(vec![(0, 'a', 0)], vec![1], 1, vec!['a']);
    assert_eq!(dead.last_state(), 0);
    assert!(dead.transitions().is_empty());
    assert!(!dead.test(""));
    assert!(!dead.test("aaa"));
}

/// Every word over `alphabet` of length at most `max`.
fn words(alphabet: &[char], max: usize) -> Vec<String> {
    let mut all = vec![String::new()];
    let mut last = vec![String::new()];
    for _ in 0..max {
        let mut next = Vec::new();
        for w in &last {
            for c in alphabet {
                let mut v = w.clone();
                v.push(*c);
                next.push(v);
            }
        }
        all.extend(next.iter().cloned());
        last = next;
    }
    all
}

/// Matches by trying every split: the language of the tree, directly.
fn matches(t: &LexTree, w: &[char]) -> bool {
    match t {
        LexTree::Leaf { value: Symbol::Epsilon } => w.is_empty(),
        LexTree::Leaf { value: Symbol::Character(c) } => w.len() == 1 && w[0] == *c,
        LexTree::Binary { value: lexer::BinaryOperator::Or, left_child, right_child } => {
            matches(left_child, w) || matches(right_child, w)
        },
        LexTree::Binary { value: lexer::BinaryOperator::Concat, left_child, right_child } => {
            (0..=w.len()).any(|i| matches(left_child, &w[..i]) && matches(right_child, &w[i..]))
        },
        LexTree::Unary { value: UnaryOperator::Maybe, child } => w.is_empty() || matches(child, w),
        LexTree::Unary { value: UnaryOperator::Kleene, child } => star(child, w),
        LexTree::Unary { value: UnaryOperator::Many, child } => {
            (0..=w.len()).any(|i| matches(child, &w[..i]) && star(child, &w[i..]))
        },
    }
}

fn star(t: &LexTree, w: &[char]) -> bool {
    w.is_empty() || (1..=w.len()).any(|i| matches(t, &w[..i]) && star(t, &w[i..]))
}

#[test]
fn round_trip_matches_enumeration() {
    let patterns = [
        "a(a|b)*a(a|b)",
        "(a|b)*abb",
        "a*b*",
        "(ab|ba)*",
        "a?b",
        "(a|ε)b+",
        "((a|b)(a|b))*",
        "a+b+",
        "(a*|b*)a",
        "",
    ];
    for pattern in patterns {
        let tree = LexTree::try_from(pattern).unwrap();
        let direct = DFAutomata::unoptimized_from(&tree);
        let minimal = DFAutomata::from(&tree);
        for w in words(&['a', 'b'], 6) {
            let chars: Vec<char> = w.chars().collect();
            let expected = matches(&tree, &chars);
            assert_eq!(direct.test(&w), expected, "{pattern} on {w:?}");
            assert_eq!(minimal.test(&w), expected, "{pattern} on {w:?}");
        }
    }
}

#[test]
fn nfa_and_subset_dfa_agree_on_every_word() {
    let patterns = ["a(a|b)*a(a|b)", "(a|b)*abb", "a*b*", "a?b", "a+b+", "(a?b+)*a", ""];
    for pattern in patterns {
        let nfa = NFAutomata::try_from(pattern).unwrap();
        let dfa = DFAutomata::from_nfa(NFAutomata::try_from(pattern).unwrap());
        for w in words(&['a', 'b'], 6) {
            assert_eq!(nfa.test(&w), dfa.test(&w), "{pattern} on {w:?}");
        }
    }
}

#[test]
fn thompson_matches_enumeration() {
    let patterns = ["a(a|b)*a(a|b)", "(a|b)*abb", "a*b*", "(ab|ba)*", "((a|b)(a|b))*", "a+b+", "(a?b+)*a", "(a+|b)+b?"];
    for pattern in patterns {
        let tree = LexTree::try_from(pattern).unwrap();
        let nfa = NFAutomata::from(&tree);
        for w in words(&['a', 'b'], 6) {
            let chars: Vec<char> = w.chars().collect();
            assert_eq!(nfa.test(&w), matches(&tree, &chars), "{pattern} on {w:?}");
        }
    }
}

#[test]
fn nfa_structure_of_single_character() {
    let nfa = NFAutomata::try_from("a").unwrap();
    assert_eq!(nfa.acceptance_state(), 1);
    assert_eq!(nfa.last_state(), 1);
    assert_eq!(
        nfa.transitions(),
        &vec![(0, Symbol::Epsilon, 0), (1, Symbol::Epsilon, 1), (0, Symbol::Character('a'), 1)]
    );
}

#[test]
fn minimizing_again_can_merge_states_split_by_a_dead_state() {
    // 0 and 3 both accept c*a, but 0 has a transition on b into the dead
    // state 2 where 3 has none; the two are split before the dead block is
    // dropped, and only a second minimization merges them
    let d = DFAOptimizer::optimize(
        vec![(0, 'a', 1), (0, 'b', 2), (0, 'c', 3), (2, 'a', 2), (3, 'a', 1), (3, 'c', 3)],
        vec![1],
        3,
        vec!['a', 'b', 'c'],
    );
    assert_eq!(d.last_state(), 2);
    let again = d.minimize();
    assert_eq!(again.last_state(), 1);
    for w in ["a", "ca", "cca", "b", "ba", "", "c"] {
        assert_eq!(again.test(w), d.test(w));
    }
}
