use lexer::{LexTree, LexTreeVisualizer, NFAVisualizer, NFAutomata};

#[test]
fn nfa_diagram_of_single_character() {
    let nfa = NFAutomata::try_from("a").unwrap();
    let v = NFAVisualizer::new(&nfa);
    assert_eq!(v.mermaid(), "\n        0((0))\n        1(((1)))\n        0 -->|\"a\"| 1");
}

#[test]
fn nfa_diagram_numbers_beyond_one_digit() {
    let nfa = NFAutomata::try_from("abcdefghijk").unwrap();
    let v = NFAVisualizer::new(&nfa);
    assert!(v.mermaid().contains("\n        11(((11)))"));
    assert!(v.mermaid().contains("\n        10 -->|\"k\"| 11"));
    assert!(!v.mermaid().contains("-->|ε|"));
}

#[test]
fn nfa_diagram_draws_epsilon_edges() {
    let nfa = NFAutomata::try_from("a*").unwrap();
    let v = NFAVisualizer::new(&nfa);
    assert!(v.mermaid().contains("\n        0 -->|ε| 3"));
    assert!(v.mermaid().contains("\n        1 -->|\"a\"| 2"));
}

#[test]
fn tree_diagram_of_alternation() {
    let tree = LexTree::try_from("a|b").unwrap();
    let v = LexTreeVisualizer::new(&tree);
    assert_eq!(
        v.mermaid(),
        "\n        0((\"|\")) \n        0 --> 1 \n        1((\"a\")) \n        style 1 fill:#f9f \n        0 --> 2 \n        2((\"b\")) \n        style 2 fill:#f9f "
    );
}

#[test]
fn tree_diagram_of_epsilon() {
    let tree = LexTree::try_from("").unwrap();
    let v = LexTreeVisualizer::new(&tree);
    assert_eq!(v.mermaid(), "\n        0((\"ε\")) ");
}

#[test]
fn graph_wraps_diagram_in_page() {
    let tree = LexTree::try_from("a").unwrap();
    let page = LexTreeVisualizer::new(&tree).graph();
    assert!(page.contains("<pre class=\"mermaid\">\n      flowchart TD\n        0((\"a\")) "));
    assert!(page.contains("mermaid.initialize({ startOnLoad: true });"));
    let nfa_page = NFAVisualizer::new(&NFAutomata::try_from("a").unwrap()).graph();
    assert!(nfa_page.contains("graph LR\n        0((0))"));
}

#[test]
fn dfa_diagram_groups_characters_per_arrow() {
    let d = lexer::DFAOptimizer::optimize(vec![(0, 'a', 1), (0, 'b', 1), (1, 'a', 0)], vec![1], 1, vec!['a', 'b']);
    let v = lexer::DFAVisualizer::new(&d);
    assert_eq!(v.mermaid(), "\n        0((0))\n        1(((1)))\n        0 -->|\"a,b\"| 1\n        1 -->|\"a\"| 0");
}

#[test]
fn dfa_diagram_sorts_characters_of_an_arrow() {
    let d = lexer::DFAutomata::try_from("b|a").unwrap();
    let v = lexer::DFAVisualizer::new(&d);
    assert!(v.mermaid().contains("0 -->|\"a,b\"| 1"));
    let raw = lexer::DFAOptimizer::optimize(vec![(0, 'c', 1), (0, 'a', 1), (0, 'b', 1)], vec![1], 1, vec!['c', 'a', 'b']);
    assert!(lexer::DFAVisualizer::new(&raw).mermaid().contains("0 -->|\"a,b,c\"| 1"));
}
