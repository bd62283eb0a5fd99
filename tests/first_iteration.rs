use lexer::BinaryOperator::{Concat, Or};
use lexer::Operator::{Binary, CloseParenthesis, OpenParenthesis, Unary};
use lexer::Symbol::Character;
use lexer::UnaryOperator::Kleene;
use lexer::{to_postfix, tokenize_regular_expression, Automata, BinaryOperator, LexToken, LexTree, NFAutomata, Symbol, UnaryOperator};

#[test]
fn simple_expression() {
    let automata = NFAutomata::try_from("a").unwrap();
    assert!(automata.test("a"))
}

#[test]
fn binary_tree() {
    let expected = LexTree::Binary {
        value: BinaryOperator::Or,
        left_child: Box::from(LexTree::Leaf { value: Symbol::Character('a') }),
        right_child: Box::from(LexTree::Leaf { value: Symbol::Character('b') }),
    };

    assert_eq!(expected, LexTree::try_from("a|b").unwrap())
}

#[test]
fn unary_tree() {
    let expected = LexTree::Unary {
        value: UnaryOperator::Kleene,
        child: Box::from(LexTree::Leaf { value: Symbol::Character('a') }),
    };

    assert_eq!(expected, LexTree::try_from("a*").unwrap())
}

#[test]
fn complex_tree() {
    let expected = LexTree::Binary {
        value: BinaryOperator::Concat,
        right_child: Box::from(LexTree::Leaf { value: Symbol::Character('c') }),
        left_child: Box::from(LexTree::Binary {
            value: BinaryOperator::Or,
            left_child: Box::from(LexTree::Unary {
                value: UnaryOperator::Kleene,
                child: Box::from(LexTree::Leaf { value: Symbol::Character('a') }),
            }),
            right_child: Box::from(LexTree::Unary {
                value: UnaryOperator::Kleene,
                child: Box::from(LexTree::Leaf { value: Symbol::Character('b') }),
            }),
        }),
    };

    assert_eq!(expected, LexTree::try_from("(a*|b*)c").unwrap())
}

#[test]
fn tokenization() {
    let actual = tokenize_regular_expression(r"abc*\*|\|(d)\(\)").unwrap();
    let expected = vec![
        LexToken::Symbol(Character('a')),
        LexToken::Operator(Binary(Concat)),
        LexToken::Symbol(Character('b')),
        LexToken::Operator(Binary(Concat)),
        LexToken::Symbol(Character('c')),
        LexToken::Operator(Unary(Kleene)),
        LexToken::Operator(Binary(Concat)),
        LexToken::Symbol(Character('*')),
        LexToken::Operator(Binary(Or)),
        LexToken::Symbol(Character('|')),
        LexToken::Operator(Binary(Concat)),
        LexToken::Operator(OpenParenthesis),
        LexToken::Symbol(Character('d')),
        LexToken::Operator(CloseParenthesis),
        LexToken::Operator(Binary(Concat)),
        LexToken::Symbol(Character('(')),
        LexToken::Operator(Binary(Concat)),
        LexToken::Symbol(Character(')')),
    ];

    assert_eq!(expected, actual);
}

#[test]
fn postfix() {
    let input = tokenize_regular_expression("(a|b)(c|d)*e").unwrap();
    let actual = to_postfix(input);
    let expected = vec![
        LexToken::Symbol(Character('a')),
        LexToken::Symbol(Character('b')),
        LexToken::Operator(Binary(Or)),
        LexToken::Symbol(Character('c')),
        LexToken::Symbol(Character('d')),
        LexToken::Operator(Binary(Or)),
        LexToken::Operator(Unary(Kleene)),
        LexToken::Operator(Binary(Concat)),
        LexToken::Symbol(Character('e')),
        LexToken::Operator(Binary(Concat)),
    ];

    assert_eq!(expected, actual);
}
