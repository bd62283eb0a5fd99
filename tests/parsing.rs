use lexer::BinaryOperator::{Concat, Or};
use lexer::Operator::{Binary, CloseParenthesis, OpenParenthesis, Unary};
use lexer::Symbol::{Character, Epsilon};
use lexer::UnaryOperator::{Kleene, Many, Maybe};
use lexer::{to_postfix, tokenize_regular_expression, BinaryOperator, LexError, LexToken, LexTree, Symbol, UnaryOperator};

#[test]
fn tokenize_tokenization() {
    let actual = tokenize_regular_expression(r"abc*\*|\|(d)\(\)").unwrap();
    let expected = vec![
        LexToken::Symbol(Character('a')),
        LexToken::Operator(Binary(Concat)),
        LexToken::Symbol(Character('b')),
        LexToken::Operator(Binary(Concat)),
        LexToken::Symbol(Character('c')),
        LexToken::Operator(Unary(Kleene)),
        LexToken::Operator(Binary(Concat)),
        LexToken::Symbol(Character('*')),
        LexToken::Operator(Binary(Or)),
        LexToken::Symbol(Character('|')),
        LexToken::Operator(Binary(Concat)),
        LexToken::Operator(OpenParenthesis),
        LexToken::Symbol(Character('d')),
        LexToken::Operator(CloseParenthesis),
        LexToken::Operator(Binary(Concat)),
        LexToken::Symbol(Character('(')),
        LexToken::Operator(Binary(Concat)),
        LexToken::Symbol(Character(')')),
    ];

    assert_eq!(expected, actual);
}

#[test]
fn tokenize_postfix() {
    let input = tokenize_regular_expression("(a|b)(c|d)*e").unwrap();
    let actual = to_postfix(input);
    let expected = vec![
        LexToken::Symbol(Character('a')),
        LexToken::Symbol(Character('b')),
        LexToken::Operator(Binary(Or)),
        LexToken::Symbol(Character('c')),
        LexToken::Symbol(Character('d')),
        LexToken::Operator(Binary(Or)),
        LexToken::Operator(Unary(Kleene)),
        LexToken::Operator(Binary(Concat)),
        LexToken::Symbol(Character('e')),
        LexToken::Operator(Binary(Concat)),
    ];

    assert_eq!(expected, actual);
}

#[test]
fn lexing_tree_binary_tree() {
    let expected = LexTree::Binary {
        value: BinaryOperator::Or,
        left_child: Box::from(LexTree::Leaf { value: Symbol::Character('a') }),
        right_child: Box::from(LexTree::Leaf { value: Symbol::Character('b') }),
    };

    assert_eq!(expected, LexTree::try_from("a|b").unwrap())
}

#[test]
fn lexing_tree_unary_tree() {
    let expected = LexTree::Unary {
        value: UnaryOperator::Kleene,
        child: Box::from(LexTree::Leaf { value: Symbol::Character('a') }),
    };

    assert_eq!(expected, LexTree::try_from("a*").unwrap())
}

#[test]
fn lexing_tree_complex_tree() {
    let expected = LexTree::Binary {
        value: BinaryOperator::Concat,
        right_child: Box::from(LexTree::Leaf { value: Symbol::Character('c') }),
        left_child: Box::from(LexTree::Binary {
            value: BinaryOperator::Or,
            left_child: Box::from(LexTree::Unary {
                value: UnaryOperator::Kleene,
                child: Box::from(LexTree::Leaf { value: Symbol::Character('a') }),
            }),
            right_child: Box::from(LexTree::Unary {
                value: UnaryOperator::Kleene,
                child: Box::from(LexTree::Leaf { value: Symbol::Character('b') }),
            }),
        }),
    };

    assert_eq!(expected, LexTree::try_from("(a*|b*)c").unwrap())
}

#[test]
fn alternation_in_group_needs_no_concat() {
    let tokens = tokenize_regular_expression("(a|b)").unwrap();
    assert!(!tokens.contains(&LexToken::Operator(Binary(Concat))));
    assert_eq!(
        tokens,
        vec![
            LexToken::Operator(OpenParenthesis),
            LexToken::Symbol(Character('a')),
            LexToken::Operator(Binary(Or)),
            LexToken::Symbol(Character('b')),
            LexToken::Operator(CloseParenthesis),
        ]
    );
}

#[test]
fn juxtaposition_inserts_one_concat() {
    let tokens = tokenize_regular_expression("ab").unwrap();
    assert_eq!(
        tokens,
        vec![
            LexToken::Symbol(Character('a')),
            LexToken::Operator(Binary(Concat)),
            LexToken::Symbol(Character('b')),
        ]
    );
}

#[test]
fn optional_and_one_or_more_tokens() {
    let tokens = tokenize_regular_expression("a?b+").unwrap();
    assert_eq!(
        tokens,
        vec![
            LexToken::Symbol(Character('a')),
            LexToken::Operator(Unary(Maybe)),
            LexToken::Operator(Binary(Concat)),
            LexToken::Symbol(Character('b')),
            LexToken::Operator(Unary(Many)),
        ]
    );
}

#[test]
fn epsilon_glyph_and_empty_group() {
    assert_eq!(tokenize_regular_expression("ε").unwrap(), vec![LexToken::Symbol(Epsilon)]);
    assert_eq!(
        tokenize_regular_expression("()").unwrap(),
        vec![
            LexToken::Operator(OpenParenthesis),
            LexToken::Symbol(Epsilon),
            LexToken::Operator(CloseParenthesis),
        ]
    );
}

#[test]
fn empty_pattern_is_epsilon_leaf() {
    assert_eq!(tokenize_regular_expression("").unwrap(), vec![LexToken::Symbol(Epsilon)]);
    assert_eq!(LexTree::try_from("").unwrap(), LexTree::Leaf { value: Symbol::Epsilon });
}

#[test]
fn precedence_of_alternation_and_concatenation() {
    let postfix = to_postfix(tokenize_regular_expression("a|bc").unwrap());
    assert_eq!(
        postfix,
        vec![
            LexToken::Symbol(Character('a')),
            LexToken::Symbol(Character('b')),
            LexToken::Symbol(Character('c')),
            LexToken::Operator(Binary(Concat)),
            LexToken::Operator(Binary(Or)),
        ]
    );
}

#[test]
fn unclosed_parenthesis_is_rejected() {
    let err = LexTree::try_from("(a").unwrap_err();
    assert_eq!(err, LexError::MissingClosingParenthesis(0, "(a".to_string()));
    assert_eq!(err.position(), 0);
}

#[test]
fn unopened_parenthesis_is_rejected() {
    let err = LexTree::try_from("a)").unwrap_err();
    assert_eq!(err, LexError::MissingOpeningParenthesis(1, "a)".to_string()));
    assert_eq!(err.position(), 1);
}

#[test]
fn leading_operator_lacks_argument() {
    assert_eq!(LexTree::try_from("*a").unwrap_err(), LexError::MissingArgument(0, "*a".to_string()));
    assert_eq!(LexTree::try_from("|a").unwrap_err(), LexError::MissingArgument(0, "|a".to_string()));
}

#[test]
fn operator_without_operand_is_rejected() {
    assert_eq!(LexTree::try_from("a|").unwrap_err(), LexError::MissingArgument(1, "a|".to_string()));
    assert_eq!(LexTree::try_from("a|*").unwrap_err(), LexError::MissingArgument(2, "a|*".to_string()));
    assert_eq!(LexTree::try_from("(*)").unwrap_err(), LexError::MissingArgument(1, "(*)".to_string()));
    assert_eq!(LexTree::try_from("(a|)").unwrap_err(), LexError::MissingArgument(3, "(a|)".to_string()));
}

#[test]
fn trailing_escape_lacks_argument() {
    assert_eq!(LexTree::try_from("ab\\").unwrap_err(), LexError::MissingArgument(2, "ab\\".to_string()));
}

#[test]
fn innermost_unclosed_parenthesis_is_reported() {
    assert_eq!(
        LexTree::try_from("(a(b").unwrap_err(),
        LexError::MissingClosingParenthesis(2, "(a(b".to_string())
    );
}

#[test]
fn escaped_operator_is_a_literal() {
    assert_eq!(
        LexTree::try_from("\\*").unwrap(),
        LexTree::Leaf { value: Symbol::Character('*') }
    );
}

#[test]
fn operator_order() {
    assert_eq!(lexer::Operator::Binary(Or).order(), 1);
    assert_eq!(lexer::Operator::Binary(Concat).order(), 2);
    assert_eq!(lexer::Operator::Unary(Kleene).order(), 3);
    assert_eq!(lexer::Operator::Unary(Maybe).order(), 3);
    assert_eq!(lexer::Operator::OpenParenthesis.order(), 0);
}
