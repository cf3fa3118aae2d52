use calculator::lexer::TokenKind::{LParen, Literal, Minus, Plus, RParen};
use calculator::lexer::{tokenize, TokenKind};
use calculator::parser::{ASTBuilder, ASTNode, BadTokenError, Operator};
use std::collections::VecDeque;

fn lit(text: &str) -> TokenKind {
    Literal(text.to_string())
}

fn leaf(text: &str) -> Box<ASTNode> {
    Box::new(ASTNode::Leaf(text.to_string()))
}

fn branch(left: Box<ASTNode>, right: Box<ASTNode>, operator: Operator) -> Box<ASTNode> {
    Box::new(ASTNode::new_branch(left, right, operator))
}

fn build(line: &str) -> Result<ASTNode, BadTokenError> {
    ASTBuilder::new(tokenize(line).unwrap()).build_ast()
}

#[test]
fn parser_always_passes() {
    assert_eq!(2, 1 + 1);
}

#[test]
fn eval_always_passes() {
    assert_eq!(2, 1 + 1);
}

#[test]
fn test_single_expr() {
    let ast = ASTBuilder::new(VecDeque::from([lit("3"), Plus, lit("2")]))
        .build_ast()
        .unwrap();
    assert_eq!(
        ast,
        ASTNode::Branch {
            left: leaf("3"),
            right: leaf("2"),
            operator: Operator::Add
        }
    )
}

#[test]
fn test_multiple_expr() {
    let ast = ASTBuilder::new(VecDeque::from([
        lit("3"),
        Plus,
        lit("2"),
        TokenKind::Mul,
        lit("4"),
    ]))
    .build_ast()
    .unwrap();
    assert_eq!(
        ast,
        ASTNode::Branch {
            left: leaf("3"),
            right: Box::new(ASTNode::Branch {
                left: leaf("2"),
                right: leaf("4"),
                operator: Operator::Mul
            }),
            operator: Operator::Add
        }
    )
}

#[test]
fn test_parens() {
    let ast = ASTBuilder::new(VecDeque::from([
        lit("3"),
        TokenKind::Mul,
        LParen,
        lit("2"),
        Plus,
        lit("4"),
        RParen,
    ]))
    .build_ast()
    .unwrap();
    assert_eq!(
        ast,
        ASTNode::Branch {
            left: leaf("3"),
            right: Box::new(ASTNode::Branch {
                left: leaf("2"),
                right: leaf("4"),
                operator: Operator::Add
            }),
            operator: Operator::Mul
        }
    )
}

#[test]
fn single_operator_is_malformed() {
    for t in [Plus, Minus, TokenKind::Mul, TokenKind::Div, TokenKind::Exp] {
        assert_eq!(ASTBuilder::new(VecDeque::from([t])).build_ast(), Err(BadTokenError));
    }
}

#[test]
fn unmatched_close_paren_is_malformed() {
    assert_eq!(build(")"), Err(BadTokenError));
    assert_eq!(build("1 + 2)"), Err(BadTokenError));
    assert_eq!(build("(1) + 2) * (3"), Err(BadTokenError));
}

#[test]
fn unclosed_open_paren_is_malformed() {
    assert_eq!(build("(1 + 2"), Err(BadTokenError));
    assert_eq!(build("1 + 2 (3"), Err(BadTokenError));
    assert_eq!(build("("), Err(BadTokenError));
}

#[test]
fn other_malformed_sequences() {
    assert_eq!(build(""), Err(BadTokenError));
    assert_eq!(build("()"), Err(BadTokenError));
    assert_eq!(build("1 2"), Err(BadTokenError));
    assert_eq!(build("1 + * 2"), Err(BadTokenError));
    assert_eq!(build("1 +"), Err(BadTokenError));
}

#[test]
fn higher_tier_binds_tighter_after_subtract() {
    let ast = build("3 - 2 * 4").unwrap();
    assert_eq!(ast, *branch(leaf("3"), branch(leaf("2"), leaf("4"), Operator::Mul), Operator::Sub));
}

#[test]
fn one_tier_groups_left_to_right() {
    let ast = build("8 - 3 + 2").unwrap();
    assert_eq!(ast, *branch(branch(leaf("8"), leaf("3"), Operator::Sub), leaf("2"), Operator::Add));
    let ast = build("2 ^ 3 ^ 2").unwrap();
    assert_eq!(ast, *branch(branch(leaf("2"), leaf("3"), Operator::Exp), leaf("2"), Operator::Exp));
    let ast = build("8 / 4 * 2").unwrap();
    assert_eq!(ast, *branch(branch(leaf("8"), leaf("4"), Operator::Div), leaf("2"), Operator::Mul));
}

#[test]
fn exponent_binds_tightest() {
    let ast = build("1 + 2 * 3 ^ 2").unwrap();
    let power = branch(leaf("3"), leaf("2"), Operator::Exp);
    let product = branch(leaf("2"), power, Operator::Mul);
    assert_eq!(ast, *branch(leaf("1"), product, Operator::Add));
}

#[test]
fn lower_tier_folds_the_whole_stack() {
    let ast = build("2 ^ 3 * 4 - 5").unwrap();
    let power = branch(leaf("2"), leaf("3"), Operator::Exp);
    let product = branch(power, leaf("4"), Operator::Mul);
    assert_eq!(ast, *branch(product, leaf("5"), Operator::Sub));
}

#[test]
fn nested_groups() {
    let ast = build("((7))").unwrap();
    assert_eq!(ast, ASTNode::Leaf("7".to_string()));
    let ast = build("(1 + 2) * (3 - (4 / 5))").unwrap();
    let sum = branch(leaf("1"), leaf("2"), Operator::Add);
    let quotient = branch(leaf("4"), leaf("5"), Operator::Div);
    let difference = branch(leaf("3"), quotient, Operator::Sub);
    assert_eq!(ast, *branch(sum, difference, Operator::Mul));
}

#[test]
fn precedence_tiers() {
    assert_eq!(Operator::Lparen.precedence(), 0);
    assert_eq!(Operator::RParen.precedence(), 0);
    assert_eq!(Operator::Add.precedence(), 1);
    assert_eq!(Operator::Sub.precedence(), 1);
    assert_eq!(Operator::Mul.precedence(), 2);
    assert_eq!(Operator::Div.precedence(), 2);
    assert_eq!(Operator::Exp.precedence(), 3);
}

#[test]
fn operator_tokens() {
    assert_eq!(Operator::from_token(&Plus), Some(Operator::Add));
    assert_eq!(Operator::from_token(&Minus), Some(Operator::Sub));
    assert_eq!(Operator::from_token(&TokenKind::Mul), Some(Operator::Mul));
    assert_eq!(Operator::from_token(&TokenKind::Div), Some(Operator::Div));
    assert_eq!(Operator::from_token(&TokenKind::Exp), Some(Operator::Exp));
    assert_eq!(Operator::from_token(&LParen), None);
    assert_eq!(Operator::from_token(&lit("1")), None);
}
