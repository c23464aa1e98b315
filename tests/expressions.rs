use zwreec::ast::ASTNode;
use zwreec::expressionparser::{is_ranking_not_higher, operator_rank, ExprError, ExpressionParser};
use zwreec::token::{Operator, Token, TokenKind};

fn tok(kind: TokenKind, payload: &str) -> Token {
    Token::new(kind, payload.to_string(), 1, 1)
}

fn leaf(kind: TokenKind, payload: &str) -> ASTNode {
    ASTNode::leaf(tok(kind, payload))
}

/// The tree as text: `payload` for a leaf, `payload(child, ...)` otherwise.
fn show(n: &ASTNode) -> String {
    if n.childs.is_empty() {
        n.category.payload.clone()
    } else {
        let kids: Vec<String> = n.childs.iter().map(show).collect();
        format!("{}({})", n.category.payload, kids.join(", "))
    }
}

fn normalized(flat: Vec<ASTNode>) -> Result<String, ExprError> {
    ExpressionParser::normalize(flat).map(|n| show(&n))
}

#[test]
fn multiplication_binds_tighter_than_addition() {
    let flat = vec![
        leaf(TokenKind::Int, "1"),
        leaf(TokenKind::NumOp(Operator::Add), "+"),
        leaf(TokenKind::Int, "2"),
        leaf(TokenKind::NumOp(Operator::Mul), "*"),
        leaf(TokenKind::Int, "3"),
    ];
    let root = ExpressionParser::normalize(flat).unwrap();
    assert_eq!(root.category.kind, TokenKind::NumOp(Operator::Add));
    assert_eq!(root.childs.len(), 2);
    assert_eq!(root.childs[0].category.payload, "1");
    assert_eq!(root.childs[1].category.kind, TokenKind::NumOp(Operator::Mul));
    assert_eq!(show(&root), "+(1, *(2, 3))");
}

#[test]
fn chained_not_nests() {
    let flat = vec![
        leaf(TokenKind::LogOp(Operator::Not), "not"),
        leaf(TokenKind::LogOp(Operator::Not), "not"),
        leaf(TokenKind::Boolean, "true"),
    ];
    assert_eq!(normalized(flat), Ok("not(not(true))".to_string()));
}

#[test]
fn comparison_binds_tighter_than_and() {
    let flat = vec![
        leaf(TokenKind::Variable, "a"),
        leaf(TokenKind::CompOp(Operator::Equal), "=="),
        leaf(TokenKind::Int, "1"),
        leaf(TokenKind::LogOp(Operator::And), "and"),
        leaf(TokenKind::Variable, "b"),
    ];
    assert_eq!(normalized(flat), Ok("and(==(a, 1), b)".to_string()));
}

#[test]
fn equal_ranks_group_to_the_left() {
    let flat = vec![
        leaf(TokenKind::Int, "8"),
        leaf(TokenKind::NumOp(Operator::Sub), "-"),
        leaf(TokenKind::Int, "3"),
        leaf(TokenKind::NumOp(Operator::Sub), "-"),
        leaf(TokenKind::Int, "2"),
    ];
    assert_eq!(normalized(flat), Ok("-(-(8, 3), 2)".to_string()));
}

#[test]
fn or_binds_loosest() {
    let flat = vec![
        leaf(TokenKind::Variable, "a"),
        leaf(TokenKind::LogOp(Operator::Or), "or"),
        leaf(TokenKind::Variable, "b"),
        leaf(TokenKind::LogOp(Operator::And), "and"),
        leaf(TokenKind::Variable, "c"),
    ];
    assert_eq!(normalized(flat), Ok("or(a, and(b, c))".to_string()));
}

#[test]
fn unary_minus_applies_to_its_operand() {
    let flat = vec![
        leaf(TokenKind::UnaryMinus, "_"),
        leaf(TokenKind::Int, "4"),
        leaf(TokenKind::NumOp(Operator::Mod), "%"),
        leaf(TokenKind::Int, "3"),
    ];
    assert_eq!(normalized(flat), Ok("%(_(4), 3)".to_string()));
}

#[test]
fn nested_expression_is_one_operand() {
    let mut inner = leaf(TokenKind::Expression, "()");
    inner.childs.push(leaf(TokenKind::Int, "1"));
    inner.childs.push(leaf(TokenKind::NumOp(Operator::Add), "+"));
    inner.childs.push(leaf(TokenKind::Int, "2"));
    let flat = vec![inner, leaf(TokenKind::NumOp(Operator::Mul), "*"), leaf(TokenKind::Int, "3")];
    assert_eq!(normalized(flat), Ok("*(+(1, 2), 3)".to_string()));
}

#[test]
fn function_operand_keeps_its_arguments() {
    let mut call = leaf(TokenKind::Function, "random");
    call.childs.push(leaf(TokenKind::Int, "6"));
    let flat = vec![call, leaf(TokenKind::NumOp(Operator::Add), "+"), leaf(TokenKind::Int, "1")];
    assert_eq!(normalized(flat), Ok("+(random(6), 1)".to_string()));
}

#[test]
fn single_operand_is_its_own_root() {
    assert_eq!(normalized(vec![leaf(TokenKind::Str, "hi")]), Ok("hi".to_string()));
}

#[test]
fn binary_operator_without_right_operand_fails() {
    let flat = vec![leaf(TokenKind::Int, "1"), leaf(TokenKind::NumOp(Operator::Add), "+")];
    assert_eq!(normalized(flat), Err(ExprError::MissingOperand));
}

#[test]
fn two_operands_without_operator_are_ambiguous() {
    let flat = vec![leaf(TokenKind::Int, "1"), leaf(TokenKind::Int, "2")];
    assert_eq!(normalized(flat), Err(ExprError::AmbiguousRoot(2)));
}

#[test]
fn empty_expression_is_ambiguous() {
    assert_eq!(normalized(Vec::new()), Err(ExprError::AmbiguousRoot(0)));
}

#[test]
fn lone_unary_operator_fails() {
    let flat = vec![leaf(TokenKind::LogOp(Operator::Not), "not")];
    assert_eq!(normalized(flat), Err(ExprError::AmbiguousRoot(0)));
}

#[test]
fn parse_replaces_children_with_root() {
    let mut node = leaf(TokenKind::MacroPrint, "print");
    node.childs.push(leaf(TokenKind::Int, "2"));
    node.childs.push(leaf(TokenKind::NumOp(Operator::Mul), "*"));
    node.childs.push(leaf(TokenKind::Int, "5"));
    assert_eq!(ExpressionParser::parse(&mut node), Ok(()));
    assert_eq!(node.childs.len(), 1);
    assert_eq!(show(&node), "print(*(2, 5))");
}

#[test]
fn operator_ranks() {
    assert_eq!(operator_rank(Operator::Or), 1);
    assert_eq!(operator_rank(Operator::And), 2);
    assert_eq!(operator_rank(Operator::LessEqual), 3);
    assert_eq!(operator_rank(Operator::Sub), 4);
    assert_eq!(operator_rank(Operator::Div), 5);
    assert_eq!(operator_rank(Operator::Not), 6);
}

#[test]
fn ranking_comparison() {
    let plus = tok(TokenKind::NumOp(Operator::Add), "+");
    let times = tok(TokenKind::NumOp(Operator::Mul), "*");
    let not = tok(TokenKind::LogOp(Operator::Not), "not");
    let minus = tok(TokenKind::UnaryMinus, "_");
    assert!(is_ranking_not_higher(&times, &plus));
    assert!(!is_ranking_not_higher(&plus, &times));
    assert!(is_ranking_not_higher(&plus, &plus));
    assert!(!is_ranking_not_higher(&not, &not));
    assert!(!is_ranking_not_higher(&not, &minus));
    assert!(is_ranking_not_higher(&not, &plus));
}

#[test]
fn binary_operator_without_operands_fails() {
    let flat = vec![
        leaf(TokenKind::NumOp(Operator::Mul), "*"),
        leaf(TokenKind::NumOp(Operator::Add), "+"),
        leaf(TokenKind::Int, "1"),
        leaf(TokenKind::Int, "2"),
        leaf(TokenKind::Int, "3"),
    ];
    assert_eq!(normalized(flat), Err(ExprError::MissingOperand));
}
