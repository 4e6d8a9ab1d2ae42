use shapesql::ast::BinaryOperator;
use shapesql::hir::{structurally_equal, Expression, ExpressionKind, LiteralValue};
use shapesql::Span;

fn span() -> Span {
    Span { start: 0, end: 0 }
}

fn integer(value: &str) -> Expression<(), ()> {
    Expression::new(
        ExpressionKind::Literal(LiteralValue::Integer(value.into())),
        (),
        span(),
    )
}

#[test]
fn structural_equality_ignores_redundant_parentheses() {
    let plain = integer("1");
    let parenthesized = Expression::new(
        ExpressionKind::Parenthesized(Box::new(integer("1"))),
        (),
        span(),
    );

    assert!(structurally_equal(&plain, &parenthesized));
}

#[test]
fn structural_equality_preserves_binary_operand_roles() {
    let left = Expression::new(
        ExpressionKind::Binary {
            left: Box::new(integer("1")),
            operator: BinaryOperator::Add,
            right: Box::new(integer("2")),
        },
        (),
        span(),
    );
    let right = Expression::new(
        ExpressionKind::Binary {
            left: Box::new(integer("2")),
            operator: BinaryOperator::Add,
            right: Box::new(integer("1")),
        },
        (),
        span(),
    );

    assert!(!structurally_equal(&left, &right));
}
