use neural_vault::api::{parse_logical_operator, parse_operator};
use neural_vault::models::{LogicalOperator, QueryOperator};

#[test]
fn parse_operator_accepts_every_known_word() {
    assert!(matches!(parse_operator("=="), Ok(QueryOperator::Equals)));
    assert!(matches!(parse_operator("equals"), Ok(QueryOperator::Equals)));
    assert!(matches!(parse_operator("!="), Ok(QueryOperator::NotEquals)));
    assert!(matches!(parse_operator("not_equals"), Ok(QueryOperator::NotEquals)));
    assert!(matches!(parse_operator(">"), Ok(QueryOperator::GreaterThan)));
    assert!(matches!(parse_operator("greater_than"), Ok(QueryOperator::GreaterThan)));
    assert!(matches!(parse_operator(">="), Ok(QueryOperator::GreaterThanOrEqual)));
    assert!(matches!(
        parse_operator("greater_than_or_equal"),
        Ok(QueryOperator::GreaterThanOrEqual)
    ));
    assert!(matches!(parse_operator("<"), Ok(QueryOperator::LessThan)));
    assert!(matches!(parse_operator("less_than"), Ok(QueryOperator::LessThan)));
    assert!(matches!(parse_operator("<="), Ok(QueryOperator::LessThanOrEqual)));
    assert!(matches!(parse_operator("less_than_or_equal"), Ok(QueryOperator::LessThanOrEqual)));
    assert!(matches!(parse_operator("contains"), Ok(QueryOperator::Contains)));
    assert!(matches!(parse_operator("starts_with"), Ok(QueryOperator::StartsWith)));
    assert!(matches!(parse_operator("ends_with"), Ok(QueryOperator::EndsWith)));
    assert!(matches!(parse_operator("in"), Ok(QueryOperator::In)));
    assert!(matches!(parse_operator("not_in"), Ok(QueryOperator::NotIn)));
}

#[test]
fn parse_operator_rejects_unknown_words() {
    assert!(parse_operator("~=").is_err());
    assert!(parse_operator("").is_err());
    assert!(parse_operator("EQUALS").is_err());
}

#[test]
fn parse_logical_operator_folds_ascii_case() {
    assert!(matches!(parse_logical_operator("and"), Ok(LogicalOperator::And)));
    assert!(matches!(parse_logical_operator("AND"), Ok(LogicalOperator::And)));
    assert!(matches!(parse_logical_operator("And"), Ok(LogicalOperator::And)));
    assert!(matches!(parse_logical_operator("&&"), Ok(LogicalOperator::And)));
    assert!(matches!(parse_logical_operator("or"), Ok(LogicalOperator::Or)));
    assert!(matches!(parse_logical_operator("OR"), Ok(LogicalOperator::Or)));
    assert!(matches!(parse_logical_operator("||"), Ok(LogicalOperator::Or)));
    assert!(parse_logical_operator("xor").is_err());
    assert!(parse_logical_operator("").is_err());
}
