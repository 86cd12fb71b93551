use calculator::classify::{
    contains_only_numbers, get_character_precedence, get_precedence, is_number, is_operator,
    parse_operator, parse_str_operator, str_is_operator, Operator,
};
use calculator::expression::{parse_expression, CalculationError};
use calculator::postfix::{flush_operator_stack, get_reverse_polish_notation};

fn check<T>(result: Result<T, CalculationError>) -> bool {
    match result {
        Ok(_) => true,
        Err(CalculationError::InvalidExpression) => false,
        Err(CalculationError::DivideByZero) => false,
    }
}

fn postfix_of(expression: &str) -> Vec<String> {
    let tokens = parse_expression(expression).unwrap();
    get_reverse_polish_notation(&tokens)
        .iter()
        .map(|t| t.to_string())
        .collect()
}

#[test]
fn test_contains_only_numbers() {
    assert_eq!(contains_only_numbers("231"), true);
    assert_eq!(contains_only_numbers("213+213"), false);
    assert_eq!(contains_only_numbers("ee22"), false);
    assert_eq!(contains_only_numbers("2"), true);
    assert_eq!(contains_only_numbers("1200"), true);
    assert_eq!(contains_only_numbers("as"), false);
}

#[test]
fn test_parse_expression() {
    assert_eq!(true, check(parse_expression("30+1.5-5.55+12x5/2")));
    assert_eq!(false, check(parse_expression("30..5+12-5x65")));
    assert_eq!(true, check(parse_expression("35.+12")));
    assert_eq!(true, check(parse_expression(".5x54")));
    assert_eq!(true, check(parse_expression("5+12x5-5/2")));
    assert_eq!(false, check(parse_expression("+534-2")));
}

#[test]
fn test_str_is_operator() {
    assert_eq!(true, str_is_operator("+"));
    assert_eq!(true, str_is_operator("-"));
    assert_eq!(true, str_is_operator("x"));
    assert_eq!(true, str_is_operator("/"));
    assert_eq!(true, str_is_operator("^"));
    assert_eq!(false, str_is_operator(" ^"));
    assert_eq!(false, str_is_operator("^ "));
    assert_eq!(false, str_is_operator(" "));
    assert_eq!(false, str_is_operator("/ "));
}

#[test]
fn numeric_literal_accepts_digits_and_one_point() {
    assert!(contains_only_numbers("0"));
    assert!(contains_only_numbers("12.5"));
    assert!(contains_only_numbers("35."));
    assert!(contains_only_numbers(".5"));
    assert!(contains_only_numbers("0123456789"));
}

#[test]
fn numeric_literal_rejects_other_text() {
    assert!(!contains_only_numbers(""));
    assert!(!contains_only_numbers("."));
    assert!(!contains_only_numbers("1.2.3"));
    assert!(!contains_only_numbers("30..5"));
    assert!(!contains_only_numbers("+5"));
    assert!(!contains_only_numbers("-5"));
    assert!(!contains_only_numbers("5-3"));
    assert!(!contains_only_numbers("1 2"));
    assert!(!contains_only_numbers("٣"));
}

#[test]
fn character_classes() {
    for c in ['0', '5', '9'] {
        assert!(is_number(&c));
    }
    for c in ['a', '.', '/', ':', ' '] {
        assert!(!is_number(&c));
    }
    for c in ['+', '-', 'x', '/', '=', '^'] {
        assert!(is_operator(&c));
    }
    for c in ['*', '.', '1', 'X', ' '] {
        assert!(!is_operator(&c));
    }
    assert!(str_is_operator("="));
    assert!(!str_is_operator(""));
    assert!(!str_is_operator("++"));
}

#[test]
fn operators_are_read() {
    assert_eq!(parse_operator(&'+'), Some(Operator::Plus));
    assert_eq!(parse_operator(&'-'), Some(Operator::Minus));
    assert_eq!(parse_operator(&'x'), Some(Operator::Multiply));
    assert_eq!(parse_operator(&'/'), Some(Operator::Divide));
    assert_eq!(parse_operator(&'^'), Some(Operator::Power));
    assert_eq!(parse_operator(&'='), None);
    assert_eq!(parse_operator(&'7'), None);
    assert_eq!(parse_str_operator("x"), Some(Operator::Multiply));
    assert_eq!(parse_str_operator("^"), Some(Operator::Power));
    assert_eq!(parse_str_operator("x "), None);
    assert_eq!(parse_str_operator(""), None);
}

#[test]
fn precedence_table() {
    assert_eq!(get_character_precedence(&'+'), 1);
    assert_eq!(get_character_precedence(&'-'), 1);
    assert_eq!(get_character_precedence(&'x'), 2);
    assert_eq!(get_character_precedence(&'/'), 2);
    assert_eq!(get_character_precedence(&'^'), 3);
    assert_eq!(get_character_precedence(&'='), 0);
    assert_eq!(get_character_precedence(&'4'), 0);
    assert_eq!(get_precedence("^"), 3);
    assert_eq!(get_precedence("x"), 2);
    assert_eq!(get_precedence("12"), 0);
    assert_eq!(get_precedence(""), 0);
}

#[test]
fn tokens_of_a_valid_expression() {
    let tokens = parse_expression("30+1.5-5.55+12x5/2").unwrap();
    assert_eq!(
        tokens,
        vec!["30", "+", "1.5", "-", "5.55", "+", "12", "x", "5", "/", "2"]
    );
    let tokens = parse_expression("35.+12").unwrap();
    assert_eq!(tokens, vec!["35.", "+", "12"]);
    let tokens = parse_expression("7").unwrap();
    assert_eq!(tokens, vec!["7"]);
}

#[test]
fn tokens_rejoin_to_the_buffer() {
    for buffer in ["30+1.5-5.55+12x5/2", "5+12x5-5/2", ".5x54", "2^3^2"] {
        let tokens = parse_expression(buffer).unwrap();
        assert_eq!(tokens.concat(), buffer);
        assert_eq!(tokens.len() % 2, 1);
    }
}

#[test]
fn leading_operator_is_rejected() {
    assert_eq!(
        parse_expression("+534-2"),
        Err(CalculationError::InvalidExpression)
    );
    assert_eq!(parse_expression("-5"), Err(CalculationError::InvalidExpression));
}

#[test]
fn double_decimal_point_is_rejected() {
    assert_eq!(
        parse_expression("30..5+12-5x65"),
        Err(CalculationError::InvalidExpression)
    );
}

#[test]
fn malformed_buffers_are_rejected() {
    for buffer in ["", "5+", "5+-3", "5++3", "x5", "12a+3", ".+1", "5 + 3", "1=2", "=5", "5="] {
        assert_eq!(
            parse_expression(buffer),
            Err(CalculationError::InvalidExpression),
            "{}",
            buffer
        );
    }
}

#[test]
fn parsing_twice_gives_the_same_result() {
    for buffer in ["5+12x5-5/2", "30..5+12-5x65", ""] {
        assert_eq!(parse_expression(buffer), parse_expression(buffer));
    }
}

#[test]
fn postfix_follows_precedence() {
    assert_eq!(
        postfix_of("5+12x5-5/2"),
        vec!["5", "12", "5", "x", "+", "5", "2", "/", "-"]
    );
    assert_eq!(
        postfix_of("30+1.5-5.55+12x5/2"),
        vec!["30", "1.5", "+", "5.55", "-", "12", "5", "x", "2", "/", "+"]
    );
    assert_eq!(postfix_of("1+2x3^4"), vec!["1", "2", "3", "4", "^", "x", "+"]);
    assert_eq!(postfix_of("7"), vec!["7"]);
}

#[test]
fn equal_precedence_groups_from_the_left() {
    assert_eq!(postfix_of("2^3^2"), vec!["2", "3", "^", "2", "^"]);
    assert_eq!(postfix_of("8-3-1"), vec!["8", "3", "-", "1", "-"]);
    assert_eq!(postfix_of("8/4x2"), vec!["8", "4", "/", "2", "x"]);
}

#[test]
fn flush_moves_the_stronger_operators() {
    let stack = vec!["+", "x", "^"];
    let mut output = vec!["1"];
    let count = flush_operator_stack(&mut output, &stack, "x");
    assert_eq!(count, 2);
    assert_eq!(output, vec!["1", "^", "x"]);

    let mut output = vec![];
    let count = flush_operator_stack(&mut output, &stack, "^");
    assert_eq!(count, 1);
    assert_eq!(output, vec!["^"]);

    let stack = vec!["^", "+"];
    let mut output: Vec<&str> = vec![];
    let count = flush_operator_stack(&mut output, &stack, "x");
    assert_eq!(count, 0);
    assert!(output.is_empty());
}
