use exprlang::parser::Interpreter;
use exprlang::value::{ErrorKind, Value};

fn eval(src: &str) -> Result<Value, exprlang::value::EvalError> {
    let mut it = Interpreter::new(String::from(src));
    it.parse()
}

fn eval_number(src: &str) -> i64 {
    match eval(src) {
        Ok(Value::Number(n)) => n,
        _ => panic!("expected a number"),
    }
}

fn eval_text(src: &str) -> String {
    match eval(src) {
        Ok(Value::Text(s)) => s,
        _ => panic!("expected a text"),
    }
}

fn eval_err_kind(src: &str) -> ErrorKind {
    match eval(src) {
        Err(e) => e.kind,
        Ok(_) => panic!("expected an error"),
    }
}

#[test]
fn multiplication_binds_tighter_than_addition() {
    assert_eq!(eval_number("3 + 4 * 2"), 11);
}

#[test]
fn power_evaluates_left_to_right() {
    assert_eq!(eval_number("2 ^ 3 ^ 2"), 64);
}

#[test]
fn concatenates_texts() {
    assert_eq!(eval_text("\"ab\" + \"cd\""), "abcd");
}

#[test]
fn mixed_plus_is_type_mismatch_not_panic() {
    assert_eq!(eval_err_kind("\"ab\" + 3"), ErrorKind::TypeMismatch);
}

#[test]
fn unary_minus_chains_toggle_sign() {
    assert_eq!(eval_number("--5"), 5);
    assert_eq!(eval_number("-5"), -5);
    assert_eq!(eval_number("---5"), -5);
}

#[test]
fn parenthesized_expression_evaluates() {
    assert_eq!(eval_number("(1 + 2)"), 3);
}

#[test]
fn parentheses_clear_the_variable_table() {
    let mut it = Interpreter::new(String::from("(1 + 2)"));
    it.define_variable(String::from("x"), Value::Number(7));
    assert!(it.lookup_variable(&String::from("x")).is_some());
    match it.parse() {
        Ok(Value::Number(n)) => assert_eq!(n, 3),
        _ => panic!("expected Number(3)"),
    }
    assert!(it.lookup_variable(&String::from("x")).is_none());
}

#[test]
fn undefined_variable_is_a_catchable_error() {
    let e = match eval("nowhere") {
        Err(e) => e,
        Ok(_) => panic!("expected an error"),
    };
    assert_eq!(e.kind, ErrorKind::UndefinedVariable);
    assert_eq!(e.line, 1);
}

#[test]
fn bound_variable_is_used_in_evaluation() {
    let mut it = Interpreter::new(String::from("x + 1"));
    it.define_variable(String::from("x"), Value::Number(5));
    match it.parse() {
        Ok(Value::Number(n)) => assert_eq!(n, 6),
        _ => panic!("expected Number(6)"),
    }
}

#[test]
fn rebinding_replaces_the_old_value() {
    let mut it = Interpreter::new(String::from("x"));
    it.define_variable(String::from("x"), Value::Number(1));
    it.define_variable(String::from("x"), Value::Number(2));
    match it.parse() {
        Ok(Value::Number(n)) => assert_eq!(n, 2),
        _ => panic!("expected Number(2)"),
    }
}

#[test]
fn text_variables_concatenate() {
    let mut it = Interpreter::new(String::from("s + \"!\""));
    it.define_variable(String::from("s"), Value::Text(String::from("hi")));
    match it.parse() {
        Ok(Value::Text(s)) => assert_eq!(s, "hi!"),
        _ => panic!("expected Text"),
    }
}

#[test]
fn subtraction_division_remainder() {
    assert_eq!(eval_number("10 - 3 - 2"), 5);
    assert_eq!(eval_number("7 / 2"), 3);
    assert_eq!(eval_number("7 % 3"), 1);
}

#[test]
fn division_truncates_toward_zero() {
    assert_eq!(eval_number("-7 / 2"), -3);
}

#[test]
fn division_by_zero_is_reported() {
    assert_eq!(eval_err_kind("1 / 0"), ErrorKind::DivisionByZero);
    assert_eq!(eval_err_kind("1 % 0"), ErrorKind::DivisionByZero);
}

#[test]
fn fractional_literal_is_a_number_format_error() {
    assert_eq!(eval_err_kind("1.5 + 1"), ErrorKind::NumberFormat);
}

#[test]
fn overlong_literal_is_a_number_format_error() {
    assert_eq!(eval_err_kind("99999999999999999999"), ErrorKind::NumberFormat);
}

#[test]
fn addition_overflow_is_reported() {
    assert_eq!(eval_err_kind("9223372036854775807 + 1"), ErrorKind::Overflow);
}

#[test]
fn power_overflow_is_reported() {
    assert_eq!(eval_err_kind("10 ^ 19"), ErrorKind::Overflow);
}

#[test]
fn negative_exponent_is_reported() {
    assert_eq!(eval_err_kind("2 ^ -1"), ErrorKind::NegativeExponent);
}

#[test]
fn exponent_zero_yields_one() {
    assert_eq!(eval_number("5 ^ 0"), 1);
}

#[test]
fn missing_closing_parenthesis_is_a_syntax_error() {
    assert_eq!(eval_err_kind("(1 + 2"), ErrorKind::SyntaxError);
}

#[test]
fn empty_input_is_a_syntax_error() {
    assert_eq!(eval_err_kind(""), ErrorKind::SyntaxError);
}

#[test]
fn minus_before_parenthesized_expression() {
    assert_eq!(eval_number("-(1 + 2)"), -3);
}

#[test]
fn minus_before_text_is_a_type_mismatch() {
    let mut it = Interpreter::new(String::from("-s"));
    it.define_variable(String::from("s"), Value::Text(String::from("a")));
    match it.parse() {
        Err(e) => assert_eq!(e.kind, ErrorKind::TypeMismatch),
        Ok(_) => panic!("expected an error"),
    }
}

#[test]
fn whitespace_and_newlines_are_skipped() {
    assert_eq!(eval_number("  1\n +\t2 "), 3);
}
