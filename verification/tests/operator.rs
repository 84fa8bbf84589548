use mini_lang::eval::operation::operation;
use mini_lang::{ArithmeticError, Operator};

#[test]
fn arithmetic_within_range() {
    assert_eq!(operation(Operator::Add, 2, 3), Ok(5));
    assert_eq!(operation(Operator::Sub, 2, 3), Ok(-1));
    assert_eq!(operation(Operator::Mul, -4, 3), Ok(-12));
    assert_eq!(operation(Operator::Div, 7, 2), Ok(3));
    assert_eq!(operation(Operator::Rem, 7, 2), Ok(1));
}

#[test]
fn division_rounds_toward_zero() {
    assert_eq!(operation(Operator::Div, -7, 2), Ok(-3));
    assert_eq!(operation(Operator::Div, 7, -2), Ok(-3));
    assert_eq!(operation(Operator::Div, -7, -2), Ok(3));
    assert_eq!(operation(Operator::Div, 0, -2), Ok(0));
}

#[test]
fn the_remainder_has_the_sign_of_the_dividend() {
    assert_eq!(operation(Operator::Rem, -7, 2), Ok(-1));
    assert_eq!(operation(Operator::Rem, 7, -2), Ok(1));
    assert_eq!(operation(Operator::Rem, -7, -2), Ok(-1));
    assert_eq!(operation(Operator::Rem, 6, 3), Ok(0));
}

#[test]
fn results_beyond_the_range_overflow() {
    assert_eq!(operation(Operator::Add, i32::MAX, 1), Err(ArithmeticError::Overflow));
    assert_eq!(operation(Operator::Add, i32::MIN, -1), Err(ArithmeticError::Overflow));
    assert_eq!(operation(Operator::Sub, i32::MIN, 1), Err(ArithmeticError::Overflow));
    assert_eq!(operation(Operator::Mul, 65536, 32768), Err(ArithmeticError::Overflow));
    assert_eq!(operation(Operator::Mul, 65536, -32768), Ok(i32::MIN));
    assert_eq!(operation(Operator::Div, i32::MIN, -1), Err(ArithmeticError::Overflow));
    assert_eq!(operation(Operator::Rem, i32::MIN, -1), Err(ArithmeticError::Overflow));
    assert_eq!(operation(Operator::Add, i32::MAX, 0), Ok(i32::MAX));
}

#[test]
fn a_zero_divisor_is_its_own_error() {
    assert_eq!(operation(Operator::Div, 5, 0), Err(ArithmeticError::DivisionByZero));
    assert_eq!(operation(Operator::Rem, 5, 0), Err(ArithmeticError::DivisionByZero));
    assert_eq!(operation(Operator::Div, i32::MIN, 0), Err(ArithmeticError::DivisionByZero));
}

#[test]
fn comparisons_give_one_or_zero() {
    assert_eq!(operation(Operator::Gt, 2, 1), Ok(1));
    assert_eq!(operation(Operator::Gt, 1, 1), Ok(0));
    assert_eq!(operation(Operator::Ge, 1, 1), Ok(1));
    assert_eq!(operation(Operator::Ge, 0, 1), Ok(0));
    assert_eq!(operation(Operator::Lt, 1, 2), Ok(1));
    assert_eq!(operation(Operator::Lt, 2, 2), Ok(0));
    assert_eq!(operation(Operator::Le, 2, 2), Ok(1));
    assert_eq!(operation(Operator::Le, 3, 2), Ok(0));
    assert_eq!(operation(Operator::Eq, 3, 3), Ok(1));
    assert_eq!(operation(Operator::Eq, 3, 4), Ok(0));
    assert_eq!(operation(Operator::Neq, 3, 4), Ok(1));
    assert_eq!(operation(Operator::Neq, 3, 3), Ok(0));
}

#[test]
fn errors_have_words() {
    assert_eq!(ArithmeticError::Overflow.message(), "Overflowed arithmetic");
    assert_eq!(ArithmeticError::DivisionByZero.message(), "Division by zero");
}
