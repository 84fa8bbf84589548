//! The binary operator on 32-bit signed integers.
use crate::ast::Operator;
use crate::error::ArithmeticError;
use vstd::prelude::*;

verus! {

/// Quotient of `a` by `b`, rounded toward zero.
pub open spec fn quotient(a: int, b: int) -> int
    recommends
        b != 0,
{
    if a >= 0 && b > 0 {
        a / b
    } else if a >= 0 {
        -(a / (-b))
    } else if b > 0 {
        -((-a) / b)
    } else {
        (-a) / (-b)
    }
}

/// Remainder that goes with [`quotient`]: it has the sign of `a`.
pub open spec fn remainder(a: int, b: int) -> int
    recommends
        b != 0,
{
    a - b * quotient(a, b)
}

/// `1` for true, `0` for false: the language has no boolean type.
pub open spec fn truth(b: bool) -> i32 {
    if b {
        1
    } else {
        0
    }
}

/// The result as an `i32`, or `Overflow` where it does not fit.
pub open spec fn fit(v: int) -> Result<i32, ArithmeticError> {
    if i32::MIN <= v <= i32::MAX {
        Ok(v as i32)
    } else {
        Err(ArithmeticError::Overflow)
    }
}

/// What `op` gives on `lhs` and `rhs`.
pub open spec fn apply(op: Operator, lhs: i32, rhs: i32) -> Result<i32, ArithmeticError> {
    match op {
        Operator::Add => fit(lhs + rhs),
        Operator::Sub => fit(lhs - rhs),
        Operator::Mul => fit(lhs * rhs),
        Operator::Div => if rhs == 0 {
            Err(ArithmeticError::DivisionByZero)
        } else {
            fit(quotient(lhs as int, rhs as int))
        },
        Operator::Rem => if rhs == 0 {
            Err(ArithmeticError::DivisionByZero)
        } else if lhs == i32::MIN && rhs == -1 {
            Err(ArithmeticError::Overflow)
        } else {
            fit(remainder(lhs as int, rhs as int))
        },
        Operator::Gt => Ok(truth(lhs > rhs)),
        Operator::Ge => Ok(truth(lhs >= rhs)),
        Operator::Lt => Ok(truth(lhs < rhs)),
        Operator::Le => Ok(truth(lhs <= rhs)),
        Operator::Eq => Ok(truth(lhs == rhs)),
        Operator::Neq => Ok(truth(lhs != rhs)),
    }
}

fn checked(v: Option<i32>) -> (r: Result<i32, ArithmeticError>)
    ensures
        r == match v {
            Some(x) => Ok::<i32, ArithmeticError>(x),
            None => Err(ArithmeticError::Overflow),
        },
{
    match v {
        Some(x) => Ok(x),
        None => Err(ArithmeticError::Overflow),
    }
}

fn flag(b: bool) -> (r: i32)
    ensures
        r == truth(b),
{
    if b {
        1
    } else {
        0
    }
}

/// Computes one of the eleven binary operators. The arithmetic ones are
/// checked; the comparisons always succeed.
pub fn operation(op: Operator, lhs: i32, rhs: i32) -> (r: Result<i32, ArithmeticError>)
    ensures
        r == apply(op, lhs, rhs),
{
    match op {
        Operator::Add => checked(lhs.checked_add(rhs)),
        Operator::Sub => checked(lhs.checked_sub(rhs)),
        Operator::Mul => checked(lhs.checked_mul(rhs)),
        Operator::Div => {
            if rhs == 0 {
                Err(ArithmeticError::DivisionByZero)
            } else {
                proof {
                    lemma_quotient(lhs as int, rhs as int);
                }
                checked(lhs.checked_div(rhs))
            }
        },
        Operator::Rem => {
            if rhs == 0 {
                Err(ArithmeticError::DivisionByZero)
            } else {
                proof {
                    lemma_remainder(lhs as int, rhs as int);
                }
                checked(lhs.checked_rem(rhs))
            }
        },
        Operator::Gt => Ok(flag(lhs > rhs)),
        Operator::Ge => Ok(flag(lhs >= rhs)),
        Operator::Lt => Ok(flag(lhs < rhs)),
        Operator::Le => Ok(flag(lhs <= rhs)),
        Operator::Eq => Ok(flag(lhs == rhs)),
        Operator::Neq => Ok(flag(lhs != rhs)),
    }
}

proof fn lemma_quotient(x: int, d: int)
    requires
        d != 0,
    ensures
        quotient(x, d) == if x == 0 {
            0
        } else if x > 0 && d > 0 {
            x / d
        } else if x < 0 && d < 0 {
            ((x * -1) / (d * -1))
        } else if x < 0 {
            ((x * -1) / d) * -1
        } else {
            (x / (d * -1)) * -1
        },
{
    if x == 0 {
        assert(0int / d == 0) by (nonlinear_arith)
            requires
                d != 0,
        ;
        assert(0int / (-d) == 0) by (nonlinear_arith)
            requires
                d != 0,
        ;
    }
}

proof fn lemma_remainder(x: int, d: int)
    requires
        d != 0,
    ensures
        remainder(x, d) == if x == 0 {
            0
        } else if x > 0 && d > 0 {
            x % d
        } else if x < 0 && d < 0 {
            ((x * -1) % (d * -1)) * -1
        } else if x < 0 {
            ((x * -1) % d) * -1
        } else {
            x % (d * -1)
        },
{
    lemma_quotient(x, d);
    vstd::arithmetic::div_mod::lemma_fundamental_div_mod(x, d);
    vstd::arithmetic::div_mod::lemma_fundamental_div_mod(-x, d);
    vstd::arithmetic::div_mod::lemma_fundamental_div_mod(x, -d);
    vstd::arithmetic::div_mod::lemma_fundamental_div_mod(-x, -d);
    assert(d * -(x / (-d)) == -((-d) * (x / (-d))) * -1) by (nonlinear_arith);
    assert(d * -((-x) / d) == -(d * ((-x) / d))) by (nonlinear_arith);
    assert(d * ((-x) / (-d)) == -((-d) * ((-x) / (-d)))) by (nonlinear_arith);
    if x == 0 {
        assert(d * 0 == 0);
    }
}

} // verus!
