//! End-to-end behavior: the verified pipeline builds the tree, and a small
//! floating-point fold here reduces it, mirroring the unverified layer.

use calc::{Expr, Op};

fn eval_expr(e: &Expr) -> f64 {
    match e {
        Expr::Term(l, op, r) => {
            let a = eval_expr(l);
            let b = eval_expr(r);
            match op {
                Op::Add => a + b,
                Op::Sub => a - b,
                Op::Mul => a * b,
                Op::Div => a / b,
                Op::Exp => a.powf(b),
            }
        }
        Expr::Literal(text) => {
            let s: String = text.iter().collect();
            s.parse::<f64>().unwrap()
        }
    }
}

fn eval(s: &str) -> Option<f64> {
    calc::parse_text(s).map(|e| eval_expr(&e))
}

#[test]
fn adds_two_numbers() {
    assert_eq!(eval("2+3"), Some(5.0));
}

#[test]
fn parenthesized_group_binds_tighter() {
    assert_eq!(eval("2*(3+4)"), Some(14.0));
}

#[test]
fn exponentiation_is_left_associative() {
    // (2^3)^2 = 64, not 2^(3^2) = 512: the grammar folds every rule,
    // exponentiation included, into a left-associated chain.
    assert_eq!(eval("2^3^2"), Some(64.0));
}

#[test]
fn unclosed_parenthesis_is_auto_closed() {
    assert_eq!(eval("(2+3"), Some(5.0));
}

#[test]
fn adjacent_numbers_are_not_repaired() {
    // No implicit multiplication between two bare literals: repair leaves
    // the sequence alone, and the parser consumes only the first literal.
    assert_eq!(eval("2 3"), Some(2.0));
}

#[test]
fn unary_minus_gets_identity_operand() {
    assert_eq!(eval("-5+2"), Some(-3.0));
}

#[test]
fn double_decimal_point_is_rejected() {
    assert_eq!(eval("3..4"), None);
}

#[test]
fn close_before_open_is_rejected() {
    assert_eq!(eval(")"), None);
}

#[test]
fn division_by_zero_gives_infinity() {
    assert_eq!(eval("5/0"), Some(f64::INFINITY));
}

#[test]
fn zero_to_the_zero_follows_the_power_function() {
    // Rust's floating-point power function defines 0^0 as 1.
    assert_eq!(eval("0^0"), Some(1.0));
}

#[test]
fn plain_precedence() {
    assert_eq!(eval("2+3*4"), Some(14.0));
    assert_eq!(eval("2*3+4"), Some(10.0));
    assert_eq!(eval("8/2/2"), Some(2.0));
    assert_eq!(eval("8-2-2"), Some(4.0));
}

#[test]
fn whitespace_is_ignored() {
    assert_eq!(eval(" 2 +\n3 "), Some(5.0));
    assert_eq!(eval("1 2"), Some(1.0));
}

#[test]
fn fractional_literals() {
    assert_eq!(eval("1.5+2.25"), Some(3.75));
    assert_eq!(eval(".5*4"), Some(2.0));
    assert_eq!(eval("2."), Some(2.0));
}

#[test]
fn trailing_operator_gets_identity_operand() {
    assert_eq!(eval("3+"), Some(3.0));
    assert_eq!(eval("2*"), Some(2.0));
    assert_eq!(eval("2/"), Some(2.0));
}

#[test]
fn lone_operator_gets_both_identity_operands() {
    assert_eq!(eval("+"), Some(0.0));
    assert_eq!(eval("*"), Some(1.0));
}

#[test]
fn implicit_multiplication_after_close_paren() {
    assert_eq!(eval("(1+2)(3)"), Some(9.0));
    assert_eq!(eval("(2)3"), Some(6.0));
}

#[test]
fn operator_before_open_paren_consumes_group() {
    // An open parenthesis counts as an operand ahead, so no identity
    // literal is inserted and the operator applies to the group.
    assert_eq!(eval("2+(3)"), Some(5.0));
    assert_eq!(eval("2^(1+2)"), Some(8.0));
}

#[test]
fn lexical_failures() {
    assert_eq!(eval("2a"), None);
    assert_eq!(eval("."), None);
    assert_eq!(eval("1.2.3"), None);
    assert_eq!(eval("2 ; 3"), None);
}

#[test]
fn structural_failures() {
    assert_eq!(eval(""), None);
    assert_eq!(eval("()"), None);
    assert_eq!(eval("(1))"), None);
    assert_eq!(eval("2)("), None);
}

#[test]
fn fractional_exponent() {
    let got = eval("4^0.5").unwrap();
    assert!((got - 2.0).abs() < 1e-12);
}

#[test]
fn zero_over_zero_is_nan() {
    assert!(eval("0/0").unwrap().is_nan());
}

#[test]
fn exponent_followed_by_minus_splits_into_two_terms() {
    // `0^-2` repairs to `0^0-2`: the minus, missing a left operand, gains
    // its identity literal `0`, and exponentiation binds first.
    assert_eq!(eval("0^-2"), Some(-1.0));
}
