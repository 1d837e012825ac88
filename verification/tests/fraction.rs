use calculator::fraction::gcd;
use calculator::fraction::lcm;
use calculator::EvalError;
use calculator::Fraction;

#[test]
fn lcm_test() {
    assert_eq!(lcm(3, 6), 6);
    assert_eq!(lcm(6, 3), 6);
    assert_eq!(lcm(6, 5), 30);
    assert_eq!(lcm(5, 6), 30);
    assert_eq!(lcm(4, 6), 12);
}

#[test]
fn gcd_test() {
    assert_eq!(gcd(4, 6), 2);
    assert_eq!(gcd(8, 12), 4);
    assert_eq!(gcd(12, 8), 4);
    assert_eq!(gcd(54, 24), 6);
}

#[test]
fn equality() {
    let a = Fraction::from_int(5);
    let b = Fraction::new(10, 2);
    assert_eq!(a, b);
}

#[test]
fn add() {
    let a = Fraction::from_int(5);
    let b = Fraction::from_int(13);
    assert_eq!(a.add(b).unwrap(), Fraction::from_int(18));
}

#[test]
fn equality_is_cross_multiplication() {
    assert_eq!(Fraction::new(10, 2), Fraction::new(5, 1));
    assert_eq!(Fraction::new(-3, 6), Fraction::new(-1, 2));
    assert_ne!(Fraction::new(1, 2), Fraction::new(1, 3));
    assert_eq!(Fraction::new(0, 7), Fraction::new(0, 1));
}

#[test]
fn accessors() {
    let f = Fraction::new(-8, 6);
    assert_eq!(f.numer(), -8);
    assert_eq!(f.denom(), 6);
}

#[test]
fn arithmetic_is_exact() {
    let half = Fraction::new(1, 2);
    let third = Fraction::new(1, 3);
    let sum = half.add(third).unwrap();
    assert_eq!(sum.numer(), 5);
    assert_eq!(sum.denom(), 6);
    let diff = half.sub(third).unwrap();
    assert_eq!(diff.numer(), 1);
    assert_eq!(diff.denom(), 6);
    let prod = half.mul(third).unwrap();
    assert_eq!(prod.numer(), 1);
    assert_eq!(prod.denom(), 6);
    let quot = half.div(third).unwrap();
    assert_eq!(quot.numer(), 3);
    assert_eq!(quot.denom(), 2);
}

#[test]
fn divide_sign_handling() {
    let a = Fraction::new(1, 2);
    let b = Fraction::new(-2, 3);
    let q = a.div(b).unwrap();
    assert_eq!(q.numer(), -3);
    assert_eq!(q.denom(), 4);
}

#[test]
fn divide_by_zero_fails() {
    let r = Fraction::new(1, 1).div(Fraction::new(0, 1));
    assert_eq!(r.unwrap_err(), EvalError::DivisionByZero);
}

#[test]
fn negation() {
    let f = Fraction::new(7, 3).neg().unwrap();
    assert_eq!(f.numer(), -7);
    assert_eq!(f.denom(), 3);
    assert_eq!(Fraction::from_int(i64::MIN).neg().unwrap_err(), EvalError::ArithmeticOverflow);
}

#[test]
fn addition_overflow_fails() {
    let r = Fraction::from_int(i64::MAX).add(Fraction::from_int(1));
    assert_eq!(r.unwrap_err(), EvalError::ArithmeticOverflow);
}

#[test]
fn multiplication_overflow_fails() {
    let r = Fraction::from_int(i64::MAX).mul(Fraction::from_int(2));
    assert_eq!(r.unwrap_err(), EvalError::ArithmeticOverflow);
}

#[test]
fn simplify_reduces() {
    let f = Fraction::new(54, 24).simplify();
    assert_eq!(f.numer(), 9);
    assert_eq!(f.denom(), 4);
    let g = Fraction::new(-54, 24).simplify();
    assert_eq!(g.numer(), -9);
    assert_eq!(g.denom(), 4);
}

#[test]
fn simplify_zero_numerator() {
    let f = Fraction::new(0, 17).simplify();
    assert_eq!(f.numer(), 0);
    assert_eq!(f.denom(), 1);
}

#[test]
fn simplify_keeps_value() {
    let f = Fraction::new(266, 10);
    assert_eq!(f.simplify(), f);
    assert_eq!(f.simplify().numer(), 133);
    assert_eq!(f.simplify().denom(), 5);
}

#[test]
fn render_integer_omits_denominator() {
    assert_eq!(Fraction::from_int(5).render(), "5");
    assert_eq!(Fraction::from_int(-7).render(), "-7");
    assert_eq!(Fraction::from_int(0).render(), "0");
    assert_eq!(Fraction::new(120, 1).render(), "120");
}

#[test]
fn render_fraction_shows_both_components() {
    assert_eq!(Fraction::new(266, 10).render(), "266 / 10");
    assert_eq!(Fraction::new(-3, 4).render(), "-3 / 4");
    assert_eq!(Fraction::new(10, 2).render(), "10 / 2");
}

#[test]
fn render_extremes() {
    assert_eq!(Fraction::from_int(i64::MIN).render(), "-9223372036854775808");
    assert_eq!(Fraction::new(1, u64::MAX).render(), "1 / 18446744073709551615");
}
