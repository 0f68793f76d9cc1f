use convex::digits::sum_as_string;
use convex::rational::Rat;
use convex::solver::{step_size, StepRule};

fn r(n: i64, d: i64) -> Rat {
    Rat::new(n, d)
}

/// The connectivity endpoint: sums rendered in base 10.
#[test]
fn sum_as_string_scenarios() {
    assert_eq!(sum_as_string(2, 3), "5");
    assert_eq!(sum_as_string(0, 0), "0");
    assert_eq!(sum_as_string(95, 5), "100");
    assert_eq!(sum_as_string(123456, 654321), "777777");
}

/// Arithmetic reduces results to lowest terms.
#[test]
fn rational_arithmetic_reduces() {
    let x = r(1, 2).checked_add(&r(1, 6)).unwrap();
    assert_eq!(x.num(), 2);
    assert_eq!(x.den(), 3);
    let y = r(3, 4).checked_mul(&r(2, 9)).unwrap();
    assert_eq!(y.num(), 1);
    assert_eq!(y.den(), 6);
    let z = r(1, 2).checked_sub(&r(3, 4)).unwrap();
    assert_eq!(z.num(), -1);
    assert_eq!(z.den(), 4);
    let w = r(1, 3).checked_div(&r(-2, 5)).unwrap();
    assert_eq!(w.num(), -5);
    assert_eq!(w.den(), 6);
}

/// A sum whose reduced form leaves the i64 range is refused.
#[test]
fn rational_overflow_is_none() {
    let big = 0x7fff_ffff_ffff_ffff;
    assert!(r(big, 1).checked_add(&r(big, 1)).is_none());
    assert!(r(big, 1).checked_mul(&r(big, 1)).is_none());
    // a division by zero is refused as well
    assert!(r(1, 2).checked_div(&r(0, 1)).is_none());
}

/// The decaying schedule α/(γ+k) decreases strictly with k.
#[test]
fn decaying_step_sizes_decrease() {
    let rule = StepRule::Decaying { alpha: r(1, 1), gamma: r(1, 1) };
    let s0 = step_size(&rule, 0).unwrap();
    let s1 = step_size(&rule, 1).unwrap();
    let s2 = step_size(&rule, 2).unwrap();
    assert_eq!((s0.num(), s0.den()), (1, 1));
    assert_eq!((s1.num(), s1.den()), (1, 2));
    assert_eq!((s2.num(), s2.den()), (1, 3));
    assert!(s1.lt(&s0));
    assert!(s2.lt(&s1));
}

/// The fixed schedule returns the same step at every iteration.
#[test]
fn fixed_step_size_constant() {
    let rule = StepRule::Fixed(r(1, 10));
    let s0 = step_size(&rule, 0).unwrap();
    let s9 = step_size(&rule, 9).unwrap();
    assert_eq!(s0, s9);
    assert_eq!((s0.num(), s0.den()), (1, 10));
}
