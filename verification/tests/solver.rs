use convex::rational::Rat;
use convex::solver::{projected_subgradient_descent, SolveError, StepRule};
use convex::vecops::{dot, max_elementwise, project_onto_hyperplane};

fn r(n: i64, d: i64) -> Rat {
    Rat::new(n, d)
}

fn ints(vs: &[i64]) -> Vec<Rat> {
    vs.iter().map(|v| Rat::from_int(*v)).collect()
}

fn assert_value(x: &Rat, n: i64, d: i64) {
    assert!(x.same_value(&r(n, d)), "expected {}/{}, got {}/{}", n, d, x.num(), x.den());
}

/// n = 2, A = [[2,0],[0,2]], q = 0, b = [1,1], s = [-1,-1], a = [1,1], E = 1,
/// x0 = 0, fixed step 1/10, 50 iterations: the iterate settles on the
/// feasible line x1 + x2 = 1 with zero residual, at the symmetric point.
#[test]
fn scenario_quadratic_two_dims() {
    let amat = vec![ints(&[2, 0]), ints(&[0, 2])];
    let q = ints(&[0, 0]);
    let b = ints(&[1, 1]);
    let s = ints(&[-1, -1]);
    let x0 = ints(&[0, 0]);
    let a = ints(&[1, 1]);
    let e = Rat::from_int(1);
    let step = StepRule::Fixed(r(1, 10));
    let x = projected_subgradient_descent(&amat, &q, &b, &s, &x0, 50, &step, &a, &e).unwrap();
    assert_eq!(x.len(), 2);
    // the constraint residual is exactly zero
    let ax = dot(&a, &x).unwrap();
    assert_value(&ax, 1, 1);
    // the minimizer of x1^2 + x2^2 on the line is the symmetric point
    assert_value(&x[0], 1, 2);
    assert_value(&x[1], 1, 2);
}

/// max_iter = 0 returns x0 verbatim: no projection is applied, even though
/// x0 violates the constraint.
#[test]
fn zero_iterations_returns_x0() {
    let amat = vec![ints(&[2, 0]), ints(&[0, 2])];
    let q = ints(&[0, 0]);
    let b = ints(&[1, 1]);
    let s = ints(&[-1, -1]);
    let x0 = vec![r(3, 7), r(-2, 5)];
    let a = ints(&[1, 1]);
    let e = Rat::from_int(1);
    let step = StepRule::Fixed(r(1, 10));
    let x = projected_subgradient_descent(&amat, &q, &b, &s, &x0, 0, &step, &a, &e).unwrap();
    assert_eq!(x.len(), 2);
    assert_eq!(x[0].num(), 3);
    assert_eq!(x[0].den(), 7);
    assert_eq!(x[1].num(), -2);
    assert_eq!(x[1].den(), 5);
}

/// Two runs on identical inputs return identical results.
#[test]
fn deterministic_across_runs() {
    let amat = vec![vec![r(2, 1), r(1, 3)], vec![r(1, 3), r(2, 1)]];
    let q = vec![r(-1, 2), r(1, 4)];
    let b = ints(&[1, 1]);
    let s = ints(&[-1, -1]);
    let x0 = vec![r(1, 5), r(-1, 5)];
    let a = vec![r(1, 1), r(2, 1)];
    let e = r(3, 2);
    let step = StepRule::Decaying { alpha: r(1, 2), gamma: r(1, 1) };
    let r1 = projected_subgradient_descent(&amat, &q, &b, &s, &x0, 7, &step, &a, &e).unwrap();
    let r2 = projected_subgradient_descent(&amat, &q, &b, &s, &x0, 7, &step, &a, &e).unwrap();
    assert_eq!(r1, r2);
}

/// After at least one iteration the result satisfies the constraint exactly.
#[test]
fn feasible_after_one_iteration() {
    let amat = vec![vec![r(2, 1), r(1, 3)], vec![r(1, 3), r(2, 1)]];
    let q = vec![r(-1, 2), r(1, 4)];
    let b = ints(&[1, 1]);
    let s = ints(&[-1, -1]);
    let x0 = vec![r(1, 5), r(-1, 5)];
    let a = vec![r(1, 1), r(2, 1)];
    let e = r(3, 2);
    let step = StepRule::Fixed(r(1, 7));
    for iters in [1usize, 2, 3, 5] {
        let x = projected_subgradient_descent(&amat, &q, &b, &s, &x0, iters, &step, &a, &e)
            .unwrap();
        let ax = dot(&a, &x).unwrap();
        assert_value(&ax, 3, 2);
    }
}

/// A zero hyperplane normal is rejected before any iteration.
#[test]
fn degenerate_constraint_rejected() {
    let amat = vec![ints(&[2, 0]), ints(&[0, 2])];
    let q = ints(&[0, 0]);
    let b = ints(&[1, 1]);
    let s = ints(&[-1, -1]);
    let x0 = ints(&[0, 0]);
    let a = ints(&[0, 0]);
    let e = Rat::from_int(1);
    let step = StepRule::Fixed(r(1, 10));
    let res = projected_subgradient_descent(&amat, &q, &b, &s, &x0, 50, &step, &a, &e);
    assert_eq!(res, Err(SolveError::DegenerateConstraint));
}

/// Every input whose length differs from the dimension of x0 is rejected.
#[test]
fn dimension_mismatch_rejected() {
    let amat = vec![ints(&[2, 0]), ints(&[0, 2])];
    let q = ints(&[0, 0]);
    let b = ints(&[1, 1]);
    let s = ints(&[-1, -1]);
    let x0 = ints(&[0, 0]);
    let a = ints(&[1, 1]);
    let e = Rat::from_int(1);
    let step = StepRule::Fixed(r(1, 10));
    let q_short = ints(&[0]);
    let res = projected_subgradient_descent(&amat, &q_short, &b, &s, &x0, 1, &step, &a, &e);
    assert_eq!(res, Err(SolveError::DimensionMismatch));
    let amat_ragged = vec![ints(&[2, 0, 1]), ints(&[0, 2])];
    let res = projected_subgradient_descent(&amat_ragged, &q, &b, &s, &x0, 1, &step, &a, &e);
    assert_eq!(res, Err(SolveError::DimensionMismatch));
    let a_short = ints(&[1]);
    let res = projected_subgradient_descent(&amat, &q, &b, &s, &x0, 1, &step, &a_short, &e);
    assert_eq!(res, Err(SolveError::DimensionMismatch));
}

/// An iterate that leaves the representable range is reported, not silently
/// degraded.
#[test]
fn overflow_reported() {
    let big = 0x7fff_ffff_ffff_ffff;
    let amat = vec![vec![r(big, 1), r(0, 1)], vec![r(0, 1), r(big, 1)]];
    let q = ints(&[0, 0]);
    let b = ints(&[1, 1]);
    let s = ints(&[-1, -1]);
    let x0 = vec![r(big, 1), r(big, 1)];
    let a = ints(&[1, 1]);
    let e = Rat::from_int(1);
    let step = StepRule::Fixed(r(1, 1));
    let res = projected_subgradient_descent(&amat, &q, &b, &s, &x0, 1, &step, &a, &e);
    assert_eq!(res, Err(SolveError::Overflow));
}

/// Projecting [0,0] onto {z : z1 + z2 = 1} gives [1/2, 1/2]; the residual is
/// zero and the displacement is the same multiple of the normal in every
/// coordinate.
#[test]
fn projection_scenario() {
    let x = ints(&[0, 0]);
    let a = ints(&[1, 1]);
    let e = Rat::from_int(1);
    let z = project_onto_hyperplane(&x, &a, &e).unwrap();
    assert_value(&z[0], 1, 2);
    assert_value(&z[1], 1, 2);
    let az = dot(&a, &z).unwrap();
    assert_value(&az, 1, 1);
    // displacement along the normal: z - x = t·a with t = 1/2
    let d0 = z[0].checked_sub(&x[0]).unwrap();
    let d1 = z[1].checked_sub(&x[1]).unwrap();
    assert!(d0.same_value(&d1));
    assert_value(&d0, 1, 2);
}

/// A projection with an asymmetric normal: [1,0] onto {z : z1 + 2·z2 = 2}
/// moves by t = 1/5 along the normal.
#[test]
fn projection_asymmetric_normal() {
    let x = ints(&[1, 0]);
    let a = vec![r(1, 1), r(2, 1)];
    let e = Rat::from_int(2);
    let z = project_onto_hyperplane(&x, &a, &e).unwrap();
    let az = dot(&a, &z).unwrap();
    assert_value(&az, 2, 1);
    assert_value(&z[0], 6, 5);
    assert_value(&z[1], 2, 5);
}

/// The componentwise maximum picks the larger value in each coordinate.
#[test]
fn max_elementwise_picks_larger() {
    let a = vec![r(1, 2), r(-3, 1), r(0, 1)];
    let b = vec![r(1, 3), r(-2, 1), r(0, 1)];
    let m = max_elementwise(&a, &b);
    assert_value(&m[0], 1, 2);
    assert_value(&m[1], -2, 1);
    assert_value(&m[2], 0, 1);
}
