use progonka::rat::Rat;
use progonka::vector::Vector;
use progonka::tridiagonal_system::{Row, TridiagonalSystem};
use progonka::tasks::TridiagonalTasks;

fn rat(n: i64) -> Rat {
    Rat::from_i64(n)
}

fn frac(n: i64, d: i64) -> Rat {
    Rat::from_i64(n).div(&Rat::from_i64(d))
}

fn system(k1: Rat, k2: Rat, m1: Rat, m2: Rat, rows: Vec<Row>) -> TridiagonalSystem {
    TridiagonalSystem::new(k1, k2, m1, m2, rows)
}

#[test]
fn concrete_scenario_solves_by_hand() {
    // boundary "0 0 1 2" with one interior row "1 2 1 3":
    // alpha0 = 0, beta0 = 1; denom = 2 - 0 = 2; alpha1 = 1/2;
    // beta1 = (1*1 - 3)/2 = -1; x2 = (2 + 0)/(1 - 0) = 2;
    // x1 = 1/2 * 2 - 1 = 0; x0 = 0 * 0 + 1 = 1.
    let sys = system(
        rat(0),
        rat(0),
        rat(1),
        rat(2),
        vec![Row::new(rat(1), rat(2), rat(1), rat(3))],
    );
    let x = sys.solve().unwrap();
    assert_eq!(x.n, 3);
    assert!(x.get(0).eq_rat(&rat(1)));
    assert!(x.get(1).eq_rat(&rat(0)));
    assert!(x.get(2).eq_rat(&rat(2)));
    assert!(sys.checkT1());
    assert!(!sys.checkT2());
}

#[test]
fn zero_interior_rows_solves_two_by_two() {
    // x0 - 2*x1 = 5 and x1 - 3*x0 = 7 solve to x1 = -22/5, x0 = -19/5.
    let sys = system(rat(2), rat(3), rat(5), rat(7), vec![]);
    let x = sys.solve().unwrap();
    assert_eq!(x.n, 2);
    assert!(x.get(0).eq_rat(&frac(-19, 5)));
    assert!(x.get(1).eq_rat(&frac(-22, 5)));
    // the boundary equations hold exactly
    let rhs = sys.getRight();
    let image = sys.apply(&x);
    assert!(image.get(0).eq_rat(rhs.get(0)));
    assert!(image.get(1).eq_rat(rhs.get(1)));
}

#[test]
fn residual_is_exactly_zero_after_solve() {
    let sys = system(
        frac(1, 2),
        frac(-1, 3),
        frac(7, 2),
        rat(-4),
        vec![
            Row::new(rat(1), rat(4), rat(2), rat(3)),
            Row::new(rat(-2), rat(5), rat(1), frac(1, 2)),
            Row::new(rat(1), rat(3), rat(-1), rat(0)),
        ],
    );
    let x = sys.solve().unwrap();
    let image = sys.apply(&x);
    let rhs = sys.getRight();
    for j in 0..x.n {
        assert!(image.get(j).eq_rat(rhs.get(j)));
    }
    let residual = image.sub(&rhs);
    assert!(residual.norm().is_zero());
}

#[test]
fn zero_pivot_reports_unsolvable() {
    // kappa1 = 1 and row (1, 1, 0, 0): the first pivot is 1 - 1*1 = 0.
    // checkT1 still holds, which is why non-strict dominance alone does
    // not guarantee solvability.
    let sys = system(
        rat(1),
        rat(0),
        rat(1),
        rat(1),
        vec![Row::new(rat(1), rat(1), rat(0), rat(0))],
    );
    assert!(sys.checkT1());
    assert!(sys.solve().is_err());
}

#[test]
fn check_t1_flips_without_affecting_t2() {
    // row (1, 2, 0, 1): T1 holds, T2 fails on c == 0.
    let base = system(
        frac(1, 2),
        frac(1, 2),
        rat(0),
        rat(0),
        vec![Row::new(rat(1), rat(2), rat(0), rat(1))],
    );
    assert!(base.checkT1());
    assert!(!base.checkT2());
    // mutate the row to violate |b| >= |a| + |c|: T1 flips, T2 stays false.
    let mutated = system(
        frac(1, 2),
        frac(1, 2),
        rat(0),
        rat(0),
        vec![Row::new(rat(1), rat(0), rat(0), rat(1))],
    );
    assert!(!mutated.checkT1());
    assert!(!mutated.checkT2());
}

#[test]
fn check_t2_strict_dominance() {
    let sys = system(
        rat(1),
        rat(-1),
        rat(2),
        rat(3),
        vec![Row::new(rat(1), rat(3), rat(1), rat(0))],
    );
    assert!(sys.checkT2());
    assert!(!sys.checkT1()); // |kappa2| < 1 fails
}

#[test]
fn get_right_assembles_boundary_and_rows() {
    let sys = system(
        rat(4),
        rat(5),
        frac(1, 2),
        frac(-3, 4),
        vec![
            Row::new(rat(1), rat(2), rat(3), frac(5, 7)),
            Row::new(rat(0), rat(1), rat(0), rat(-6)),
        ],
    );
    let rhs = sys.getRight();
    assert_eq!(rhs.n, 4);
    assert!(rhs.get(0).eq_rat(&frac(1, 2)));
    assert!(rhs.get(1).eq_rat(&frac(5, 7)));
    assert!(rhs.get(2).eq_rat(&rat(-6)));
    assert!(rhs.get(3).eq_rat(&frac(-3, 4)));
}

#[test]
fn norm_is_max_absolute_value() {
    let v = Vector::from(vec![rat(1), rat(-3), rat(2)]);
    assert!(v.norm().eq_rat(&rat(3)));
    let empty = Vector::from(vec![]);
    assert!(empty.norm().is_zero());
}

#[test]
fn vector_ops_are_exact() {
    let a = Vector::from(vec![frac(1, 2), rat(2)]);
    let b = Vector::from(vec![frac(1, 3), rat(-1)]);
    let s = a.add(&b);
    assert!(s.get(0).eq_rat(&frac(5, 6)));
    assert!(s.get(1).eq_rat(&rat(1)));
    let d = a.sub(&b);
    assert!(d.get(0).eq_rat(&frac(1, 6)));
    assert!(d.get(1).eq_rat(&rat(3)));
    let dot = a.dot(&b);
    assert!(dot.eq_rat(&frac(-11, 6)));
}

#[test]
fn rational_arithmetic_is_exact() {
    let x = frac(1, 3);
    let y = frac(1, 6);
    assert!(x.add(&y).eq_rat(&frac(1, 2)));
    assert!(x.sub(&y).eq_rat(&frac(1, 6)));
    assert!(x.mul(&y).eq_rat(&frac(1, 18)));
    assert!(x.div(&y).eq_rat(&rat(2)));
    assert!(frac(-3, 4).abs().eq_rat(&frac(3, 4)));
    assert!(frac(-1, 2).lt(&frac(1, 3)));
    assert!(frac(2, 4).eq_rat(&frac(1, 2)));
}

#[test]
fn task_runs_whole_diagnostic() {
    let sys = system(
        rat(0),
        rat(0),
        rat(1),
        rat(2),
        vec![Row::new(rat(1), rat(2), rat(1), rat(3))],
    );
    let out = TridiagonalTasks::test(&sys).unwrap();
    assert!(out.th1);
    assert!(!out.th2);
    assert_eq!(out.result.n, 3);
    assert!(out.result.get(2).eq_rat(&Rat::from_i64(2)));
    assert!(out.norm.is_zero());
    for j in 0..out.residual.n {
        assert!(out.residual.get(j).is_zero());
    }
}

#[test]
fn unsolvable_task_reports_error() {
    let sys = system(
        rat(1),
        rat(0),
        rat(1),
        rat(1),
        vec![Row::new(rat(1), rat(1), rat(0), rat(0))],
    );
    assert!(TridiagonalTasks::test(&sys).is_err());
}
