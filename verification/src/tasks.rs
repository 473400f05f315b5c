//! The full diagnostic run on one system: theorem checks, solve,
//! operator application, residual.

use vstd::prelude::*;
use crate::rat::{Rat, rv_int, rv_sub, rv_abs, rv_eq, rv_le};
use crate::vector::Vector;
use crate::tridiagonal_system::{
    TridiagonalSystem, UnsolvableError, pivots_ok, t1_holds, t2_holds, x_at, right_at, apply_at,
};

verus! {

/// Names the fixture a caller wants solved; resolving it to a path and
/// reading it belong to the transport.
pub struct TestTridiagonalParams {
    pub id: String,
}

/// Everything one diagnostic run reports.
pub struct TestTridiagonalResult {
    pub th1: bool,
    pub th2: bool,
    pub result: Vector,
    pub residual: Vector,
    pub norm: Rat,
}

pub struct TridiagonalTasks {}

impl TridiagonalTasks {
    /// Solves the system, applies it as an operator to the solution, and
    /// reports both theorem checks and the residual against the
    /// right-hand side, with its max-absolute-value norm.
    pub fn test(system: &TridiagonalSystem) -> (r: Result<
        TestTridiagonalResult,
        UnsolvableError,
    >)
        requires
            system.wf(),
        ensures
            r is Ok <==> pivots_ok(system@),
            r matches Ok(out) ==> out.th1 == t1_holds(system@) && out.th2 == t2_holds(system@)
                && out.result@.len() == system@.rows.len() + 2 && (forall|j: int|
                0 <= j < out.result@.len() ==> out.result@[j] == x_at(system@, j as nat))
                && out.residual@.len() == system@.rows.len() + 2 && (forall|j: int|
                0 <= j < out.residual@.len() ==> out.residual@[j] == rv_sub(
                    apply_at(system@, out.result@, j),
                    right_at(system@, j),
                )) && out.norm.wf() && rv_le(rv_int(0), out.norm@) && (forall|j: int|
                0 <= j < out.residual@.len() ==> rv_le(rv_abs(out.residual@[j]), out.norm@))
                && (exists|j: int|
                0 <= j < out.residual@.len() && rv_eq(out.norm@, rv_abs(out.residual@[j]))),
    {
        let th1 = system.checkT1();
        let th2 = system.checkT2();
        let result = match system.solve() {
            Ok(v) => v,
            Err(e) => {
                return Err(e);
            },
        };
        let operated = system.apply(&result);
        let right = system.getRight();
        let residual = operated.sub(&right);
        let norm = residual.norm();
        Ok(TestTridiagonalResult { th1, th2, result, residual, norm })
    }
}

} // verus!
