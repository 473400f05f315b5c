//! Dense matrices of exact rationals. Only the construction surface:
//! general matrix algebra is outside the solver's scope.

use vstd::prelude::*;
use crate::rat::{Rat, RatV, rv_wf, rv_int};

verus! {

/// An `n` by `m` matrix of exact rationals.
pub struct Matrix {
    pub n: usize,
    pub m: usize,
    values: Vec<Vec<Rat>>,
}

impl View for Matrix {
    type V = Seq<Seq<RatV>>;

    closed spec fn view(&self) -> Seq<Seq<RatV>> {
        self.values@.map_values(|row: Vec<Rat>| row@.map_values(|x: Rat| x@))
    }
}

impl Matrix {
    pub closed spec fn spec_n(&self) -> usize {
        self.n
    }

    pub closed spec fn spec_m(&self) -> usize {
        self.m
    }

    pub open spec fn wf(&self) -> bool {
        self.spec_n() == self@.len() && forall|i: int|
            0 <= i < self@.len() ==> (#[trigger] self@[i]).len() == self.spec_m() && forall|j: int|
                0 <= j < self@[i].len() ==> rv_wf(#[trigger] self@[i][j])
    }

    fn zero_row(m: usize) -> (r: Vec<Rat>)
        ensures
            r@.len() == m,
            forall|j: int| 0 <= j < m ==> (#[trigger] r@[j])@ == rv_int(0),
    {
        let mut row: Vec<Rat> = Vec::new();
        let mut j: usize = 0;
        while j < m
            invariant
                j <= m,
                row@.len() == j,
                forall|t: int| 0 <= t < j ==> (#[trigger] row@[t])@ == rv_int(0),
            decreases m - j,
        {
            row.push(Rat::zero());
            j = j + 1;
        }
        row
    }

    /// An `n` by `m` zero matrix.
    pub fn new(n: usize, m: usize) -> (r: Matrix)
        ensures
            r.wf(),
            r.spec_n() == n,
            r.spec_m() == m,
            r@.len() == n,
            forall|i: int, j: int| 0 <= i < n && 0 <= j < m ==> #[trigger] r@[i][j] == rv_int(0),
    {
        let mut values: Vec<Vec<Rat>> = Vec::new();
        let mut i: usize = 0;
        while i < n
            invariant
                i <= n,
                values@.len() == i,
                forall|t: int| 0 <= t < i ==> (#[trigger] values@[t])@.len() == m,
                forall|t: int, j: int| 0 <= t < i && 0 <= j < m ==> (#[trigger] values@[t]@[j])@
                    == rv_int(0),
            decreases n - i,
        {
            values.push(Self::zero_row(m));
            i = i + 1;
        }
        let r = Matrix { n, m, values };
        r
    }

    /// An `n` by `m` matrix with one value on the main diagonal and
    /// zeroes elsewhere.
    #[allow(non_snake_case)]
    pub fn newDiagonal(n: usize, m: usize, diagonal: Rat) -> (r: Matrix)
        requires
            diagonal.wf(),
        ensures
            r.wf(),
            r.spec_n() == n,
            r.spec_m() == m,
            forall|i: int, j: int| 0 <= i < n && 0 <= j < m && i != j ==> #[trigger] r@[i][j]
                == rv_int(0),
            forall|i: int| 0 <= i < n && i < m ==> #[trigger] r@[i][i] == diagonal@,
    {
        let mut values: Vec<Vec<Rat>> = Vec::new();
        let mut i: usize = 0;
        while i < n
            invariant
                i <= n,
                diagonal.wf(),
                values@.len() == i,
                forall|t: int| 0 <= t < i ==> (#[trigger] values@[t])@.len() == m,
                forall|t: int, j: int| 0 <= t < i && 0 <= j < m ==> rv_wf(
                    (#[trigger] values@[t]@[j])@,
                ),
                forall|t: int, j: int| 0 <= t < i && 0 <= j < m && t != j
                    ==> (#[trigger] values@[t]@[j])@ == rv_int(0),
                forall|t: int| 0 <= t < i && t < m ==> (#[trigger] values@[t]@[t])@ == diagonal@,
            decreases n - i,
        {
            let mut row: Vec<Rat> = Vec::new();
            let mut j: usize = 0;
            while j < m
                invariant
                    j <= m,
                    diagonal.wf(),
                    row@.len() == j,
                    forall|t: int| 0 <= t < j ==> rv_wf((#[trigger] row@[t])@),
                    forall|t: int| 0 <= t < j && t != i ==> (#[trigger] row@[t])@ == rv_int(0),
                    forall|t: int| 0 <= t < j && t == i ==> (#[trigger] row@[t])@ == diagonal@,
                decreases m - j,
            {
                if j == i {
                    row.push(diagonal.dup());
                } else {
                    row.push(Rat::zero());
                }
                j = j + 1;
            }
            values.push(row);
            i = i + 1;
        }
        Matrix { n, m, values }
    }

    /// Wraps a ready array of rows; the row lengths must agree.
    pub fn from(array: Vec<Vec<Rat>>) -> (r: Matrix)
        requires
            forall|i: int| 0 <= i < array@.len() ==> (#[trigger] array@[i])@.len() == (if array@.len()
                > 0 {
                array@[0]@.len()
            } else {
                0
            }),
        ensures
            r.spec_n() == array@.len(),
            r.spec_m() == (if array@.len() > 0 {
                array@[0]@.len()
            } else {
                0
            }),
            r@.len() == array@.len(),
            forall|i: int, j: int|
                0 <= i < array@.len() && 0 <= j < array@[i]@.len() ==> #[trigger] r@[i][j]
                    == array@[i]@[j]@,
            (forall|i: int, j: int|
                0 <= i < array@.len() && 0 <= j < array@[i]@.len() ==> rv_wf(
                    (#[trigger] array@[i]@[j])@,
                )) ==> r.wf(),
    {
        let n = array.len();
        let m = if n > 0 {
            array[0].len()
        } else {
            0
        };
        let r = Matrix { n, m, values: array };
        proof {
            assert forall|i: int| 0 <= i < r@.len() implies (#[trigger] r@[i]).len() == m by {}
        }
        r
    }

    /// An independently owned copy.
    pub fn clone(source: Matrix) -> (r: Matrix)
        requires
            source.wf(),
        ensures
            r.wf(),
            r.spec_n() == source.spec_n(),
            r.spec_m() == source.spec_m(),
            r@ == source@,
    {
        let mut values: Vec<Vec<Rat>> = Vec::new();
        let mut i: usize = 0;
        while i < source.values.len()
            invariant
                source.wf(),
                source.spec_n() == source.values@.len(),
                i <= source.values@.len(),
                values@.len() == i,
                forall|t: int| 0 <= t < i ==> (#[trigger] values@[t])@.map_values(|x: Rat| x@)
                    == source@[t],
            decreases source.values@.len() - i,
        {
            let src_row = &source.values[i];
            let mut row: Vec<Rat> = Vec::new();
            let mut j: usize = 0;
            while j < src_row.len()
                invariant
                    j <= src_row@.len(),
                    row@.len() == j,
                    forall|t: int| 0 <= t < j ==> (#[trigger] row@[t])@ == src_row@[t]@,
                decreases src_row@.len() - j,
            {
                row.push(src_row[j].dup());
                j = j + 1;
            }
            proof {
                assert(row@.map_values(|x: Rat| x@) =~= src_row@.map_values(|x: Rat| x@));
                assert(source@[i as int] == source.values@[i as int]@.map_values(|x: Rat| x@));
            }
            values.push(row);
            i = i + 1;
        }
        let r = Matrix { n: source.n, m: source.m, values };
        proof {
            assert(r@ =~= source@);
            assert forall|i: int| 0 <= i < r@.len() implies (#[trigger] r@[i]).len()
                == r.spec_m() && forall|j: int| 0 <= j < r@[i].len() ==> rv_wf(
                #[trigger] r@[i][j],
            ) by {
                assert(r@[i] == source@[i]);
            }
        }
        r
    }
}

} // verus!
