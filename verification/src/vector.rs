//! Fixed-length vectors of exact rationals.

use vstd::prelude::*;
use crate::rat::{Rat, RatV, rv_wf, rv_int, rv_add, rv_sub, rv_mul, rv_abs, rv_eq, rv_le, rv_lt};

verus! {

/// A strict link in the middle keeps the chain: `x <= y < z` gives `x <= z`.
pub proof fn lemma_rv_le_lt_trans(x: RatV, y: RatV, z: RatV)
    by (nonlinear_arith)
    requires
        rv_wf(x),
        rv_wf(y),
        rv_wf(z),
        rv_le(x, y),
        rv_lt(y, z),
    ensures
        rv_le(x, z),
{
}

/// The exact dot product of two rational sequences.
pub open spec fn rv_dot(x: Seq<RatV>, y: Seq<RatV>) -> RatV
    decreases x.len(),
{
    if x.len() == 0 {
        rv_int(0)
    } else {
        rv_add(rv_dot(x.drop_last(), y.drop_last()), rv_mul(x.last(), y.last()))
    }
}

/// An ordered sequence of exact rationals of fixed length `n`.
pub struct Vector {
    pub n: usize,
    values: Vec<Rat>,
}

impl View for Vector {
    type V = Seq<RatV>;

    closed spec fn view(&self) -> Seq<RatV> {
        self.values@.map_values(|r: Rat| r@)
    }
}

impl Vector {
    /// The length recorded in the `n` field.
    pub closed spec fn spec_n(&self) -> usize {
        self.n
    }

    /// The recorded length matches the contents and every entry is well-formed.
    pub open spec fn wf(&self) -> bool {
        self.spec_n() == self@.len() && forall|i: int| 0 <= i < self@.len() ==> rv_wf(self@[i])
    }

    /// A zero vector of length `n`.
    pub fn new(n: usize) -> (r: Vector)
        ensures
            r.wf(),
            r@.len() == n,
            forall|i: int| 0 <= i < n ==> r@[i] == rv_int(0),
    {
        let mut values: Vec<Rat> = Vec::new();
        let mut k: usize = 0;
        while k < n
            invariant
                k <= n,
                values@.len() == k,
                forall|i: int| 0 <= i < k ==> (#[trigger] values@[i])@ == rv_int(0),
            decreases n - k,
        {
            values.push(Rat::zero());
            k = k + 1;
        }
        Vector { n, values }
    }

    pub fn from(array: Vec<Rat>) -> (r: Vector)
        ensures
            r@ == array@.map_values(|x: Rat| x@),
            r.spec_n() == array@.len(),
            (forall|i: int| 0 <= i < array@.len() ==> rv_wf(array@[i]@)) ==> r.wf(),
    {
        let n = array.len();
        Vector { n, values: array }
    }

    /// An independently owned copy with the same entries.
    pub fn clone(source: Vector) -> (r: Vector)
        ensures
            r@ == source@,
            r.spec_n() == source.spec_n(),
    {
        let mut values: Vec<Rat> = Vec::new();
        let mut k: usize = 0;
        while k < source.values.len()
            invariant
                k <= source.values@.len(),
                values@.len() == k,
                forall|i: int| 0 <= i < k ==> (#[trigger] values@[i])@ == source.values@[i]@,
            decreases source.values@.len() - k,
        {
            values.push(source.values[k].dup());
            k = k + 1;
        }
        let r = Vector { n: source.n, values };
        proof {
            assert(r@ =~= source@);
        }
        r
    }

    pub fn len(&self) -> (r: usize)
        requires
            self.wf(),
        ensures
            r == self@.len(),
    {
        self.values.len()
    }

    pub fn get(&self, i: usize) -> (r: &Rat)
        requires
            self.wf(),
            i < self@.len(),
        ensures
            r@ == self@[i as int],
    {
        &self.values[i]
    }

    pub fn set(&mut self, i: usize, v: Rat)
        requires
            old(self).wf(),
            i < old(self)@.len(),
        ensures
            final(self)@ == old(self)@.update(i as int, v@),
            final(self).spec_n() == old(self).spec_n(),
            rv_wf(v@) ==> final(self).wf(),
    {
        self.values.set(i, v);
        proof {
            assert(self@ =~= old(self)@.update(i as int, v@));
        }
    }

    /// The max-absolute-value norm of the vector; zero for an empty one.
    pub fn norm(&self) -> (r: Rat)
        requires
            self.wf(),
        ensures
            r.wf(),
            rv_le(rv_int(0), r@),
            forall|i: int| 0 <= i < self@.len() ==> rv_le(rv_abs(self@[i]), r@),
            self@.len() == 0 ==> r@ == rv_int(0),
            self@.len() > 0 ==> exists|i: int|
                0 <= i < self@.len() && rv_eq(r@, rv_abs(self@[i])),
    {
        let mut result = Rat::zero();
        let mut k: usize = 0;
        while k < self.values.len()
            invariant
                self.wf(),
                k <= self@.len(),
                result.wf(),
                rv_le(rv_int(0), result@),
                forall|i: int| 0 <= i < k ==> rv_le(rv_abs(self@[i]), result@),
                k == 0 ==> result@ == rv_int(0),
                k > 0 ==> exists|i: int| 0 <= i < k && rv_eq(result@, rv_abs(self@[i])),
            decreases self@.len() - k,
        {
            let a = self.values[k].abs();
            if result.lt(&a) {
                proof {
                    let ghost old_r = result@;
                    assert forall|i: int| 0 <= i < k implies rv_le(rv_abs(self@[i]), a@) by {
                        lemma_rv_le_lt_trans(rv_abs(self@[i]), old_r, a@);
                    }
                    lemma_rv_le_lt_trans(rv_int(0), old_r, a@);
                }
                result = a;
                proof {
                    assert(rv_eq(result@, rv_abs(self@[k as int])));
                }
            } else {
                proof {
                    assert(rv_le(rv_abs(self@[k as int]), result@));
                    if k == 0 {
                        assert(rv_eq(result@, rv_abs(self@[0])));
                    }
                }
            }
            k = k + 1;
        }
        result
    }

    /// Pairwise sum.
    pub fn add(&self, o: &Vector) -> (r: Vector)
        requires
            self.wf(),
            o.wf(),
            self@.len() == o@.len(),
        ensures
            r.wf(),
            r@.len() == self@.len(),
            forall|i: int| 0 <= i < self@.len() ==> r@[i] == rv_add(self@[i], o@[i]),
    {
        let mut values: Vec<Rat> = Vec::new();
        let mut k: usize = 0;
        while k < self.values.len()
            invariant
                self.wf(),
                o.wf(),
                self@.len() == o@.len(),
                k <= self@.len(),
                values@.len() == k,
                forall|i: int| 0 <= i < k ==> rv_wf((#[trigger] values@[i])@)
                    && values@[i]@ == rv_add(self@[i], o@[i]),
            decreases self@.len() - k,
        {
            proof {
                assert(self.values@[k as int]@ == self@[k as int]);
                assert(o.values@[k as int]@ == o@[k as int]);
            }
            values.push(self.values[k].add(&o.values[k]));
            k = k + 1;
        }
        Vector { n: values.len(), values }
    }

    /// Pairwise difference.
    pub fn sub(&self, o: &Vector) -> (r: Vector)
        requires
            self.wf(),
            o.wf(),
            self@.len() == o@.len(),
        ensures
            r.wf(),
            r@.len() == self@.len(),
            forall|i: int| 0 <= i < self@.len() ==> r@[i] == rv_sub(self@[i], o@[i]),
    {
        let mut values: Vec<Rat> = Vec::new();
        let mut k: usize = 0;
        while k < self.values.len()
            invariant
                self.wf(),
                o.wf(),
                self@.len() == o@.len(),
                k <= self@.len(),
                values@.len() == k,
                forall|i: int| 0 <= i < k ==> rv_wf((#[trigger] values@[i])@)
                    && values@[i]@ == rv_sub(self@[i], o@[i]),
            decreases self@.len() - k,
        {
            proof {
                assert(self.values@[k as int]@ == self@[k as int]);
                assert(o.values@[k as int]@ == o@[k as int]);
            }
            values.push(self.values[k].sub(&o.values[k]));
            k = k + 1;
        }
        Vector { n: values.len(), values }
    }

    /// The exact dot product.
    pub fn dot(&self, o: &Vector) -> (r: Rat)
        requires
            self.wf(),
            o.wf(),
            self@.len() == o@.len(),
        ensures
            r.wf(),
            r@ == rv_dot(self@, o@),
    {
        let mut result = Rat::zero();
        let mut k: usize = 0;
        while k < self.values.len()
            invariant
                self.wf(),
                o.wf(),
                self@.len() == o@.len(),
                k <= self@.len(),
                result.wf(),
                result@ == rv_dot(self@.take(k as int), o@.take(k as int)),
            decreases self@.len() - k,
        {
            proof {
                assert(self.values@[k as int]@ == self@[k as int]);
                assert(o.values@[k as int]@ == o@[k as int]);
            }
            let term = self.values[k].mul(&o.values[k]);
            result = result.add(&term);
            proof {
                assert(self@.take(k + 1).drop_last() =~= self@.take(k as int));
                assert(o@.take(k + 1).drop_last() =~= o@.take(k as int));
                assert(self@.take(k + 1).last() == self@[k as int]);
            }
            k = k + 1;
        }
        proof {
            assert(self@.take(self@.len() as int) =~= self@);
            assert(o@.take(o@.len() as int) =~= o@);
        }
        result
    }
}

} // verus!
