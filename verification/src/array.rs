//! The feature-major sample matrix and index-subset gathering.

use vstd::prelude::*;
use crate::numerics::all_within;

verus! {

/// A feature-major matrix: `rows[f][j]` is the value of feature `f` on
/// sample `j`. Every row has exactly `n_samples` entries (`wf`).
pub struct Matrix {
    /// One row per feature.
    pub rows: Vec<Vec<i64>>,
    /// The number of samples, i.e. the length of every row.
    pub n_samples: usize,
}

impl Matrix {
    /// Every row has exactly `n_samples` entries.
    pub open spec fn wf(&self) -> bool {
        forall|f: int| 0 <= f < self.rows@.len() ==> (#[trigger] self.rows@[f])@.len()
            == self.n_samples
    }

    /// The matrix as a sequence of feature rows.
    pub open spec fn vals(&self) -> Seq<Seq<i64>> {
        self.rows@.map_values(|r: Vec<i64>| r@)
    }

    /// The number of feature rows.
    pub open spec fn n_features(&self) -> nat {
        self.rows@.len()
    }

    /// Every entry has magnitude at most `b`.
    pub open spec fn bounded(&self, b: int) -> bool {
        forall|f: int| 0 <= f < self.rows@.len() ==> all_within((#[trigger] self.rows@[f])@, b)
    }

    /// An empty matrix over `n_samples` samples, with no feature rows yet.
    pub fn new(n_samples: usize) -> (r: Matrix)
        ensures
            r.wf(),
            r.n_samples == n_samples,
            r.rows@.len() == 0,
    {
        Matrix { rows: Vec::new(), n_samples }
    }

    /// Appends one feature row.
    pub fn push_row(&mut self, row: Vec<i64>)
        requires
            old(self).wf(),
            row@.len() == old(self).n_samples,
        ensures
            final(self).wf(),
            final(self).n_samples == old(self).n_samples,
            final(self).rows@ == old(self).rows@.push(row),
    {
        self.rows.push(row);
    }

    /// The sub-matrix of the sample window `[from, to)`, all features kept.
    pub fn slice_samples(&self, from: usize, to: usize) -> (r: Matrix)
        requires
            self.wf(),
            from <= to <= self.n_samples,
        ensures
            r.wf(),
            r.n_samples == to - from,
            r.rows@.len() == self.rows@.len(),
            forall|f: int| 0 <= f < self.rows@.len() ==> (#[trigger] r.rows@[f])@
                == self.rows@[f]@.subrange(from as int, to as int),
            forall|b: int| self.bounded(b) ==> #[trigger] r.bounded(b),
    {
        let mut rows: Vec<Vec<i64>> = Vec::new();
        let mut f: usize = 0;
        while f < self.rows.len()
            invariant
                self.wf(),
                from <= to <= self.n_samples,
                0 <= f <= self.rows@.len(),
                rows@.len() == f,
                forall|i: int| 0 <= i < f ==> (#[trigger] rows@[i])@
                    == self.rows@[i]@.subrange(from as int, to as int),
            decreases self.rows@.len() - f,
        {
            let mut row: Vec<i64> = Vec::new();
            let mut j: usize = from;
            while j < to
                invariant
                    self.wf(),
                    0 <= f < self.rows@.len(),
                    from <= j <= to <= self.n_samples,
                    row@.len() == j - from,
                    forall|k: int| 0 <= k < row@.len() ==> #[trigger] row@[k]
                        == self.rows@[f as int]@[from + k],
                decreases to - j,
            {
                row.push(self.rows[f][j]);
                j = j + 1;
            }
            proof {
                assert(row@ =~= self.rows@[f as int]@.subrange(from as int, to as int));
            }
            rows.push(row);
            f = f + 1;
        }
        let r = Matrix { rows, n_samples: to - from };
        proof {
            assert forall|b: int| self.bounded(b) implies #[trigger] r.bounded(b) by {
                assert forall|f: int| 0 <= f < r.rows@.len() implies all_within(
                    (#[trigger] r.rows@[f])@,
                    b,
                ) by {
                    assert(all_within(self.rows@[f]@, b));
                    assert(forall|i: int|
                        0 <= i < r.rows@[f]@.len() ==> #[trigger] r.rows@[f]@[i]
                            == self.rows@[f]@[from + i]);
                }
            }
        }
        r
    }
}

/// The window `[from, to)` of a vector.
pub fn slice_vec(xs: &Vec<i64>, from: usize, to: usize) -> (r: Vec<i64>)
    requires
        from <= to <= xs@.len(),
    ensures
        r@ == xs@.subrange(from as int, to as int),
        forall|b: int| all_within(xs@, b) ==> #[trigger] all_within(r@, b),
{
    let mut r: Vec<i64> = Vec::new();
    let mut j: usize = from;
    while j < to
        invariant
            from <= j <= to <= xs@.len(),
            r@.len() == j - from,
            forall|i: int| 0 <= i < r@.len() ==> #[trigger] r@[i] == xs@[from + i],
        decreases to - j,
    {
        r.push(xs[j]);
        j = j + 1;
    }
    proof {
        assert(r@ =~= xs@.subrange(from as int, to as int));
        assert forall|b: int| all_within(xs@, b) implies #[trigger] all_within(r@, b) by {
            assert(forall|i: int| 0 <= i < r@.len() ==> #[trigger] r@[i] == xs@[from + i]);
        }
    }
    r
}

/// The subsequence of `s` picked out by the index list `idx`, in order.
pub open spec fn select_vals(s: Seq<i64>, idx: Seq<usize>) -> Seq<i64> {
    Seq::new(idx.len(), |k: int| s[idx[k] as int])
}

/// All indices in `idx` address into a sequence of length `n`.
pub open spec fn indices_ok(idx: Seq<usize>, n: int) -> bool {
    forall|k: int| 0 <= k < idx.len() ==> (#[trigger] idx[k]) < n
}

/// Gathers `xs` at the positions in `idx`.
pub fn gather(xs: &Vec<i64>, idx: &Vec<usize>) -> (r: Vec<i64>)
    requires
        indices_ok(idx@, xs@.len() as int),
    ensures
        r@ == select_vals(xs@, idx@),
{
    let mut r: Vec<i64> = Vec::new();
    let mut k: usize = 0;
    while k < idx.len()
        invariant
            indices_ok(idx@, xs@.len() as int),
            0 <= k <= idx@.len(),
            r@.len() == k,
            forall|i: int| 0 <= i < k ==> #[trigger] r@[i] == xs@[idx@[i] as int],
        decreases idx@.len() - k,
    {
        r.push(xs[idx[k]]);
        k = k + 1;
    }
    proof {
        assert(r@ =~= select_vals(xs@, idx@));
    }
    r
}

} // verus!
