//! The averaging ensemble: independently trained, identically configured
//! gradient-boosting members combined by column-wise mean.
//!
//! Members are fitted one by one on the identical data; result rows are
//! placed by member index, so the output is deterministic for a fitted
//! model.

use vstd::prelude::*;
use crate::array::Matrix;
use crate::boosting::GradientBoostingImpl;
use crate::boosting::GradientBoostingParameters;
use crate::error::ModelError;
use crate::numerics::{all_within, mean, mean_i64};
use crate::random::RandomSource;
use crate::{SAMPLES_BOUND, VALUE_BOUND};

verus! {

/// Row `j` of the transposed prediction matrix: every member's value for
/// sample `j`.
pub open spec fn column_of(m: Seq<Seq<i64>>, j: int) -> Seq<i64> {
    Seq::new(m.len(), |k: int| m[k][j])
}

/// An ensemble whose prediction is the column-wise mean of its members'
/// predictions.
pub struct AverageEnsemble {
    /// The members, in construction order.
    pub estimators: Vec<GradientBoostingImpl>,
    /// Whether a fit has completed since construction.
    pub fitted: bool,
    /// The feature count of the matrix the ensemble was fitted on.
    pub n_features: usize,
}

impl AverageEnsemble {
    /// Every member is well formed over the same features; a fitted ensemble
    /// has only fitted members.
    pub open spec fn wf(&self) -> bool {
        &&& 1 <= self.estimators@.len() <= 0x1_0000_0000
        &&& forall|k: int|
            0 <= k < self.estimators@.len() ==> {
                &&& (#[trigger] self.estimators@[k]).params.wf()
                &&& (self.fitted ==> self.estimators@[k].wf()
                    && self.estimators@[k].n_features == self.n_features
                    && self.estimators@[k].fitted)
            }
    }

    /// The member predictions for sample `j`, as tick values; faithful where
    /// every member's prediction is in range.
    pub open spec fn member_col(&self, cols: Seq<Seq<i64>>, j: int) -> Seq<i64> {
        Seq::new(self.estimators@.len(), |k: int| self.estimators@[k].predict_val(cols, j) as i64)
    }

    /// The ensemble's prediction for sample `j`: the mean of its members'.
    pub open spec fn combined_val(&self, cols: Seq<Seq<i64>>, j: int) -> int {
        mean(self.member_col(cols, j))
    }

    /// Prediction is a function of the fitted state and the input alone: two
    /// prediction vectors that agree with `predict`'s contract on the same
    /// ensemble and matrix are identical, so repeated calls return identical
    /// outputs.
    pub proof fn lemma_predict_deterministic(
        &self,
        cols: Seq<Seq<i64>>,
        v1: Seq<i64>,
        v2: Seq<i64>,
    )
        requires
            v1.len() == v2.len(),
            forall|j: int|
                0 <= j < v1.len() ==> #[trigger] v1[j] as int == self.combined_val(cols, j),
            forall|j: int|
                0 <= j < v2.len() ==> #[trigger] v2[j] as int == self.combined_val(cols, j),
        ensures
            v1 == v2,
    {
        assert(v1 =~= v2);
    }

    /// `width` identically configured, unfitted members.
    pub fn make(width: u32, params: GradientBoostingParameters) -> (r: Self)
        requires
            width >= 1,
        ensures
            r.estimators@.len() == width,
            forall|k: int|
                0 <= k < r.estimators@.len() ==> (#[trigger] r.estimators@[k]).params == params
                    && !r.estimators@[k].fitted,
            !r.fitted,
            params.wf() ==> r.wf(),
    {
        let mut estimators: Vec<GradientBoostingImpl> = Vec::new();
        let mut k: u32 = 0;
        while k < width
            invariant
                0 <= k <= width,
                estimators@.len() == k,
                forall|i: int|
                    0 <= i < k ==> (#[trigger] estimators@[i]).params == params
                        && !estimators@[i].fitted,
            decreases width - k,
        {
            estimators.push(GradientBoostingImpl::new(params));
            k = k + 1;
        }
        AverageEnsemble { estimators, fitted: false, n_features: 0 }
    }

    /// Fits every member on the identical data, in member order. Fails fast
    /// with `DimensionMismatch`; reports `NumericOverflow` and leaves the
    /// ensemble unfitted if any member's training overflows.
    pub fn fit(
        &mut self,
        columns: &Matrix,
        target: &Vec<i64>,
        rng: &mut RandomSource,
    ) -> (r: Result<(), ModelError>)
        requires
            columns.wf(),
            columns.bounded(VALUE_BOUND as int),
            all_within(target@, VALUE_BOUND as int),
            columns.n_samples <= SAMPLES_BOUND,
            old(self).wf(),
        ensures
            target@.len() != columns.n_samples ==> (r matches Err(e) && e
                == ModelError::DimensionMismatch),
            target@.len() == columns.n_samples ==> (r is Ok || (r matches Err(e) && e
                == ModelError::NumericOverflow)),
            (target@.len() == columns.n_samples && (columns.n_samples == 0 || forall|k: int|
                0 <= k < old(self).estimators@.len()
                    ==> (#[trigger] old(self).estimators@[k]).params.n_estimators == 0))
                ==> r is Ok,
            r is Ok ==> {
                &&& final(self).wf()
                &&& final(self).fitted
                &&& final(self).n_features == columns.rows@.len()
                &&& final(self).estimators@.len() == old(self).estimators@.len()
                &&& forall|k: int|
                    0 <= k < final(self).estimators@.len()
                        ==> (#[trigger] final(self).estimators@[k]).params
                        == old(self).estimators@[k].params
            },
            r is Err ==> !final(self).fitted,
    {
        self.fitted = false;
        if target.len() != columns.n_samples {
            return Err(ModelError::DimensionMismatch);
        }
        let width = self.estimators.len();
        let ghost olds = self.estimators@;
        let mut members: Vec<GradientBoostingImpl> = Vec::new();
        let mut k: usize = 0;
        while k < width
            invariant
                columns.wf(),
                columns.bounded(VALUE_BOUND as int),
                all_within(target@, VALUE_BOUND as int),
                columns.n_samples <= SAMPLES_BOUND,
                target@.len() == columns.n_samples,
                self.estimators@ == olds,
                olds == old(self).estimators@,
                self.fitted == false,
                width == olds.len(),
                1 <= width <= 0x1_0000_0000,
                forall|i: int| 0 <= i < width ==> (#[trigger] olds[i]).params.wf(),
                0 <= k <= width,
                members@.len() == k,
                forall|i: int|
                    0 <= i < k ==> {
                        &&& (#[trigger] members@[i]).wf()
                        &&& members@[i].fitted
                        &&& members@[i].n_features == columns.rows@.len()
                        &&& members@[i].params == olds[i].params
                    },
            decreases width - k,
        {
            let mut m = GradientBoostingImpl::new(self.estimators[k].params);
            match m.fit(columns, target, rng) {
                Ok(()) => {},
                Err(_) => {
                    proof {
                        assert(m.params == olds[k as int].params);
                        assert(m.params.n_estimators != 0 && columns.n_samples != 0);
                    }
                    return Err(ModelError::NumericOverflow);
                },
            }
            members.push(m);
            k = k + 1;
        }
        self.estimators = members;
        self.n_features = columns.rows.len();
        self.fitted = true;
        proof {
            assert forall|i: int| 0 <= i < self.estimators@.len() implies {
                &&& (#[trigger] self.estimators@[i]).params.wf()
                &&& self.estimators@[i].wf()
                &&& self.estimators@[i].n_features == self.n_features
                &&& self.estimators@[i].fitted
            } by {}
        }
        Ok(())
    }

    /// Every member's predictions, one row per member, rows in member order.
    /// Succeeds exactly when every member's every prediction fits a tick.
    pub fn predict_all(&self, columns: &Matrix) -> (r: Result<Vec<Vec<i64>>, ModelError>)
        requires
            columns.wf(),
            self.wf(),
        ensures
            !self.fitted ==> (r matches Err(e) && e == ModelError::UnconfiguredModel),
            self.fitted && columns.rows@.len() != self.n_features ==> (r matches Err(e) && e
                == ModelError::DimensionMismatch),
            self.fitted && columns.rows@.len() == self.n_features ==> {
                &&& (r is Ok <==> forall|k: int, j: int|
                    0 <= k < self.estimators@.len() && 0 <= j < columns.n_samples ==> i64::MIN
                        <= #[trigger] self.estimators@[k].predict_val(columns.vals(), j)
                        <= i64::MAX)
                &&& (r matches Ok(m) ==> {
                    &&& m@.len() == self.estimators@.len()
                    &&& forall|k: int|
                        0 <= k < m@.len() ==> (#[trigger] m@[k])@.len() == columns.n_samples
                    &&& forall|k: int, j: int|
                        0 <= k < m@.len() && 0 <= j < columns.n_samples
                            ==> (#[trigger] m@[k]@[j]) as int == self.estimators@[k].predict_val(
                            columns.vals(),
                            j,
                        )
                })
                &&& (r is Err ==> (r matches Err(e) && e == ModelError::NumericOverflow))
            },
    {
        if !self.fitted {
            return Err(ModelError::UnconfiguredModel);
        }
        if columns.rows.len() != self.n_features {
            return Err(ModelError::DimensionMismatch);
        }
        let ghost cols = columns.vals();
        let width = self.estimators.len();
        let mut rows: Vec<Vec<i64>> = Vec::new();
        let mut k: usize = 0;
        while k < width
            invariant
                columns.wf(),
                self.wf(),
                self.fitted,
                self.n_features == columns.rows@.len(),
                cols == columns.vals(),
                width == self.estimators@.len(),
                0 <= k <= width,
                rows@.len() == k,
                forall|i: int|
                    0 <= i < k ==> (#[trigger] rows@[i])@.len() == columns.n_samples,
                forall|i: int, j: int|
                    0 <= i < k && 0 <= j < columns.n_samples ==> (#[trigger] rows@[i]@[j]) as int
                        == self.estimators@[i].predict_val(cols, j),
                forall|i: int, j: int|
                    0 <= i < k && 0 <= j < columns.n_samples ==> i64::MIN
                        <= #[trigger] self.estimators@[i].predict_val(cols, j) <= i64::MAX,
            decreases width - k,
        {
            match self.estimators[k].predict(columns) {
                Ok(p) => {
                    rows.push(p);
                },
                Err(_) => {
                    return Err(ModelError::NumericOverflow);
                },
            }
            k = k + 1;
        }
        Ok(rows)
    }

    /// Reduces a prediction matrix to one vector: the column-wise mean, each
    /// column truncated toward zero.
    pub fn predict_by_all(&self, preds: &Vec<Vec<i64>>, n_samples: usize) -> (r: Vec<i64>)
        requires
            preds@.len() >= 1,
            forall|k: int| 0 <= k < preds@.len() ==> (#[trigger] preds@[k])@.len() == n_samples,
        ensures
            r@.len() == n_samples,
            forall|j: int|
                0 <= j < n_samples ==> #[trigger] r@[j] as int == mean(
                    column_of(preds@.map_values(|row: Vec<i64>| row@), j),
                ),
    {
        let ghost m = preds@.map_values(|row: Vec<i64>| row@);
        let width = preds.len();
        let mut out: Vec<i64> = Vec::new();
        let mut j: usize = 0;
        while j < n_samples
            invariant
                width == preds@.len() >= 1,
                m == preds@.map_values(|row: Vec<i64>| row@),
                forall|k: int|
                    0 <= k < preds@.len() ==> (#[trigger] preds@[k])@.len() == n_samples,
                0 <= j <= n_samples,
                out@.len() == j,
                forall|i: int|
                    0 <= i < j ==> #[trigger] out@[i] as int == mean(column_of(m, i)),
            decreases n_samples - j,
        {
            let mut col: Vec<i64> = Vec::new();
            let mut k: usize = 0;
            while k < width
                invariant
                    width == preds@.len(),
                    m == preds@.map_values(|row: Vec<i64>| row@),
                    forall|k2: int|
                        0 <= k2 < preds@.len() ==> (#[trigger] preds@[k2])@.len() == n_samples,
                    0 <= j < n_samples,
                    0 <= k <= width,
                    col@.len() == k,
                    forall|i: int| 0 <= i < k ==> #[trigger] col@[i] == preds@[i]@[j as int],
                decreases width - k,
            {
                col.push(preds[k][j]);
                k = k + 1;
            }
            proof {
                assert(col@ =~= column_of(m, j as int));
            }
            out.push(mean_i64(&col));
            j = j + 1;
        }
        out
    }

    /// Predicts one value per sample: every member predicts, and the results
    /// are combined by column-wise mean. Succeeds exactly when every member's
    /// every prediction fits a tick.
    pub fn predict(&self, columns: &Matrix) -> (r: Result<Vec<i64>, ModelError>)
        requires
            columns.wf(),
            self.wf(),
        ensures
            !self.fitted ==> (r matches Err(e) && e == ModelError::UnconfiguredModel),
            self.fitted && columns.rows@.len() != self.n_features ==> (r matches Err(e) && e
                == ModelError::DimensionMismatch),
            self.fitted && columns.rows@.len() == self.n_features ==> {
                &&& (r is Ok <==> forall|k: int, j: int|
                    0 <= k < self.estimators@.len() && 0 <= j < columns.n_samples ==> i64::MIN
                        <= #[trigger] self.estimators@[k].predict_val(columns.vals(), j)
                        <= i64::MAX)
                &&& (r matches Ok(v) ==> v@.len() == columns.n_samples && (forall|j: int|
                    0 <= j < v@.len() ==> #[trigger] v@[j] as int == self.combined_val(
                        columns.vals(),
                        j,
                    )))
                &&& (r is Err ==> (r matches Err(e) && e == ModelError::NumericOverflow))
            },
    {
        let all = match self.predict_all(columns) {
            Ok(m) => m,
            Err(e) => {
                return Err(e);
            },
        };
        let combined = self.predict_by_all(&all, columns.n_samples);
        proof {
            let cols = columns.vals();
            let m = all@.map_values(|row: Vec<i64>| row@);
            assert forall|j: int| 0 <= j < columns.n_samples implies column_of(m, j)
                =~= self.member_col(cols, j) by {
                assert(forall|k: int|
                    0 <= k < m.len() ==> #[trigger] m[k][j] == all@[k]@[j]);
            }
        }
        Ok(combined)
    }
}

} // verus!
