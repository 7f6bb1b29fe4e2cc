//! Gradient boosting over decision trees: sequential residual fitting with
//! shrinkage.
//!
//! `fit` stores the target's mean as a bias and then fits trees round by
//! round to a shrinking residual. `predict` adds the shrunk sum of all
//! members' predictions to the bias; with no members the model is
//! bias-only. The final round's predictions never reduce the residual, yet
//! prediction shrinks every member uniformly — that asymmetry is kept
//! deliberately.

use vstd::prelude::*;
use vstd::arithmetic::div_mod::lemma_div_of0;
use crate::array::Matrix;
use crate::error::ModelError;
use crate::numerics::{all_within, div_trunc, div_trunc_i128, lemma_mean_between, mean, mean_i64};
use crate::random::RandomSource;
use crate::tree::{DecisionTreeImpl, TreeParameters, MAX_TREE_DEPTH};
use crate::{RESIDUAL_BOUND, SAMPLES_BOUND, VALUE_BOUND};

verus! {

/// Default number of boosting rounds.
pub const DEFAULT_GBM_N_ESTIMATORS: u32 = 100;

/// A shrinkage factor `num / den`, at most one.
#[derive(Clone, Copy, Debug, PartialEq, Eq, Structural)]
pub struct LearningRate {
    /// Numerator.
    pub num: u32,
    /// Denominator; positive and at least the numerator.
    pub den: u32,
}

impl LearningRate {
    /// A factor in `[0, 1]`: `num / den`.
    pub open spec fn wf(&self) -> bool {
        1 <= self.den && self.num <= self.den
    }

    /// Builds `num / den`; the factor may not exceed one.
    pub fn new(num: u32, den: u32) -> (r: Self)
        requires
            1 <= den,
            num <= den,
        ensures
            r.num == num,
            r.den == den,
            r.wf(),
    {
        LearningRate { num, den }
    }
}

/// The default shrinkage factor, one tenth.
pub fn default_learning_rate() -> (r: LearningRate)
    ensures
        r.num == 1,
        r.den == 10,
        r.wf(),
{
    LearningRate { num: 1, den: 10 }
}

/// `x` scaled by the factor, with truncating division.
pub open spec fn scale_of(lr: LearningRate, x: int) -> int {
    div_trunc(x * lr.num, lr.den as int)
}

/// Scaling zero gives zero.
pub proof fn lemma_scale_zero(lr: LearningRate)
    requires
        lr.wf(),
    ensures
        scale_of(lr, 0) == 0,
{
    assert(0 * lr.num == 0) by (nonlinear_arith);
    lemma_div_of0(lr.den as int);
}

/// Scales an `i128` accumulator by the factor.
fn scale_i128(lr: LearningRate, x: i128) -> (r: i128)
    requires
        lr.wf(),
        -0x1_0000_0000_0000_0000_0000 <= x <= 0x1_0000_0000_0000_0000_0000,
    ensures
        r as int == scale_of(lr, x as int),
        (x >= 0 ==> 0 <= r <= x) && (x < 0 ==> x <= r <= 0),
{
    proof {
        assert(-0x1_0000_0000_0000_0000_0000 * 0x1_0000_0000 <= (x as int) * (lr.num as int)
            <= 0x1_0000_0000_0000_0000_0000 * 0x1_0000_0000) by (nonlinear_arith)
            requires
                -0x1_0000_0000_0000_0000_0000 <= x as int <= 0x1_0000_0000_0000_0000_0000,
                0 <= lr.num as int <= 0x1_0000_0000,
        ;
    }
    let prod: i128 = x * lr.num as i128;
    let r = div_trunc_i128(prod, lr.den as i128);
    proof {
        let n = lr.num as int;
        let d = lr.den as int;
        if x >= 0 {
            assert(d * 0 <= (x as int) * n <= d * (x as int)) by (nonlinear_arith)
                requires
                    x >= 0,
                    0 <= n <= d,
            ;
            crate::numerics::lemma_div_trunc_between((x as int) * n, d, 0, x as int);
        } else {
            assert(d * (x as int) <= (x as int) * n <= d * 0) by (nonlinear_arith)
                requires
                    x < 0,
                    0 <= n <= d,
                    1 <= d,
            ;
            crate::numerics::lemma_div_trunc_between((x as int) * n, d, x as int, 0);
        }
    }
    r
}

/// Scales an `i64` value by the factor.
pub fn scale_i64(lr: LearningRate, x: i64) -> (r: i64)
    requires
        lr.wf(),
    ensures
        r as int == scale_of(lr, x as int),
        (x >= 0 ==> 0 <= r <= x) && (x < 0 ==> x <= r <= 0),
{
    let r = scale_i128(lr, x as i128);
    r as i64
}

/// Gradient-boosting configuration: the base trees' parameters, the round
/// count and the shrinkage factor.
#[derive(Clone, Copy, Debug, PartialEq, Eq, Structural)]
pub struct GradientBoostingParameters {
    /// Configuration for every base tree.
    pub est_params: TreeParameters,
    /// How many trees to fit.
    pub n_estimators: u32,
    /// The shrinkage factor applied to every member's contribution.
    pub learning_rate: LearningRate,
}

impl GradientBoostingParameters {
    /// The factor is a real factor and the trees stay allocatable.
    pub open spec fn wf(&self) -> bool {
        &&& self.learning_rate.wf()
        &&& self.est_params.depth <= MAX_TREE_DEPTH
    }

    /// Fills omitted fields with the defaults: 100 rounds, factor one tenth.
    pub fn new(
        est_params: TreeParameters,
        n_estimators: Option<u32>,
        learning_rate: Option<LearningRate>,
    ) -> (r: Self)
        ensures
            r.est_params == est_params,
            r.n_estimators == match n_estimators {
                Some(n) => n,
                None => DEFAULT_GBM_N_ESTIMATORS,
            },
            r.learning_rate == match learning_rate {
                Some(lr) => lr,
                None => LearningRate { num: 1, den: 10 },
            },
    {
        GradientBoostingParameters {
            est_params,
            n_estimators: match n_estimators {
                Some(n) => n,
                None => DEFAULT_GBM_N_ESTIMATORS,
            },
            learning_rate: match learning_rate {
                Some(lr) => lr,
                None => default_learning_rate(),
            },
        }
    }
}

/// The bias a fit stores: the target's mean, or zero for an empty target.
pub open spec fn bias_of(tgt: Seq<i64>) -> int {
    if tgt.len() == 0 {
        0
    } else {
        mean(tgt)
    }
}

/// A gradient-boosted ensemble of decision trees.
pub struct GradientBoostingImpl {
    /// Configuration.
    pub params: GradientBoostingParameters,
    /// The fitted trees, in round order.
    pub estimators: Vec<DecisionTreeImpl>,
    /// The bias: the mean of the fitted target.
    pub mean: i64,
    /// Whether a fit has completed since construction.
    pub fitted: bool,
    /// The feature count of the matrix the model was fitted on.
    pub n_features: usize,
}

impl GradientBoostingImpl {
    /// Every member is a well-formed fitted tree over the same features, and
    /// the bias is a bounded input mean.
    pub open spec fn wf(&self) -> bool {
        &&& self.params.wf()
        &&& -VALUE_BOUND <= self.mean <= VALUE_BOUND
        &&& self.estimators@.len() == self.params.n_estimators
        &&& forall|k: int|
            0 <= k < self.estimators@.len() ==> {
                &&& (#[trigger] self.estimators@[k]).wf()
                &&& self.estimators@[k].n_features == self.n_features
                &&& self.estimators@[k].fitted
            }
    }

    /// The sum of the first `k` members' predictions for sample `j`.
    pub open spec fn predict_sum(&self, cols: Seq<Seq<i64>>, j: int, k: int) -> int
        decreases k,
    {
        if k <= 0 {
            0
        } else {
            self.predict_sum(cols, j, k - 1) + self.estimators@[k - 1].predict_val(cols, j)
        }
    }

    /// The model's prediction for sample `j`: the bias plus the shrunk sum of
    /// every member's prediction.
    pub open spec fn predict_val(&self, cols: Seq<Seq<i64>>, j: int) -> int {
        self.mean + scale_of(
            self.params.learning_rate,
            self.predict_sum(cols, j, self.estimators@.len() as int),
        )
    }

    /// A model with no members predicts its bias everywhere.
    pub proof fn lemma_bias_only_predict(&self, cols: Seq<Seq<i64>>, j: int)
        requires
            self.params.wf(),
            self.estimators@.len() == 0,
        ensures
            self.predict_val(cols, j) == self.mean as int,
    {
        lemma_scale_zero(self.params.learning_rate);
    }

    /// A model fitted with estimator count zero is bias-only: `fit` stores the
    /// target's mean as the bias, and the prediction for every sample of any
    /// input equals that mean — the constant vector `predict` then returns.
    pub proof fn lemma_zero_rounds_predicts_bias(&self, tgt: Seq<i64>, cols: Seq<Seq<i64>>)
        requires
            self.wf(),
            self.params.n_estimators == 0,
            self.mean as int == bias_of(tgt),
        ensures
            forall|j: int| #[trigger] self.predict_val(cols, j) == bias_of(tgt),
    {
        assert forall|j: int| #[trigger] self.predict_val(cols, j) == bias_of(tgt) by {
            self.lemma_bias_only_predict(cols, j);
        }
    }

    /// Prediction is a function of the fitted state and the input alone: two
    /// prediction vectors that agree with `predict`'s contract on the same
    /// model and matrix are identical, so repeated calls return identical
    /// outputs.
    pub proof fn lemma_predict_deterministic(
        &self,
        cols: Seq<Seq<i64>>,
        v1: Seq<i64>,
        v2: Seq<i64>,
    )
        requires
            v1.len() == v2.len(),
            forall|j: int|
                0 <= j < v1.len() ==> #[trigger] v1[j] as int == self.predict_val(cols, j),
            forall|j: int|
                0 <= j < v2.len() ==> #[trigger] v2[j] as int == self.predict_val(cols, j),
        ensures
            v1 == v2,
    {
        assert(v1 =~= v2);
    }

    /// An unfitted model with the given configuration.
    pub fn new(params: GradientBoostingParameters) -> (r: Self)
        ensures
            r.params == params,
            r.estimators@.len() == 0,
            r.mean == 0,
            !r.fitted,
    {
        GradientBoostingImpl {
            params,
            estimators: Vec::new(),
            mean: 0,
            fitted: false,
            n_features: 0,
        }
    }

    /// Fits the model: stores the target's mean as the bias and fits one tree
    /// per round to the running residual, shrinking the residual by the
    /// scaled predictions after every round but the last. Fails fast with
    /// `DimensionMismatch` on a sample-count disagreement; reports
    /// `NumericOverflow` and leaves the model unfitted if a residual leaves
    /// the representable range.
    pub fn fit(
        &mut self,
        columns: &Matrix,
        target: &Vec<i64>,
        rng: &mut RandomSource,
    ) -> (r: Result<(), ModelError>)
        requires
            columns.wf(),
            columns.bounded(VALUE_BOUND as int),
            all_within(target@, VALUE_BOUND as int),
            columns.n_samples <= SAMPLES_BOUND,
            old(self).params.wf(),
        ensures
            final(self).params == old(self).params,
            target@.len() != columns.n_samples ==> (r matches Err(e) && e
                == ModelError::DimensionMismatch),
            target@.len() == columns.n_samples ==> (r is Ok || (r matches Err(e) && e
                == ModelError::NumericOverflow)),
            (target@.len() == columns.n_samples && (old(self).params.n_estimators == 0
                || columns.n_samples == 0)) ==> r is Ok,
            r is Ok ==> {
                &&& final(self).wf()
                &&& final(self).fitted
                &&& final(self).n_features == columns.rows@.len()
                &&& final(self).mean as int == bias_of(target@)
                &&& forall|k: int|
                    0 <= k < final(self).estimators@.len()
                        ==> (#[trigger] final(self).estimators@[k]).params
                        == old(self).params.est_params
            },
            r is Err ==> !final(self).fitted,
    {
        self.estimators = Vec::new();
        self.fitted = false;
        self.mean = 0;
        if target.len() != columns.n_samples {
            return Err(ModelError::DimensionMismatch);
        }
        self.n_features = columns.rows.len();

        if target.len() > 0 {
            proof {
                lemma_mean_between(target@, -(VALUE_BOUND as int), VALUE_BOUND as int);
            }
            self.mean = mean_i64(target);
        }
        let bias = self.mean;

        let mut residual: Vec<i64> = Vec::new();
        let mut j: usize = 0;
        while j < target.len()
            invariant
                all_within(target@, VALUE_BOUND as int),
                -VALUE_BOUND <= bias <= VALUE_BOUND,
                0 <= j <= target@.len(),
                residual@.len() == j,
                all_within(residual@, RESIDUAL_BOUND as int),
            decreases target@.len() - j,
        {
            residual.push(target[j] - bias);
            j = j + 1;
        }

        let n_rounds = self.params.n_estimators;
        let lr = self.params.learning_rate;
        let ghost base = *self;
        let mut it: u32 = 0;
        while it < n_rounds
            invariant
                columns.wf(),
                columns.bounded(VALUE_BOUND as int),
                columns.n_samples <= SAMPLES_BOUND,
                target@.len() == columns.n_samples,
                base.params == old(self).params,
                base.params.wf(),
                base.n_features == columns.rows@.len(),
                -VALUE_BOUND <= base.mean <= VALUE_BOUND,
                base.mean as int == bias_of(target@),
                lr == base.params.learning_rate,
                n_rounds == base.params.n_estimators,
                self.params == base.params,
                self.n_features == base.n_features,
                self.mean == base.mean,
                self.fitted == false,
                residual@.len() == columns.n_samples,
                all_within(residual@, RESIDUAL_BOUND as int),
                0 <= it <= n_rounds,
                self.estimators@.len() == it,
                forall|k: int|
                    0 <= k < self.estimators@.len() ==> {
                        &&& (#[trigger] self.estimators@[k]).wf()
                        &&& self.estimators@[k].n_features == self.n_features
                        &&& self.estimators@[k].fitted
                        &&& self.estimators@[k].params == base.params.est_params
                    },
            decreases n_rounds - it,
        {
            let mut est = DecisionTreeImpl::new(self.params.est_params);
            let fit_res = est.fit(columns, &residual, rng);
            proof {
                assert(fit_res is Ok);
            }
            let preds = match est.predict(columns) {
                Ok(p) => p,
                Err(_) => unreached(),
            };
            if it != n_rounds - 1 {
                let ghost est_g = est;
                let ghost frame = *self;
                let mut j2: usize = 0;
                let mut next_res: Vec<i64> = Vec::new();
                while j2 < residual.len()
                    invariant
                        *self == frame,
                        frame.params == old(self).params,
                        frame.params.wf(),
                        frame.params.n_estimators >= 1,
                        target@.len() == columns.n_samples,
                        residual@.len() == columns.n_samples,
                        lr == frame.params.learning_rate,
                        columns.wf(),
                        est_g.wf(),
                        preds@.len() == residual@.len(),
                        forall|i: int|
                            0 <= i < preds@.len() ==> #[trigger] preds@[i] == est_g.predict_val(
                                columns.vals(),
                                i,
                            ),
                        all_within(residual@, RESIDUAL_BOUND as int),
                        0 <= j2 <= residual@.len(),
                        next_res@.len() == j2,
                        all_within(next_res@, RESIDUAL_BOUND as int),
                    decreases residual@.len() - j2,
                {
                    proof {
                        est_g.lemma_predict_bounded(columns.vals(), j2 as int);
                    }
                    let shrunk = scale_i64(lr, preds[j2]);
                    let nv = residual[j2] - shrunk;
                    if nv < -RESIDUAL_BOUND || nv > RESIDUAL_BOUND {
                        self.estimators = Vec::new();
                        self.fitted = false;
                        return Err(ModelError::NumericOverflow);
                    }
                    next_res.push(nv);
                    j2 = j2 + 1;
                }
                residual = next_res;
            }
            self.estimators.push(est);
            it = it + 1;
        }
        let ghost built = *self;
        self.fitted = true;
        proof {
            assert forall|k: int| 0 <= k < self.estimators@.len() implies {
                &&& (#[trigger] self.estimators@[k]).wf()
                &&& self.estimators@[k].n_features == self.n_features
                &&& self.estimators@[k].fitted
                &&& self.estimators@[k].params == old(self).params.est_params
            } by {
                assert(built.estimators@[k].wf());
                assert(built.estimators@[k].n_features == built.n_features);
                assert(built.estimators@[k].fitted);
                assert(built.estimators@[k].params == base.params.est_params);
            }
        }
        Ok(())
    }

    /// Predicts one value per sample: the bias plus the shrunk sum of every
    /// member's prediction. Succeeds exactly when every such value fits a
    /// 64-bit tick.
    pub fn predict(&self, columns: &Matrix) -> (r: Result<Vec<i64>, ModelError>)
        requires
            columns.wf(),
            self.fitted ==> self.wf(),
        ensures
            !self.fitted ==> (r matches Err(e) && e == ModelError::UnconfiguredModel),
            self.fitted && columns.rows@.len() != self.n_features ==> (r matches Err(e) && e
                == ModelError::DimensionMismatch),
            self.fitted && columns.rows@.len() == self.n_features ==> {
                &&& (r is Ok <==> forall|j: int|
                    0 <= j < columns.n_samples ==> i64::MIN <= #[trigger] self.predict_val(
                        columns.vals(),
                        j,
                    ) <= i64::MAX)
                &&& (r matches Ok(v) ==> v@.len() == columns.n_samples && (forall|j: int|
                    0 <= j < v@.len() ==> #[trigger] v@[j] as int == self.predict_val(
                        columns.vals(),
                        j,
                    )))
                &&& (r is Err ==> (r matches Err(e) && e == ModelError::NumericOverflow))
            },
    {
        if !self.fitted {
            return Err(ModelError::UnconfiguredModel);
        }
        if columns.rows.len() != self.n_features {
            return Err(ModelError::DimensionMismatch);
        }
        let ghost cols = columns.vals();
        let n = columns.n_samples;
        let n_members = self.estimators.len();

        let mut sums: Vec<i128> = Vec::new();
        let mut j: usize = 0;
        while j < n
            invariant
                0 <= j <= n,
                sums@.len() == j,
                forall|i: int| 0 <= i < j ==> #[trigger] sums@[i] == 0,
            decreases n - j,
        {
            sums.push(0);
            j = j + 1;
        }
        proof {
            assert(forall|i: int|
                0 <= i < n ==> #[trigger] sums@[i] as int == self.predict_sum(cols, i, 0));
        }

        let mut k: usize = 0;
        while k < n_members
            invariant
                columns.wf(),
                self.wf(),
                cols == columns.vals(),
                self.n_features == columns.rows@.len(),
                n == columns.n_samples,
                n_members == self.estimators@.len(),
                0 <= k <= n_members,
                sums@.len() == n,
                forall|i: int|
                    0 <= i < n ==> #[trigger] sums@[i] as int == self.predict_sum(
                        cols,
                        i,
                        k as int,
                    ),
                forall|i: int|
                    0 <= i < n ==> -((k as int) * RESIDUAL_BOUND) <= #[trigger] sums@[i] as int
                        <= (k as int) * RESIDUAL_BOUND,
            decreases n_members - k,
        {
            let preds = match self.estimators[k].predict(columns) {
                Ok(p) => p,
                Err(_) => unreached(),
            };
            let ghost sums_before = sums@;
            let mut i: usize = 0;
            while i < n
                invariant
                    columns.wf(),
                    self.wf(),
                    cols == columns.vals(),
                    n == columns.n_samples,
                    n_members == self.estimators@.len(),
                    0 <= k < n_members,
                    preds@.len() == n,
                    forall|i2: int|
                        0 <= i2 < n ==> #[trigger] preds@[i2] == self.estimators@[
                            k as int
                        ].predict_val(cols, i2),
                    0 <= i <= n,
                    sums@.len() == n,
                    forall|i2: int| i <= i2 < n ==> #[trigger] sums@[i2] == sums_before[i2],
                    forall|i2: int|
                        i <= i2 < n ==> #[trigger] sums_before[i2] as int == self.predict_sum(
                            cols,
                            i2,
                            k as int,
                        ),
                    forall|i2: int|
                        i <= i2 < n ==> -((k as int) * RESIDUAL_BOUND)
                            <= #[trigger] sums_before[i2] as int <= (k as int) * RESIDUAL_BOUND,
                    forall|i2: int|
                        0 <= i2 < i ==> #[trigger] sums@[i2] as int == self.predict_sum(
                            cols,
                            i2,
                            k as int + 1,
                        ),
                    forall|i2: int|
                        0 <= i2 < i ==> -((k as int + 1) * RESIDUAL_BOUND)
                            <= #[trigger] sums@[i2] as int <= (k as int + 1) * RESIDUAL_BOUND,
                decreases n - i,
            {
                proof {
                    self.estimators@[k as int].lemma_predict_bounded(cols, i as int);
                    assert(((k as int) + 1) * RESIDUAL_BOUND == (k as int) * RESIDUAL_BOUND
                        + RESIDUAL_BOUND) by (nonlinear_arith);
                    assert((k as int) * RESIDUAL_BOUND <= 0x1_0000_0000 * RESIDUAL_BOUND)
                        by (nonlinear_arith)
                        requires
                            0 <= k as int <= 0x1_0000_0000,
                    ;
                }
                let s = sums[i] + preds[i] as i128;
                sums[i] = s;
                i = i + 1;
            }
            k = k + 1;
        }

        let mut out: Vec<i64> = Vec::new();
        let mut j2: usize = 0;
        while j2 < n
            invariant
                columns.wf(),
                self.wf(),
                self.fitted,
                self.n_features == columns.rows@.len(),
                cols == columns.vals(),
                n == columns.n_samples,
                n_members == self.estimators@.len(),
                sums@.len() == n,
                forall|i: int|
                    0 <= i < n ==> #[trigger] sums@[i] as int == self.predict_sum(
                        cols,
                        i,
                        n_members as int,
                    ),
                forall|i: int|
                    0 <= i < n ==> -((n_members as int) * RESIDUAL_BOUND)
                        <= #[trigger] sums@[i] as int <= (n_members as int) * RESIDUAL_BOUND,
                0 <= j2 <= n,
                out@.len() == j2,
                forall|i: int|
                    0 <= i < j2 ==> #[trigger] out@[i] as int == self.predict_val(cols, i),
                forall|i: int|
                    0 <= i < j2 ==> i64::MIN <= #[trigger] self.predict_val(cols, i) <= i64::MAX,
            decreases n - j2,
        {
            proof {
                assert((n_members as int) * RESIDUAL_BOUND <= 0x1_0000_0000 * RESIDUAL_BOUND)
                    by (nonlinear_arith)
                    requires
                        0 <= n_members as int <= 0x1_0000_0000,
                ;
            }
            let scaled = scale_i128(self.params.learning_rate, sums[j2]);
            let acc: i128 = self.mean as i128 + scaled;
            if acc < i64::MIN as i128 || acc > i64::MAX as i128 {
                proof {
                    assert(acc as int == self.predict_val(cols, j2 as int));
                    assert(!(i64::MIN <= self.predict_val(cols, j2 as int) <= i64::MAX));
                }
                return Err(ModelError::NumericOverflow);
            }
            out.push(acc as i64);
            j2 = j2 + 1;
        }
        Ok(out)
    }
}

} // verus!
