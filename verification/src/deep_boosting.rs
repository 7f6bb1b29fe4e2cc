//! Deep boosting: a stack of averaging-ensemble layers whose per-member
//! predictions become new input features for the next layer.
//!
//! Each layer's gradient-boosting configuration is chosen by a five-fold
//! cross-validated grid search over tree depth, round count and shrinkage.
//! Layer zero's combined prediction enters the running total unscaled; every
//! later layer's contribution is shrunk by the meta learning rate. Feature
//! rows are appended in layer order, at fit and at predict time alike.

use vstd::prelude::*;
use crate::array::{slice_vec, Matrix};
use crate::boosting::{scale_i64, scale_of, GradientBoostingParameters, LearningRate};
use crate::ensemble::AverageEnsemble;
use crate::error::ModelError;
use crate::estimator::{eval_est_cv, ConstructibleWithArg};
use crate::numerics::all_within;
use crate::random::RandomSource;
use crate::tree::TreeParameters;
use crate::{SAMPLES_BOUND, VALUE_BOUND};

verus! {

/// Default number of layers.
pub const DEFAULT_DGBM_N_ESTIMATORS: u32 = 5;

/// Default number of ensemble members per layer.
pub const DEFAULT_DGBM_LAYER_WIDTH: u32 = 5;

/// How many folds the per-layer grid search evaluates with.
pub const GRID_SEARCH_FOLDS: u8 = 5;

/// Deep-boosting configuration.
#[derive(Clone, Copy, Debug, PartialEq, Eq, Structural)]
pub struct DeepBoostingParameters {
    /// The number of layers.
    pub n_estimators: u32,
    /// The number of ensemble members per layer.
    pub layer_width: u32,
    /// The meta learning rate scaling every layer's contribution but the
    /// first.
    pub learning_rate: LearningRate,
}

impl DeepBoostingParameters {
    /// At least one member per layer, and a real shrinkage factor.
    pub open spec fn wf(&self) -> bool {
        &&& self.learning_rate.wf()
        &&& 1 <= self.layer_width
    }

    /// Fills omitted fields with the defaults: five layers of width five,
    /// meta learning rate one quarter.
    pub fn new(
        n_estimators: Option<u32>,
        layer_width: Option<u32>,
        learning_rate: Option<LearningRate>,
    ) -> (r: Self)
        ensures
            r.n_estimators == match n_estimators {
                Some(n) => n,
                None => DEFAULT_DGBM_N_ESTIMATORS,
            },
            r.layer_width == match layer_width {
                Some(w) => w,
                None => DEFAULT_DGBM_LAYER_WIDTH,
            },
            r.learning_rate == match learning_rate {
                Some(lr) => lr,
                None => LearningRate { num: 1, den: 4 },
            },
    {
        DeepBoostingParameters {
            n_estimators: match n_estimators {
                Some(n) => n,
                None => DEFAULT_DGBM_N_ESTIMATORS,
            },
            layer_width: match layer_width {
                Some(w) => w,
                None => DEFAULT_DGBM_LAYER_WIDTH,
            },
            learning_rate: match learning_rate {
                Some(lr) => lr,
                None => LearningRate::new(1, 4),
            },
        }
    }
}

/// A configuration drawn from the grid search's fixed grid.
pub open spec fn in_grid(p: GradientBoostingParameters) -> bool {
    &&& (p.est_params.depth == 2 || p.est_params.depth == 3 || p.est_params.depth == 5)
    &&& p.est_params.min_samples_split == 2
    &&& (p.n_estimators == 100 || p.n_estimators == 1000)
    &&& (p.learning_rate == LearningRate { num: 1, den: 10 } || p.learning_rate == LearningRate {
        num: 1,
        den: 100,
    })
    &&& p.wf()
}

/// The first index of the smallest score: every score is at least the chosen
/// one, and every earlier score strictly exceeds it.
pub fn select_best(scores: &Vec<i64>) -> (idx: usize)
    requires
        scores@.len() > 0,
    ensures
        0 <= idx < scores@.len(),
        forall|k: int| 0 <= k < scores@.len() ==> #[trigger] scores@[k] >= scores@[idx as int],
        forall|k: int| 0 <= k < idx ==> #[trigger] scores@[k] > scores@[idx as int],
{
    let mut idx: usize = 0;
    let mut k: usize = 1;
    while k < scores.len()
        invariant
            scores@.len() > 0,
            0 <= idx < k <= scores@.len(),
            forall|i: int| 0 <= i < k ==> #[trigger] scores@[i] >= scores@[idx as int],
            forall|i: int| 0 <= i < idx ==> #[trigger] scores@[i] > scores@[idx as int],
        decreases scores@.len() - k,
    {
        if scores[k] < scores[idx] {
            idx = k;
        }
        k = k + 1;
    }
    idx
}

/// Searches the fixed grid — depth in {2, 3, 5}, round count in {100, 1000},
/// shrinkage in {1/10, 1/100} — scoring each configuration with five-fold
/// cross-validation on the given data, and returns the first configuration of
/// minimal score (`select_best`'s contract); a configuration whose evaluation
/// overflows scores worst.
pub fn cv_best_params(columns: &Matrix, target: &Vec<i64>, rng: &mut RandomSource) -> (r:
    GradientBoostingParameters)
    requires
        columns.wf(),
        columns.bounded(VALUE_BOUND as int),
        all_within(target@, VALUE_BOUND as int),
        target@.len() == columns.n_samples,
        columns.n_samples <= SAMPLES_BOUND,
        columns.n_samples >= GRID_SEARCH_FOLDS,
    ensures
        in_grid(r),
{
    let depths: Vec<u8> = vec![2u8, 3u8, 5u8];
    let counts: Vec<u32> = vec![100u32, 1000u32];
    let rate_dens: Vec<u32> = vec![10u32, 100u32];

    let mut combos: Vec<GradientBoostingParameters> = Vec::new();
    let mut scores: Vec<i64> = Vec::new();
    let mut di: usize = 0;
    while di < depths.len()
        invariant
            columns.wf(),
            columns.bounded(VALUE_BOUND as int),
            all_within(target@, VALUE_BOUND as int),
            target@.len() == columns.n_samples,
            columns.n_samples <= SAMPLES_BOUND,
            columns.n_samples >= GRID_SEARCH_FOLDS,
            depths@ == seq![2u8, 3u8, 5u8],
            counts@ == seq![100u32, 1000u32],
            rate_dens@ == seq![10u32, 100u32],
            0 <= di <= 3,
            combos@.len() == scores@.len(),
            combos@.len() == di * 4,
            forall|c: int| 0 <= c < combos@.len() ==> in_grid(#[trigger] combos@[c]),
        decreases depths@.len() - di,
    {
        let mut ci: usize = 0;
        while ci < counts.len()
            invariant
                columns.wf(),
                columns.bounded(VALUE_BOUND as int),
                all_within(target@, VALUE_BOUND as int),
                target@.len() == columns.n_samples,
                columns.n_samples <= SAMPLES_BOUND,
                columns.n_samples >= GRID_SEARCH_FOLDS,
                depths@ == seq![2u8, 3u8, 5u8],
                counts@ == seq![100u32, 1000u32],
                rate_dens@ == seq![10u32, 100u32],
                0 <= di < 3,
                0 <= ci <= 2,
                combos@.len() == scores@.len(),
                combos@.len() == di * 4 + ci * 2,
                forall|c: int| 0 <= c < combos@.len() ==> in_grid(#[trigger] combos@[c]),
            decreases counts@.len() - ci,
        {
            let mut ri: usize = 0;
            while ri < rate_dens.len()
                invariant
                    columns.wf(),
                    columns.bounded(VALUE_BOUND as int),
                    all_within(target@, VALUE_BOUND as int),
                    target@.len() == columns.n_samples,
                    columns.n_samples <= SAMPLES_BOUND,
                    columns.n_samples >= GRID_SEARCH_FOLDS,
                    depths@ == seq![2u8, 3u8, 5u8],
                    counts@ == seq![100u32, 1000u32],
                    rate_dens@ == seq![10u32, 100u32],
                    0 <= di < 3,
                    0 <= ci < 2,
                    0 <= ri <= 2,
                    combos@.len() == scores@.len(),
                    combos@.len() == di * 4 + ci * 2 + ri,
                    forall|c: int| 0 <= c < combos@.len() ==> in_grid(#[trigger] combos@[c]),
                decreases rate_dens@.len() - ri,
            {
                let tree_params = TreeParameters::new(Some(depths[di]), None);
                let params = GradientBoostingParameters::new(
                    tree_params,
                    Some(counts[ci]),
                    Some(LearningRate::new(1, rate_dens[ri])),
                );
                let mut est = crate::boosting::GradientBoostingImpl::new(params);
                let score = match eval_est_cv(&mut est, GRID_SEARCH_FOLDS, columns, target, rng) {
                    Ok(s) => s,
                    Err(_) => i64::MAX,
                };
                combos.push(params);
                scores.push(score);
                ri = ri + 1;
            }
            ci = ci + 1;
        }
        di = di + 1;
    }
    let best = select_best(&scores);
    combos[best]
}

/// The per-member prediction rows of one fitted layer on its feature matrix:
/// one row per member, one entry per sample, in member order.
pub open spec fn member_rows(e: AverageEnsemble, cols: Seq<Seq<i64>>, n: nat) -> Seq<Seq<i64>> {
    Seq::new(
        e.estimators@.len(),
        |k: int| Seq::new(n, |j: int| e.estimators@[k].predict_val(cols, j) as i64),
    )
}

/// The deep-boosting meta-estimator: a sequence of averaging-ensemble layers
/// over a feature matrix that grows by each layer's member predictions.
pub struct DeepBoostingImpl {
    /// Configuration.
    pub params: DeepBoostingParameters,
    /// The fitted layers, in layer order.
    pub estimators: Vec<AverageEnsemble>,
    /// Whether a fit has completed since construction.
    pub fitted: bool,
    /// The feature count of the raw input matrix the model was fitted on.
    pub n_features: usize,
}

impl DeepBoostingImpl {
    /// Every layer is a fitted ensemble of the configured width over the
    /// accordingly grown feature matrix.
    pub open spec fn wf(&self) -> bool {
        &&& self.params.wf()
        &&& self.estimators@.len() <= 0x1_0000_0000
        &&& forall|l: int|
            0 <= l < self.estimators@.len() ==> {
                &&& (#[trigger] self.estimators@[l]).wf()
                &&& self.estimators@[l].fitted
                &&& self.estimators@[l].estimators@.len() == self.params.layer_width
                &&& self.estimators@[l].n_features == self.n_features + l
                    * self.params.layer_width
            }
    }

    /// The feature matrix layer `l` reads: the raw input plus every earlier
    /// layer's member prediction rows, appended in layer order.
    pub open spec fn layer_cols(&self, cols0: Seq<Seq<i64>>, n: nat, l: int) -> Seq<Seq<i64>>
        decreases l,
    {
        if l <= 0 {
            cols0
        } else {
            self.layer_cols(cols0, n, l - 1) + member_rows(
                self.estimators@[l - 1],
                self.layer_cols(cols0, n, l - 1),
                n,
            )
        }
    }

    /// The running total after `l` layers for sample `j`: layer zero's
    /// combined prediction unscaled, every later layer's shrunk by the meta
    /// learning rate.
    pub open spec fn deep_val(&self, cols0: Seq<Seq<i64>>, n: nat, j: int, l: int) -> int
        decreases l,
    {
        if l <= 0 {
            0
        } else if l == 1 {
            self.estimators@[0].combined_val(cols0, j)
        } else {
            self.deep_val(cols0, n, j, l - 1) + scale_of(
                self.params.learning_rate,
                self.estimators@[l - 1].combined_val(self.layer_cols(cols0, n, l - 1), j),
            )
        }
    }

    /// The model's prediction for sample `j` of the raw input.
    pub open spec fn predict_val(&self, cols0: Seq<Seq<i64>>, n: nat, j: int) -> int {
        self.deep_val(cols0, n, j, self.estimators@.len() as int)
    }

    /// Every member of every layer predicts within tick range on its layer's
    /// feature matrix.
    pub open spec fn layers_in_range(&self, cols0: Seq<Seq<i64>>, n: nat) -> bool {
        forall|l: int, k: int, j: int|
            0 <= l < self.estimators@.len() && 0 <= k < self.estimators@[l].estimators@.len() && 0
                <= j < n ==> i64::MIN <= #[trigger] self.estimators@[l].estimators@[k].predict_val(
                self.layer_cols(cols0, n, l),
                j,
            ) <= i64::MAX
    }

    /// A single-layer model's output is exactly layer zero's combined
    /// ensemble prediction: no meta-learning-rate scaling is applied.
    pub proof fn lemma_single_layer(&self, cols0: Seq<Seq<i64>>, n: nat, j: int)
        requires
            self.estimators@.len() == 1,
        ensures
            self.predict_val(cols0, n, j) == self.estimators@[0].combined_val(cols0, j),
    {
    }


    /// Fits the model: layer by layer, finds the best gradient-boosting
    /// configuration for the current features by cross-validated grid search,
    /// fits an ensemble of the configured width with it, appends the
    /// ensemble's member prediction rows as new features, and shrinks the
    /// running target — unscaled after layer zero, by the meta learning rate
    /// after the middle layers, and not at all after the last. Fails fast
    /// with `DimensionMismatch`; reports `NumericOverflow` and leaves the
    /// model unfitted when training values leave the representable range.
    pub fn fit(
        &mut self,
        columns: &Matrix,
        target: &Vec<i64>,
        rng: &mut RandomSource,
    ) -> (r: Result<(), ModelError>)
        requires
            columns.wf(),
            columns.bounded(VALUE_BOUND as int),
            all_within(target@, VALUE_BOUND as int),
            columns.n_samples <= SAMPLES_BOUND,
            columns.n_samples >= GRID_SEARCH_FOLDS,
            old(self).params.wf(),
        ensures
            final(self).params == old(self).params,
            target@.len() != columns.n_samples ==> (r matches Err(e) && e
                == ModelError::DimensionMismatch),
            target@.len() == columns.n_samples ==> (r is Ok || (r matches Err(e) && e
                == ModelError::NumericOverflow)),
            (target@.len() == columns.n_samples && old(self).params.n_estimators == 0) ==> r
                is Ok,
            r is Ok ==> {
                &&& final(self).wf()
                &&& final(self).fitted
                &&& final(self).n_features == columns.rows@.len()
                &&& final(self).estimators@.len() == old(self).params.n_estimators
                &&& forall|l: int, k: int|
                    0 <= l < final(self).estimators@.len() && 0 <= k
                        < final(self).estimators@[l].estimators@.len() ==> in_grid(
                        (#[trigger] final(self).estimators@[l].estimators@[k]).params,
                    )
            },
            r is Err ==> !final(self).fitted,
    {
        self.estimators = Vec::new();
        self.fitted = false;
        if target.len() != columns.n_samples {
            return Err(ModelError::DimensionMismatch);
        }
        self.n_features = columns.rows.len();
        let n = columns.n_samples;
        let mut acc = columns.slice_samples(0, n);
        proof {
            assert forall|f: int| 0 <= f < acc.rows@.len() implies (#[trigger] acc.rows@[f])@
                == columns.rows@[f]@ by {
                assert(acc.rows@[f]@ == columns.rows@[f]@.subrange(0, n as int));
                assert(columns.rows@[f]@.subrange(0, n as int) =~= columns.rows@[f]@);
            }
        }
        let mut cur_target = slice_vec(target, 0, n);
        proof {
            assert(target@.subrange(0, n as int) =~= target@);
        }
        let n_layers = self.params.n_estimators;
        let width = self.params.layer_width;
        let lr = self.params.learning_rate;
        let ghost base = *self;
        let mut it: u32 = 0;
        while it < n_layers
            invariant
                columns.wf(),
                columns.n_samples <= SAMPLES_BOUND,
                columns.n_samples >= GRID_SEARCH_FOLDS,
                n == columns.n_samples,
                target@.len() == columns.n_samples,
                base.params == old(self).params,
                base.params.wf(),
                base.n_features == columns.rows@.len(),
                n_layers == base.params.n_estimators,
                width == base.params.layer_width,
                width >= 1,
                lr == base.params.learning_rate,
                self.params == base.params,
                self.n_features == base.n_features,
                self.fitted == false,
                acc.wf(),
                acc.n_samples == n,
                acc.bounded(VALUE_BOUND as int),
                acc.rows@.len() == base.n_features + (it as int) * width,
                cur_target@.len() == n,
                all_within(cur_target@, VALUE_BOUND as int),
                0 <= it <= n_layers,
                self.estimators@.len() == it,
                forall|l: int|
                    0 <= l < self.estimators@.len() ==> {
                        &&& (#[trigger] self.estimators@[l]).wf()
                        &&& self.estimators@[l].fitted
                        &&& self.estimators@[l].estimators@.len() == width
                        &&& self.estimators@[l].n_features == base.n_features + l * width
                    },
                forall|l: int, k: int|
                    0 <= l < self.estimators@.len() && 0 <= k < self.estimators@[l
                        ].estimators@.len() ==> in_grid(
                        (#[trigger] self.estimators@[l].estimators@[k]).params,
                    ),
            decreases n_layers - it,
        {
            proof {
                assert((it as int) * width >= 0) by (nonlinear_arith)
                    requires
                        it as int >= 0,
                        width as int >= 0,
                ;
                assert((it as int + 1) * width == (it as int) * width + width)
                    by (nonlinear_arith);
            }
            let opt_params = cv_best_params(&acc, &cur_target, rng);
            let mut ensemble = AverageEnsemble::make(width, opt_params);
            match ensemble.fit(&acc, &cur_target, rng) {
                Ok(()) => {},
                Err(_) => {
                    self.estimators = Vec::new();
                    return Err(ModelError::NumericOverflow);
                },
            }
            proof {
                assert(forall|k: int|
                    0 <= k < ensemble.estimators@.len() ==> in_grid(
                        (#[trigger] ensemble.estimators@[k]).params,
                    ));
            }
            let all = match ensemble.predict_all(&acc) {
                Ok(m) => m,
                Err(_) => {
                    self.estimators = Vec::new();
                    return Err(ModelError::NumericOverflow);
                },
            };
            let preds = ensemble.predict_by_all(&all, n);
            let ghost frame = *self;
            let mut k: usize = 0;
            while k < all.len()
                invariant
                    *self == frame,
                    frame.params == old(self).params,
                    frame.params.n_estimators >= 1,
                    frame.fitted == false,
                    target@.len() == columns.n_samples,
                    acc.wf(),
                    acc.n_samples == n,
                    acc.bounded(VALUE_BOUND as int),
                    acc.rows@.len() == base.n_features + (it as int) * width + k,
                    all@.len() == width,
                    forall|k2: int|
                        0 <= k2 < all@.len() ==> (#[trigger] all@[k2])@.len() == n,
                    0 <= k <= all@.len(),
                decreases all@.len() - k,
            {
                let row = slice_vec(&all[k], 0, all[k].len());
                proof {
                    assert(all@[k as int]@.subrange(0, all@[k as int]@.len() as int)
                        =~= all@[k as int]@);
                }
                if !crate::numerics::within_bound(&row, VALUE_BOUND) {
                    self.estimators = Vec::new();
                    return Err(ModelError::NumericOverflow);
                }
                acc.push_row(row);
                proof {
                    assert forall|f: int| 0 <= f < acc.rows@.len() implies all_within(
                        (#[trigger] acc.rows@[f])@,
                        VALUE_BOUND as int,
                    ) by {}
                }
                k = k + 1;
            }
            if it != n_layers - 1 {
                let factor_is_one = it == 0;
                let ghost frame2 = *self;
                let mut next_target: Vec<i64> = Vec::new();
                let mut j: usize = 0;
                while j < n
                    invariant
                        *self == frame2,
                        frame2.params == old(self).params,
                        frame2.params.n_estimators >= 1,
                        frame2.fitted == false,
                        target@.len() == columns.n_samples,
                        base.params.wf(),
                        lr == base.params.learning_rate,
                        cur_target@.len() == n,
                        all_within(cur_target@, VALUE_BOUND as int),
                        preds@.len() == n,
                        0 <= j <= n,
                        next_target@.len() == j,
                        all_within(next_target@, VALUE_BOUND as int),
                    decreases n - j,
                {
                    let delta: i64 = if factor_is_one {
                        preds[j]
                    } else {
                        scale_i64(lr, preds[j])
                    };
                    let nv: i128 = cur_target[j] as i128 - delta as i128;
                    if nv < -(VALUE_BOUND as i128) || nv > VALUE_BOUND as i128 {
                        self.estimators = Vec::new();
                        return Err(ModelError::NumericOverflow);
                    }
                    next_target.push(nv as i64);
                    j = j + 1;
                }
                cur_target = next_target;
            }
            self.estimators.push(ensemble);
            it = it + 1;
        }
        let ghost built = *self;
        self.fitted = true;
        proof {
            assert forall|l: int| 0 <= l < self.estimators@.len() implies {
                &&& (#[trigger] self.estimators@[l]).wf()
                &&& self.estimators@[l].fitted
                &&& self.estimators@[l].estimators@.len() == self.params.layer_width
                &&& self.estimators@[l].n_features == self.n_features + l
                    * self.params.layer_width
            } by {
                assert(built.estimators@[l].wf());
                assert(built.estimators@[l].fitted);
                assert(built.estimators@[l].estimators@.len() == width);
                assert(built.estimators@[l].n_features == base.n_features + l * width);
            }
            assert forall|l: int, k: int|
                0 <= l < self.estimators@.len() && 0 <= k < self.estimators@[l
                    ].estimators@.len() implies in_grid(
                (#[trigger] self.estimators@[l].estimators@[k]).params,
            ) by {
                assert(in_grid(built.estimators@[l].estimators@[k].params));
            }
        }
        Ok(())
    }


    /// Predicts one value per sample of the raw input: layer zero's combined
    /// prediction, plus every later layer's combined prediction shrunk by the
    /// meta learning rate, each layer reading the feature matrix grown by its
    /// predecessors' member prediction rows in layer order — exactly as
    /// during fit. Succeeds exactly when every member prediction of every
    /// layer and every running total fits a tick.
    pub fn predict(&self, columns: &Matrix) -> (r: Result<Vec<i64>, ModelError>)
        requires
            columns.wf(),
            self.wf(),
        ensures
            (!self.fitted || self.estimators@.len() == 0) ==> (r matches Err(e) && e
                == ModelError::UnconfiguredModel),
            (self.fitted && self.estimators@.len() > 0 && columns.rows@.len()
                != self.n_features) ==> (r matches Err(e) && e == ModelError::DimensionMismatch),
            (self.fitted && self.estimators@.len() > 0 && columns.rows@.len()
                == self.n_features) ==> {
                &&& (r is Ok <==> (self.layers_in_range(columns.vals(), columns.n_samples as nat)
                    && (forall|j: int|
                    0 <= j < columns.n_samples ==> i64::MIN <= #[trigger] self.predict_val(
                        columns.vals(),
                        columns.n_samples as nat,
                        j,
                    ) <= i64::MAX)))
                &&& (r matches Ok(v) ==> v@.len() == columns.n_samples && (forall|j: int|
                    0 <= j < v@.len() ==> #[trigger] v@[j] as int == self.predict_val(
                        columns.vals(),
                        columns.n_samples as nat,
                        j,
                    )))
                &&& (r is Err ==> (r matches Err(e) && e == ModelError::NumericOverflow))
            },
    {
        if !self.fitted {
            return Err(ModelError::UnconfiguredModel);
        }
        let num_layers = self.estimators.len();
        if num_layers == 0 {
            return Err(ModelError::UnconfiguredModel);
        }
        if columns.rows.len() != self.n_features {
            return Err(ModelError::DimensionMismatch);
        }
        let ghost cols0 = columns.vals();
        let n = columns.n_samples;
        let width = self.params.layer_width;
        let mut acc = columns.slice_samples(0, n);
        proof {
            assert forall|f: int| 0 <= f < acc.rows@.len() implies (#[trigger] acc.rows@[f])@
                == columns.rows@[f]@ by {
                assert(acc.rows@[f]@ == columns.rows@[f]@.subrange(0, n as int));
                assert(columns.rows@[f]@.subrange(0, n as int) =~= columns.rows@[f]@);
            }
            assert(acc.vals() =~= self.layer_cols(cols0, n as nat, 0));
        }
        let mut totals: Vec<i128> = Vec::new();
        let mut j0: usize = 0;
        while j0 < n
            invariant
                0 <= j0 <= n,
                totals@.len() == j0,
                forall|i: int| 0 <= i < j0 ==> #[trigger] totals@[i] == 0,
            decreases n - j0,
        {
            totals.push(0);
            j0 = j0 + 1;
        }

        let mut l: usize = 0;
        while l < num_layers
            invariant
                columns.wf(),
                self.wf(),
                self.fitted,
                cols0 == columns.vals(),
                n == columns.n_samples,
                self.n_features == columns.rows@.len(),
                num_layers == self.estimators@.len(),
                0 < num_layers <= 0x1_0000_0000,
                width == self.params.layer_width,
                0 <= l <= num_layers,
                acc.wf(),
                acc.n_samples == n,
                acc.vals() == self.layer_cols(cols0, n as nat, l as int),
                acc.rows@.len() == self.n_features + (l as int) * width,
                totals@.len() == n,
                l == 0 ==> (forall|i: int| 0 <= i < n ==> #[trigger] totals@[i] == 0),
                l >= 1 ==> (forall|i: int|
                    0 <= i < n ==> #[trigger] totals@[i] as int == self.deep_val(
                        cols0,
                        n as nat,
                        i,
                        l as int,
                    )),
                forall|i: int|
                    0 <= i < n ==> -((l as int) * 0x8000_0000_0000_0000)
                        <= #[trigger] totals@[i] as int <= (l as int) * 0x8000_0000_0000_0000,
                forall|l2: int, k: int, j: int|
                    0 <= l2 < l && 0 <= k < self.estimators@[l2].estimators@.len() && 0 <= j < n
                        ==> i64::MIN
                        <= #[trigger] self.estimators@[l2].estimators@[k].predict_val(
                        self.layer_cols(cols0, n as nat, l2),
                        j,
                    ) <= i64::MAX,
            decreases num_layers - l,
        {
            proof {
                assert((l as int) * width >= 0) by (nonlinear_arith)
                    requires
                        l as int >= 0,
                        width as int >= 0,
                ;
                assert((l as int + 1) * width == (l as int) * width + width)
                    by (nonlinear_arith);
            }
            let all = match self.estimators[l].predict_all(&acc) {
                Ok(m) => m,
                Err(_) => {
                    proof {
                        let e = self.estimators@[l as int];
                        assert(!(forall|k: int, j: int|
                            0 <= k < e.estimators@.len() && 0 <= j < n ==> i64::MIN
                                <= #[trigger] e.estimators@[k].predict_val(acc.vals(), j)
                                <= i64::MAX));
                        let (k, j): (int, int) = choose|k: int, j: int|
                            0 <= k < e.estimators@.len() && 0 <= j < n && !(i64::MIN
                                <= #[trigger] e.estimators@[k].predict_val(acc.vals(), j)
                                <= i64::MAX);
                        assert(!self.layers_in_range(cols0, n as nat)) by {
                            if self.layers_in_range(cols0, n as nat) {
                                assert(i64::MIN <= self.estimators@[l as int].estimators@[
                                    k].predict_val(self.layer_cols(cols0, n as nat, l as int), j)
                                    <= i64::MAX);
                            }
                        }
                    }
                    return Err(ModelError::NumericOverflow);
                },
            };
            let combined = self.estimators[l].predict_by_all(&all, n);
            proof {
                let e = self.estimators@[l as int];
                let m = all@.map_values(|row: Vec<i64>| row@);
                assert forall|j: int| 0 <= j < n implies crate::ensemble::column_of(m, j)
                    =~= e.member_col(acc.vals(), j) by {
                    assert(forall|k: int| 0 <= k < m.len() ==> #[trigger] m[k][j] == all@[k]@[j]);
                }
                assert(forall|j: int|
                    0 <= j < n ==> #[trigger] combined@[j] as int == e.combined_val(
                        acc.vals(),
                        j,
                    ));
            }
            let ghost totals_before = totals@;
            let mut j: usize = 0;
            while j < n
                invariant
                    columns.wf(),
                    self.wf(),
                    cols0 == columns.vals(),
                    n == columns.n_samples,
                    num_layers == self.estimators@.len(),
                    0 <= l < num_layers <= 0x1_0000_0000,
                    width == self.params.layer_width,
                    acc.wf(),
                    acc.vals() == self.layer_cols(cols0, n as nat, l as int),
                    combined@.len() == n,
                    forall|i: int|
                        0 <= i < n ==> #[trigger] combined@[i] as int == self.estimators@[
                            l as int].combined_val(self.layer_cols(cols0, n as nat, l as int), i),
                    totals@.len() == n,
                    0 <= j <= n,
                    forall|i: int| j <= i < n ==> #[trigger] totals@[i] == totals_before[i],
                    l == 0 ==> (forall|i: int|
                        j <= i < n ==> #[trigger] totals_before[i] == 0),
                    l >= 1 ==> (forall|i: int|
                        j <= i < n ==> #[trigger] totals_before[i] as int == self.deep_val(
                            cols0,
                            n as nat,
                            i,
                            l as int,
                        )),
                    forall|i: int|
                        j <= i < n ==> -((l as int) * 0x8000_0000_0000_0000)
                            <= #[trigger] totals_before[i] as int <= (l as int)
                            * 0x8000_0000_0000_0000,
                    forall|i: int|
                        0 <= i < j ==> #[trigger] totals@[i] as int == self.deep_val(
                            cols0,
                            n as nat,
                            i,
                            l as int + 1,
                        ),
                    forall|i: int|
                        0 <= i < j ==> -((l as int + 1) * 0x8000_0000_0000_0000)
                            <= #[trigger] totals@[i] as int <= (l as int + 1)
                            * 0x8000_0000_0000_0000,
                decreases n - j,
            {
                proof {
                    assert((l as int + 1) * 0x8000_0000_0000_0000 == (l as int)
                        * 0x8000_0000_0000_0000 + 0x8000_0000_0000_0000) by (nonlinear_arith);
                    assert((l as int) * 0x8000_0000_0000_0000 <= 0x1_0000_0000
                        * 0x8000_0000_0000_0000) by (nonlinear_arith)
                        requires
                            0 <= l as int <= 0x1_0000_0000,
                    ;
                }
                let nv: i128 = if l == 0 {
                    combined[j] as i128
                } else {
                    totals[j] + scale_i64(self.params.learning_rate, combined[j]) as i128
                };
                totals[j] = nv;
                j = j + 1;
            }

            let ghost frame_acc = acc;
            let mut k: usize = 0;
            while k < all.len()
                invariant
                    acc.wf(),
                    acc.n_samples == n,
                    all@.len() == width,
                    forall|k2: int|
                        0 <= k2 < all@.len() ==> (#[trigger] all@[k2])@.len() == n,
                    0 <= k <= all@.len(),
                    acc.rows@.len() == frame_acc.rows@.len() + k,
                    acc.vals() == frame_acc.vals() + all@.map_values(
                        |row: Vec<i64>| row@,
                    ).take(k as int),
                decreases all@.len() - k,
            {
                let row = slice_vec(&all[k], 0, all[k].len());
                proof {
                    assert(all@[k as int]@.subrange(0, all@[k as int]@.len() as int)
                        =~= all@[k as int]@);
                }
                let ghost pre = acc;
                acc.push_row(row);
                proof {
                    let m = all@.map_values(|r2: Vec<i64>| r2@);
                    assert(acc.rows@ == pre.rows@.push(row));
                    assert forall|i: int| 0 <= i < acc.rows@.len() implies #[trigger] acc.vals()[i]
                        == (frame_acc.vals() + m.take(k as int + 1))[i] by {
                        assert(acc.vals()[i] == acc.rows@[i]@);
                        if i < pre.rows@.len() {
                            assert(acc.rows@[i] == pre.rows@[i]);
                            assert(pre.vals()[i] == pre.rows@[i]@);
                            assert(pre.vals() == frame_acc.vals() + m.take(k as int));
                        } else {
                            assert(acc.rows@[i] == row);
                            assert(m.take(k as int + 1)[k as int] == m[k as int]);
                            assert(m[k as int] == all@[k as int]@);
                            assert(row@ == all@[k as int]@);
                        }
                    }
                    assert(acc.vals() =~= frame_acc.vals() + m.take(k as int + 1));
                }
                k = k + 1;
            }
            proof {
                let e = self.estimators@[l as int];
                let lc = self.layer_cols(cols0, n as nat, l as int);
                assert(all@.map_values(|row: Vec<i64>| row@).take(width as int)
                    =~= all@.map_values(|row: Vec<i64>| row@));
                assert forall|k2: int| 0 <= k2 < width implies all@.map_values(
                    |row: Vec<i64>| row@,
                )[k2] =~= member_rows(e, lc, n as nat)[k2] by {
                    assert(forall|j2: int|
                        0 <= j2 < n ==> all@[k2]@[j2] as int == e.estimators@[k2].predict_val(
                            lc,
                            j2,
                        ));
                }
                assert(all@.map_values(|row: Vec<i64>| row@) =~= member_rows(e, lc, n as nat));
                assert(acc.vals() == self.layer_cols(cols0, n as nat, l as int + 1));
            }
            l = l + 1;
        }

        let mut out: Vec<i64> = Vec::new();
        let mut j2: usize = 0;
        while j2 < n
            invariant
                self.wf(),
                self.fitted,
                cols0 == columns.vals(),
                n == columns.n_samples,
                num_layers == self.estimators@.len() > 0,
                self.n_features == columns.rows@.len(),
                totals@.len() == n,
                forall|i: int|
                    0 <= i < n ==> #[trigger] totals@[i] as int == self.deep_val(
                        cols0,
                        n as nat,
                        i,
                        num_layers as int,
                    ),
                forall|l2: int, k: int, j: int|
                    0 <= l2 < num_layers && 0 <= k < self.estimators@[l2].estimators@.len() && 0
                        <= j < n ==> i64::MIN
                        <= #[trigger] self.estimators@[l2].estimators@[k].predict_val(
                        self.layer_cols(cols0, n as nat, l2),
                        j,
                    ) <= i64::MAX,
                0 <= j2 <= n,
                out@.len() == j2,
                forall|i: int|
                    0 <= i < j2 ==> #[trigger] out@[i] as int == self.predict_val(
                        cols0,
                        n as nat,
                        i,
                    ),
                forall|i: int|
                    0 <= i < j2 ==> i64::MIN <= #[trigger] self.predict_val(cols0, n as nat, i)
                        <= i64::MAX,
            decreases n - j2,
        {
            let t = totals[j2];
            if t < i64::MIN as i128 || t > i64::MAX as i128 {
                proof {
                    assert(!(i64::MIN <= self.predict_val(cols0, n as nat, j2 as int)
                        <= i64::MAX));
                }
                return Err(ModelError::NumericOverflow);
            }
            out.push(t as i64);
            j2 = j2 + 1;
        }
        Ok(out)
    }

    /// Prediction is a function of the fitted state and the input alone: two
    /// prediction vectors that agree with `predict`'s contract on the same
    /// model and matrix are identical, so repeated calls return identical
    /// outputs.
    pub proof fn lemma_predict_deterministic(
        &self,
        cols0: Seq<Seq<i64>>,
        n: nat,
        v1: Seq<i64>,
        v2: Seq<i64>,
    )
        requires
            v1.len() == v2.len(),
            forall|j: int|
                0 <= j < v1.len() ==> #[trigger] v1[j] as int == self.predict_val(cols0, n, j),
            forall|j: int|
                0 <= j < v2.len() ==> #[trigger] v2[j] as int == self.predict_val(cols0, n, j),
        ensures
            v1 == v2,
    {
        assert(v1 =~= v2);
    }

    /// An unfitted model with the given configuration.
    pub fn new(params: DeepBoostingParameters) -> (r: Self)
        ensures
            r.params == params,
            r.estimators@.len() == 0,
            !r.fitted,
    {
        DeepBoostingImpl { params, estimators: Vec::new(), fitted: false, n_features: 0 }
    }
}

impl ConstructibleWithArg for DeepBoostingImpl {
    type Arg = DeepBoostingParameters;

    fn new(arg: DeepBoostingParameters) -> Self {
        DeepBoostingImpl::new(arg)
    }
}

} // verus!
