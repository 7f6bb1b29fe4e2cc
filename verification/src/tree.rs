//! Arena-indexed binary decision trees built from randomized split rules.
//!
//! Nodes are created depth-first and stored in a flat list; a parallel
//! `routes` array maps each node to its left and right child index, with `-1`
//! for "no child". A branch whose rule cannot split becomes a leaf whose
//! value is the parent split's side value, so prediction always yields the
//! value of the last internal split visited.

use vstd::prelude::*;
use vstd::arithmetic::power2::{lemma2_to64, lemma_pow2_pos, lemma_pow2_unfold, pow2};
use crate::array::{indices_ok, Matrix};
use crate::error::ModelError;
use crate::numerics::all_within;
use crate::random::RandomSource;
use crate::rule::{
    lemma_idx_partition, wf_split, RandomSplitRule, Split, SplitIndices,
};
use crate::{RESIDUAL_BOUND, SAMPLES_BOUND, VALUE_BOUND};

verus! {

/// The deepest tree a fit call accepts; the routes arena holds `2^depth`
/// slots, so this keeps the allocation within an address space.
pub const MAX_TREE_DEPTH: u8 = 30;

/// Default maximum tree depth.
pub const DEFAULT_TREE_DEPTH: u8 = 3;

/// Default minimum number of samples a node needs to be split further.
pub const DEFAULT_TREE_MIN_SAMPLES_SPLIT: usize = 2;

/// Decision-tree configuration.
#[derive(Clone, Copy, Debug, PartialEq, Eq, Structural)]
pub struct TreeParameters {
    /// Maximum tree depth.
    pub depth: u8,
    /// Minimum number of samples a node needs to be split further.
    pub min_samples_split: usize,
}

impl TreeParameters {
    /// Fills omitted fields with the defaults.
    pub fn new(depth: Option<u8>, min_samples_split: Option<usize>) -> (r: Self)
        ensures
            r.depth == match depth {
                Some(d) => d,
                None => DEFAULT_TREE_DEPTH,
            },
            r.min_samples_split == match min_samples_split {
                Some(m) => m,
                None => DEFAULT_TREE_MIN_SAMPLES_SPLIT,
            },
    {
        TreeParameters {
            depth: match depth {
                Some(d) => d,
                None => DEFAULT_TREE_DEPTH,
            },
            min_samples_split: match min_samples_split {
                Some(m) => m,
                None => DEFAULT_TREE_MIN_SAMPLES_SPLIT,
            },
        }
    }
}

/// A binary regression tree of randomized split rules.
pub struct DecisionTreeImpl {
    /// Configuration.
    pub params: TreeParameters,
    /// The fitted split rules, one per node, in creation (depth-first) order.
    pub splitters: Vec<RandomSplitRule>,
    /// `routes[i]` holds node `i`'s left and right child index, `-1` for none.
    pub routes: Vec<(i64, i64)>,
    /// Whether a fit has completed since construction.
    pub fitted: bool,
    /// The feature count of the matrix the tree was fitted on.
    pub n_features: usize,
}

impl DecisionTreeImpl {
    /// Node `i` is well formed: its rule is fitted, its split addresses a
    /// real feature with bounded values, and its children (if any) come
    /// strictly later in the arena.
    pub open spec fn node_ok(&self, i: int) -> bool {
        &&& self.splitters@[i].split_info matches Some(s) && wf_split(s, self.n_features as int)
        &&& (self.routes@[i].0 == -1 || i < self.routes@[i].0 < self.splitters@.len())
        &&& (self.routes@[i].1 == -1 || i < self.routes@[i].1 < self.splitters@.len())
    }

    /// The whole arena is well formed.
    pub open spec fn wf(&self) -> bool {
        &&& self.splitters@.len() <= self.routes@.len()
        &&& forall|i: int| 0 <= i < self.splitters@.len() ==> self.node_ok(i)
    }

    /// The value sample `j` of `cols` reaches when the walk stands at node
    /// `cur`: follow `feature > threshold` decisions until a child is absent,
    /// then yield the value of the side last taken.
    pub open spec fn walk(&self, cols: Seq<Seq<i64>>, j: int, cur: int) -> i64
        decreases self.splitters@.len() - cur,
        when self.wf() && 0 <= cur < self.splitters@.len()
        via Self::walk_decreases
    {
        let s = self.splitters@[cur].split_info->0;
        let cond = cols[s.feature as int][j] > s.threshold;
        let nxt = if cond {
            self.routes@[cur].1
        } else {
            self.routes@[cur].0
        };
        let v = if cond {
            s.value_right
        } else {
            s.value_left
        };
        if nxt == -1 {
            v
        } else {
            self.walk(cols, j, nxt as int)
        }
    }

    #[via_fn]
    proof fn walk_decreases(&self, cols: Seq<Seq<i64>>, j: int, cur: int) {
        assert(self.node_ok(cur));
    }

    /// The tree's prediction for sample `j`; an empty tree predicts zero.
    pub open spec fn predict_val(&self, cols: Seq<Seq<i64>>, j: int) -> i64 {
        if self.splitters@.len() == 0 {
            0
        } else {
            self.walk(cols, j, 0)
        }
    }

    /// Every value a walk can yield is a stored split value, so predictions
    /// stay within the residual bound.
    pub proof fn lemma_walk_bounded(&self, cols: Seq<Seq<i64>>, j: int, cur: int)
        requires
            self.wf(),
            0 <= cur < self.splitters@.len(),
        ensures
            -RESIDUAL_BOUND <= self.walk(cols, j, cur) <= RESIDUAL_BOUND,
        decreases self.splitters@.len() - cur,
    {
        assert(self.node_ok(cur));
        let s = self.splitters@[cur].split_info->0;
        let cond = cols[s.feature as int][j] > s.threshold;
        let nxt = if cond {
            self.routes@[cur].1
        } else {
            self.routes@[cur].0
        };
        if nxt != -1 {
            self.lemma_walk_bounded(cols, j, nxt as int);
        }
    }

    /// Tree predictions are bounded residual means (an empty tree predicts
    /// zero).
    pub proof fn lemma_predict_bounded(&self, cols: Seq<Seq<i64>>, j: int)
        requires
            self.wf(),
        ensures
            -RESIDUAL_BOUND <= self.predict_val(cols, j) <= RESIDUAL_BOUND,
    {
        if self.splitters@.len() > 0 {
            self.lemma_walk_bounded(cols, j, 0);
        }
    }

    /// Prediction is a function of the fitted state and the input alone: two
    /// prediction vectors that agree with `predict`'s contract on the same
    /// tree and matrix are identical, so repeated calls return identical
    /// outputs.
    pub proof fn lemma_predict_deterministic(
        &self,
        cols: Seq<Seq<i64>>,
        v1: Seq<i64>,
        v2: Seq<i64>,
    )
        requires
            v1.len() == v2.len(),
            forall|j: int| 0 <= j < v1.len() ==> #[trigger] v1[j] == self.predict_val(cols, j),
            forall|j: int| 0 <= j < v2.len() ==> #[trigger] v2[j] == self.predict_val(cols, j),
        ensures
            v1 == v2,
    {
        assert(v1 =~= v2);
    }

    /// An unfitted tree with the given configuration.
    pub fn new(params: TreeParameters) -> (r: Self)
        ensures
            r.params == params,
            r.splitters@.len() == 0,
            r.routes@.len() == 0,
            !r.fitted,
            r.wf(),
    {
        DecisionTreeImpl { params, splitters: Vec::new(), routes: Vec::new(), fitted: false, n_features: 0 }
    }

    /// The number of internal nodes the last fit built.
    pub fn node_count(&self) -> (r: usize)
        ensures
            r == self.splitters@.len(),
    {
        self.splitters.len()
    }

    /// Builds the subtree for the selected samples with `inv_depth` levels
    /// left; returns the new node's arena index, or `-1` when the branch
    /// terminates. Appends only past the existing arena prefix and fills
    /// routes only for its own nodes.
    fn build_tree(
        &mut self,
        columns: &Matrix,
        target: &Vec<i64>,
        indices: Option<&Vec<usize>>,
        inv_depth: u8,
        rng: &mut RandomSource,
    ) -> (r: i64)
        requires
            columns.wf(),
            columns.bounded(VALUE_BOUND as int),
            all_within(target@, RESIDUAL_BOUND as int),
            target@.len() == columns.n_samples,
            columns.n_samples <= SAMPLES_BOUND,
            match indices {
                Some(v) => indices_ok(v@, columns.n_samples as int) && v@.len() <= SAMPLES_BOUND,
                None => true,
            },
            old(self).wf(),
            old(self).n_features == columns.rows@.len(),
            old(self).splitters@.len() + pow2(inv_depth as nat) - 1 <= old(self).routes@.len(),
            old(self).routes@.len() <= 0x4000_0000,
            forall|i: int|
                old(self).splitters@.len() <= i < old(self).routes@.len()
                    ==> old(self).routes@[i] == (-1i64, -1i64),
        ensures
            final(self).wf(),
            final(self).params == old(self).params,
            final(self).fitted == old(self).fitted,
            final(self).n_features == old(self).n_features,
            final(self).routes@.len() == old(self).routes@.len(),
            old(self).splitters@.len() <= final(self).splitters@.len(),
            final(self).splitters@.len() + 1 <= old(self).splitters@.len() + pow2(
                inv_depth as nat,
            ),
            forall|i: int|
                0 <= i < old(self).splitters@.len() ==> final(self).splitters@[i]
                    == old(self).splitters@[i] && final(self).routes@[i] == old(self).routes@[i],
            forall|i: int|
                final(self).splitters@.len() <= i < final(self).routes@.len()
                    ==> final(self).routes@[i] == (-1i64, -1i64),
            r == -1 || r == old(self).splitters@.len(),
            r != -1 ==> final(self).splitters@.len() > old(self).splitters@.len(),
            r == -1 ==> *final(self) == *old(self),
            ({
                let eidx = crate::rule::effective_indices(
                    match indices {
                        Some(v) => Some(v@),
                        None => None,
                    },
                    columns.n_samples as nat,
                );
                &&& ((r != -1) <==> (inv_depth > 0 && target@.len() > 0 && (match indices {
                    Some(v) => v@.len() >= old(self).params.min_samples_split,
                    None => true,
                }) && eidx.len() > 0 && crate::rule::splittable(columns.vals(), eidx)))
                &&& (r != -1 ==> (final(self).splitters@[old(self).splitters@.len() as int
                    ].split_info matches Some(s) && crate::rule::fitted_split_ok(
                    columns.vals(),
                    target@,
                    eidx,
                    s,
                ) && crate::rule::chosen_first_minimal(columns.vals(), target@, eidx, s)))
            }),
        decreases inv_depth,
    {
        proof {
            if indices is None {
                assert(crate::rule::effective_indices(
                    None,
                    columns.n_samples as nat,
                ).len() == columns.n_samples);
            }
        }
        proof {
            lemma_pow2_pos(inv_depth as nat);
        }
        if inv_depth == 0 || target.len() == 0 {
            return -1;
        }
        if let Some(ind) = indices {
            if ind.len() < self.params.min_samples_split {
                return -1;
            }
        }
        proof {
            lemma_pow2_unfold(inv_depth as nat);
            lemma_pow2_pos((inv_depth - 1) as nat);
        }
        let mut splitter = RandomSplitRule::new();
        match splitter.fit_by_indices(columns, target, indices, rng) {
            Err(_) => {
                return -1;
            },
            Ok(()) => {},
        }
        let si: SplitIndices = splitter.split_indices(columns, indices);
        proof {
            let s = splitter.split_info->0;
            lemma_idx_partition(
                columns.rows@[s.feature as int]@,
                target@,
                crate::rule::effective_indices(
                    match indices {
                        Some(v) => Some(v@),
                        None => None,
                    },
                    columns.n_samples as nat,
                ),
                s.threshold,
                columns.n_samples as int,
            );
        }
        self.splitters.push(splitter);
        let id = self.splitters.len() - 1;
        proof {
            assert forall|i: int| 0 <= i < self.splitters@.len() implies self.node_ok(i) by {
                if i < id {
                    assert(old(self).node_ok(i));
                }
            }
        }
        let left_id = self.build_tree(columns, target, Some(&si.left), inv_depth - 1, rng);
        let ghost mid = *self;
        let right_id = self.build_tree(columns, target, Some(&si.right), inv_depth - 1, rng);
        let ghost pre = *self;
        self.routes[id] = (left_id, right_id);
        proof {
            assert(self.node_ok(id as int)) by {
                assert(pre.node_ok(id as int));
            }
            assert forall|i: int| 0 <= i < self.splitters@.len() implies self.node_ok(i) by {
                if i != id {
                    assert(pre.node_ok(i));
                }
            }
        }
        id as i64
    }

    /// Fits the tree: clears all owned state, preallocates the routes arena
    /// for a complete tree of the configured depth, and builds depth-first
    /// from the root. Fails exactly on a sample-count mismatch; a tree that
    /// cannot split at all is a fitted, empty model.
    pub fn fit(
        &mut self,
        columns: &Matrix,
        target: &Vec<i64>,
        rng: &mut RandomSource,
    ) -> (r: Result<(), ModelError>)
        requires
            columns.wf(),
            columns.bounded(VALUE_BOUND as int),
            all_within(target@, RESIDUAL_BOUND as int),
            columns.n_samples <= SAMPLES_BOUND,
            old(self).params.depth <= MAX_TREE_DEPTH,
        ensures
            (r is Ok) <==> target@.len() == columns.n_samples,
            r matches Err(e) ==> e == ModelError::DimensionMismatch && !final(self).fitted
                && final(self).splitters@.len() == 0,
            r is Ok ==> {
                &&& final(self).wf()
                &&& final(self).fitted
                &&& final(self).n_features == columns.rows@.len()
                &&& final(self).routes@.len() == pow2(old(self).params.depth as nat)
                &&& final(self).splitters@.len() + 1 <= pow2(old(self).params.depth as nat)
                &&& forall|i: int|
                    final(self).splitters@.len() <= i < final(self).routes@.len()
                        ==> final(self).routes@[i] == (-1i64, -1i64)
                &&& ((final(self).splitters@.len() > 0) <==> (old(self).params.depth >= 1
                    && columns.n_samples > 0 && crate::rule::splittable(
                    columns.vals(),
                    crate::rule::identity_indices(columns.n_samples as nat),
                )))
                &&& (final(self).splitters@.len() > 0 ==> (final(self).splitters@[0].split_info
                    matches Some(s) && crate::rule::fitted_split_ok(
                    columns.vals(),
                    target@,
                    crate::rule::identity_indices(columns.n_samples as nat),
                    s,
                ) && crate::rule::chosen_first_minimal(
                    columns.vals(),
                    target@,
                    crate::rule::identity_indices(columns.n_samples as nat),
                    s,
                )))
            },
            final(self).params == old(self).params,
    {
        self.splitters.clear();
        self.routes.clear();
        self.fitted = false;
        if target.len() != columns.n_samples {
            return Err(ModelError::DimensionMismatch);
        }
        self.n_features = columns.rows.len();

        let depth = self.params.depth;
        let mut n_nodes: usize = 1;
        let mut i: u8 = 0;
        proof {
            lemma2_to64();
        }
        while i < depth
            invariant
                i <= depth <= MAX_TREE_DEPTH,
                n_nodes == pow2(i as nat),
                n_nodes <= pow2(MAX_TREE_DEPTH as nat),
            decreases depth - i,
        {
            proof {
                lemma_pow2_unfold((i + 1) as nat);
                lemma2_to64();
                if i + 1 < MAX_TREE_DEPTH {
                    vstd::arithmetic::power2::lemma_pow2_strictly_increases(
                        (i + 1) as nat,
                        MAX_TREE_DEPTH as nat,
                    );
                }
            }
            n_nodes = n_nodes * 2;
            i = i + 1;
        }
        let mut routes: Vec<(i64, i64)> = Vec::new();
        let mut k: usize = 0;
        while k < n_nodes
            invariant
                0 <= k <= n_nodes,
                routes@.len() == k,
                forall|i2: int| 0 <= i2 < k ==> routes@[i2] == (-1i64, -1i64),
            decreases n_nodes - k,
        {
            routes.push((-1, -1));
            k = k + 1;
        }
        self.routes = routes;
        proof {
            lemma_pow2_pos(depth as nat);
        }
        self.build_tree(columns, target, None, depth, rng);
        let ghost built = *self;
        self.fitted = true;
        proof {
            assert forall|i: int| 0 <= i < self.splitters@.len() implies self.node_ok(i) by {
                assert(built.node_ok(i));
            }
        }
        Ok(())
    }

    /// Predicts one value per sample by walking the arena from the root. An
    /// unfitted tree reports `UnconfiguredModel`; a matrix with a different
    /// feature count than the fit, `DimensionMismatch`; a fitted empty tree
    /// predicts zero everywhere.
    pub fn predict(&self, columns: &Matrix) -> (r: Result<Vec<i64>, ModelError>)
        requires
            columns.wf(),
            self.wf(),
        ensures
            !self.fitted ==> (r matches Err(e) && e == ModelError::UnconfiguredModel),
            self.fitted && columns.rows@.len() != self.n_features ==> (r matches Err(e) && e
                == ModelError::DimensionMismatch),
            self.fitted && columns.rows@.len() == self.n_features ==> (r matches Ok(v) && v@.len()
                == columns.n_samples && (forall|j: int|
                0 <= j < v@.len() ==> #[trigger] v@[j] == self.predict_val(columns.vals(), j))),
    {
        if !self.fitted {
            return Err(ModelError::UnconfiguredModel);
        }
        if columns.rows.len() != self.n_features {
            return Err(ModelError::DimensionMismatch);
        }
        let ghost cols = columns.vals();
        let n = columns.n_samples;
        let mut out: Vec<i64> = Vec::new();
        let mut j: usize = 0;
        while j < n
            invariant
                columns.wf(),
                self.wf(),
                cols == columns.vals(),
                self.n_features == columns.rows@.len(),
                n == columns.n_samples,
                0 <= j <= n,
                out@.len() == j,
                forall|i: int| 0 <= i < j ==> #[trigger] out@[i] == self.predict_val(cols, i),
            decreases n - j,
        {
            if self.splitters.len() == 0 {
                out.push(0);
            } else {
                let mut cur: usize = 0;
                let mut val: i64 = 0;
                loop
                    invariant
                        columns.wf(),
                        self.wf(),
                        cols == columns.vals(),
                        self.n_features == columns.rows@.len(),
                        n == columns.n_samples,
                        0 <= j < n,
                        0 < self.splitters@.len(),
                        0 <= cur < self.splitters@.len(),
                        self.walk(cols, j as int, cur as int) == self.predict_val(
                            cols,
                            j as int,
                        ),
                    ensures
                        val == self.predict_val(cols, j as int),
                    decreases self.splitters@.len() - cur,
                {
                    proof {
                        assert(self.node_ok(cur as int));
                    }
                    let s = match &self.splitters[cur].split_info {
                        Some(s) => *s,
                        None => unreached(),
                    };
                    proof {
                        assert(cols[s.feature as int] == columns.rows@[s.feature as int]@);
                    }
                    let cond = columns.rows[s.feature][j] > s.threshold;
                    let nxt = if cond {
                        self.routes[cur].1
                    } else {
                        self.routes[cur].0
                    };
                    val = if cond {
                        s.value_right
                    } else {
                        s.value_left
                    };
                    proof {
                        assert(self.splitters@[cur as int].split_info->0 == s);
                        if nxt == -1 {
                            assert(self.walk(cols, j as int, cur as int) == val);
                        } else {
                            assert(self.walk(cols, j as int, cur as int) == self.walk(
                                cols,
                                j as int,
                                nxt as int,
                            ));
                        }
                    }
                    if nxt < 0 {
                        break;
                    }
                    let n_nodes = self.splitters.len();
                    proof {
                        assert(0 < nxt < n_nodes);
                    }
                    cur = nxt as usize;
                }
                out.push(val);
            }
            j = j + 1;
        }
        Ok(out)
    }
}

} // verus!
