//! An exact word codec for fitted models.
//!
//! A model's complete state is laid out as a flat sequence of 128-bit words;
//! decoding validates every structural invariant, so a decoded model is well
//! formed and ready to predict. Encoding then decoding reproduces the model
//! exactly (`lemma_tree_roundtrip` and its siblings), which makes persisted
//! predictions bit-for-bit reproducible. A host layer only has to move the
//! words to and from storage.

use vstd::prelude::*;
use crate::rule::{wf_split, RandomSplitRule, Split};
use crate::boosting::{GradientBoostingImpl, GradientBoostingParameters, LearningRate};
use crate::deep_boosting::{DeepBoostingImpl, DeepBoostingParameters};
use crate::ensemble::AverageEnsemble;
use crate::tree::{DecisionTreeImpl, TreeParameters, MAX_TREE_DEPTH};
use crate::{RESIDUAL_BOUND, VALUE_BOUND};

verus! {

/// The word image of one split: feature, threshold, impurity and the two
/// side values.
pub open spec fn enc_split(s: Split) -> Seq<i128> {
    seq![
        s.feature as i128,
        s.threshold as i128,
        s.impurity,
        s.value_left as i128,
        s.value_right as i128,
    ]
}

/// Reads one split at `pos`, checking that it is storable in a tree over
/// `nf` features.
pub open spec fn dec_split(w: Seq<i128>, pos: int, nf: int) -> Option<(Split, int)> {
    if pos < 0 || pos + 5 > w.len() {
        None
    } else {
        let f = w[pos];
        let t = w[pos + 1];
        let imp = w[pos + 2];
        let vl = w[pos + 3];
        let vr = w[pos + 4];
        if 0 <= f < nf && -(VALUE_BOUND as int) <= t <= VALUE_BOUND as int && -(
        RESIDUAL_BOUND as int) <= vl <= RESIDUAL_BOUND as int && -(RESIDUAL_BOUND as int) <= vr
            <= RESIDUAL_BOUND as int {
            Some(
                (
                    Split {
                        feature: f as usize,
                        threshold: t as i64,
                        impurity: imp,
                        value_left: vl as i64,
                        value_right: vr as i64,
                    },
                    pos + 5,
                ),
            )
        } else {
            None
        }
    }
}

/// A split encoded anywhere in a word stream decodes back to itself.
pub proof fn lemma_split_roundtrip(s: Split, w: Seq<i128>, pos: int, nf: int)
    requires
        wf_split(s, nf),
        nf <= usize::MAX,
        0 <= pos,
        pos + 5 <= w.len(),
        w.subrange(pos, pos + 5) == enc_split(s),
    ensures
        dec_split(w, pos, nf) == Some((s, pos + 5)),
{
    assert(w[pos] == enc_split(s)[0]);
    assert(w[pos + 1] == enc_split(s)[1]);
    assert(w[pos + 2] == enc_split(s)[2]);
    assert(w[pos + 3] == enc_split(s)[3]);
    assert(w[pos + 4] == enc_split(s)[4]);
}

/// Appends one split's words.
fn encode_split_into(out: &mut Vec<i128>, s: &Split)
    ensures
        final(out)@ == old(out)@ + enc_split(*s),
{
    out.push(s.feature as i128);
    out.push(s.threshold as i128);
    out.push(s.impurity);
    out.push(s.value_left as i128);
    out.push(s.value_right as i128);
    proof {
        assert(final(out)@ =~= old(out)@ + enc_split(*s));
    }
}

/// Reads one split at `pos`; exactly `dec_split`.
fn decode_split(w: &Vec<i128>, pos: usize, nf: usize) -> (r: Option<(Split, usize)>)
    ensures
        match r {
            Some((s, p)) => dec_split(w@, pos as int, nf as int) == Some((s, p as int)),
            None => dec_split(w@, pos as int, nf as int) is None,
        },
{
    if w.len() < 5 || pos > w.len() - 5 {
        return None;
    }
    let f = w[pos];
    let t = w[pos + 1];
    let imp = w[pos + 2];
    let vl = w[pos + 3];
    let vr = w[pos + 4];
    if 0 <= f && f < nf as i128 && -(VALUE_BOUND as i128) <= t && t <= VALUE_BOUND as i128 && -(
    RESIDUAL_BOUND as i128) <= vl && vl <= RESIDUAL_BOUND as i128 && -(RESIDUAL_BOUND as i128)
        <= vr && vr <= RESIDUAL_BOUND as i128 {
        Some(
            (
                Split {
                    feature: f as usize,
                    threshold: t as i64,
                    impurity: imp,
                    value_left: vl as i64,
                    value_right: vr as i64,
                },
                pos + 5,
            ),
        )
    } else {
        None
    }
}


/// The word image of one splitter: its fitted split.
pub open spec fn enc_rule(r: RandomSplitRule) -> Seq<i128> {
    enc_split(r.split_info->0)
}

/// The word image of a splitter list, in order.
pub open spec fn enc_splitters(rules: Seq<RandomSplitRule>) -> Seq<i128>
    decreases rules.len(),
{
    if rules.len() == 0 {
        Seq::empty()
    } else {
        enc_rule(rules[0]) + enc_splitters(rules.skip(1))
    }
}

/// Appending one splitter extends the image on the right.
pub proof fn lemma_enc_splitters_snoc(rules: Seq<RandomSplitRule>, k: int)
    requires
        0 <= k < rules.len(),
    ensures
        enc_splitters(rules.take(k + 1)) == enc_splitters(rules.take(k)) + enc_rule(rules[k]),
    decreases k,
{
    if k == 0 {
        assert(rules.take(1)[0] == rules[0]);
        assert(rules.take(1).skip(1) =~= Seq::<RandomSplitRule>::empty());
        assert(rules.take(0) =~= Seq::<RandomSplitRule>::empty());
        assert(enc_splitters(Seq::<RandomSplitRule>::empty()) == Seq::<i128>::empty());
        assert(enc_splitters(rules.take(1)) == enc_rule(rules[0]) + Seq::<i128>::empty());
        assert(enc_rule(rules[0]) + Seq::<i128>::empty() =~= enc_rule(rules[0]));
        assert(Seq::<i128>::empty() + enc_rule(rules[0]) =~= enc_rule(rules[0]));
    } else {
        lemma_enc_splitters_snoc(rules.skip(1), k - 1);
        assert(rules.take(k + 1)[0] == rules[0]);
        assert(rules.take(k)[0] == rules[0]);
        assert(rules.take(k + 1).skip(1) =~= rules.skip(1).take(k));
        assert(rules.take(k).skip(1) =~= rules.skip(1).take(k - 1));
        assert(rules.skip(1)[k - 1] == rules[k]);
        assert(enc_rule(rules[0]) + (enc_splitters(rules.skip(1).take(k - 1)) + enc_rule(
            rules[k],
        )) =~= (enc_rule(rules[0]) + enc_splitters(rules.skip(1).take(k - 1))) + enc_rule(
            rules[k],
        ));
    }
}

/// Reads `count` splitters from `pos`.
pub open spec fn dec_splitters(w: Seq<i128>, pos: int, count: int, nf: int) -> Option<
    (Seq<RandomSplitRule>, int),
>
    decreases count,
{
    if count <= 0 {
        Some((Seq::empty(), pos))
    } else {
        match dec_split(w, pos, nf) {
            None => None,
            Some((s, p1)) => match dec_splitters(w, p1, count - 1, nf) {
                None => None,
                Some((rest, p2)) => Some(
                    (seq![RandomSplitRule { split_info: Some(s) }] + rest, p2),
                ),
            },
        }
    }
}

/// Whatever decodes as a splitter list is a list of fitted, storable rules.
pub proof fn lemma_dec_splitters_props(w: Seq<i128>, pos: int, count: int, nf: int)
    requires
        dec_splitters(w, pos, count, nf) is Some,
        count >= 0,
    ensures
        ({
            let (rules, p) = dec_splitters(w, pos, count, nf)->0;
            &&& rules.len() == count
            &&& p >= pos
            &&& forall|i: int|
                0 <= i < rules.len() ==> ((#[trigger] rules[i]).split_info matches Some(s)
                    && wf_split(s, nf))
        }),
    decreases count,
{
    if count > 0 {
        let (s, p1) = dec_split(w, pos, nf)->0;
        lemma_dec_splitters_props(w, p1, count - 1, nf);
    }
}

/// A well-formed splitter list encoded anywhere in a word stream decodes back
/// to itself.
pub proof fn lemma_splitters_roundtrip(rules: Seq<RandomSplitRule>, w: Seq<i128>, pos: int, nf: int)
    requires
        forall|i: int|
            0 <= i < rules.len() ==> ((#[trigger] rules[i]).split_info matches Some(s) && wf_split(
                s,
                nf,
            )),
        nf <= usize::MAX,
        0 <= pos,
        pos + enc_splitters(rules).len() <= w.len(),
        w.subrange(pos, pos + enc_splitters(rules).len() as int) == enc_splitters(rules),
    ensures
        dec_splitters(w, pos, rules.len() as int, nf) == Some(
            (rules, pos + enc_splitters(rules).len()),
        ),
    decreases rules.len(),
{
    if rules.len() == 0 {
        assert(dec_splitters(w, pos, 0, nf) == Some((Seq::<RandomSplitRule>::empty(), pos)));
        assert(rules =~= Seq::<RandomSplitRule>::empty());
    } else {
        let s0 = rules[0].split_info->0;
        let tail = rules.skip(1);
        let e = enc_splitters(rules);
        assert(e == enc_split(s0) + enc_splitters(tail));
        assert(w.subrange(pos, pos + 5) =~= enc_split(s0)) by {
            assert(forall|i: int| 0 <= i < 5 ==> e[i] == enc_split(s0)[i]);
            assert(forall|i: int|
                0 <= i < 5 ==> w.subrange(pos, pos + e.len() as int)[i] == #[trigger] w[pos + i]);
        }
        lemma_split_roundtrip(s0, w, pos, nf);
        assert(w.subrange(pos + 5, pos + 5 + enc_splitters(tail).len() as int) =~= enc_splitters(
            tail,
        )) by {
            assert(forall|i: int|
                0 <= i < enc_splitters(tail).len() ==> e[5 + i] == enc_splitters(tail)[i]);
            assert(forall|i: int|
                0 <= i < e.len() ==> w.subrange(pos, pos + e.len() as int)[i] == #[trigger] w[pos
                    + i]);
        }
        lemma_splitters_roundtrip(tail, w, pos + 5, nf);
        assert(seq![RandomSplitRule { split_info: Some(s0) }] + tail =~= rules);
    }
}

/// The word image of the routes arena: two words per node.
pub open spec fn enc_routes(routes: Seq<(i64, i64)>) -> Seq<i128>
    decreases routes.len(),
{
    if routes.len() == 0 {
        Seq::empty()
    } else {
        seq![routes[0].0 as i128, routes[0].1 as i128] + enc_routes(routes.skip(1))
    }
}

/// Appending one routes entry extends the image on the right.
pub proof fn lemma_enc_routes_snoc(routes: Seq<(i64, i64)>, k: int)
    requires
        0 <= k < routes.len(),
    ensures
        enc_routes(routes.take(k + 1)) == enc_routes(routes.take(k)) + seq![
            routes[k].0 as i128,
            routes[k].1 as i128,
        ],
    decreases k,
{
    if k == 0 {
        assert(routes.take(1)[0] == routes[0]);
        assert(routes.take(1).skip(1) =~= Seq::<(i64, i64)>::empty());
        assert(routes.take(0) =~= Seq::<(i64, i64)>::empty());
        assert(enc_routes(Seq::<(i64, i64)>::empty()) == Seq::<i128>::empty());
        assert(enc_routes(routes.take(1)) == seq![routes[0].0 as i128, routes[0].1 as i128]
            + Seq::<i128>::empty());
        assert(seq![routes[0].0 as i128, routes[0].1 as i128] + Seq::<i128>::empty() =~= seq![
            routes[0].0 as i128,
            routes[0].1 as i128,
        ]);
        assert(Seq::<i128>::empty() + seq![routes[0].0 as i128, routes[0].1 as i128] =~= seq![
            routes[0].0 as i128,
            routes[0].1 as i128,
        ]);
    } else {
        lemma_enc_routes_snoc(routes.skip(1), k - 1);
        assert(routes.take(k + 1)[0] == routes[0]);
        assert(routes.take(k)[0] == routes[0]);
        assert(routes.take(k + 1).skip(1) =~= routes.skip(1).take(k));
        assert(routes.take(k).skip(1) =~= routes.skip(1).take(k - 1));
        assert(routes.skip(1)[k - 1] == routes[k]);
        assert(seq![routes[0].0 as i128, routes[0].1 as i128] + (enc_routes(
            routes.skip(1).take(k - 1),
        ) + seq![routes[k].0 as i128, routes[k].1 as i128]) =~= (seq![
            routes[0].0 as i128,
            routes[0].1 as i128,
        ] + enc_routes(routes.skip(1).take(k - 1))) + seq![
            routes[k].0 as i128,
            routes[k].1 as i128,
        ]);
    }
}

/// One routes entry is valid at arena slot `idx`: within the first `n_split`
/// slots each child is absent or a strictly later real node; beyond them the
/// words must merely be 64-bit.
pub open spec fn route_entry_ok(l: i128, r: i128, idx: int, n_split: int) -> bool {
    &&& i64::MIN <= l <= i64::MAX
    &&& i64::MIN <= r <= i64::MAX
    &&& idx < n_split ==> {
        &&& (l == -1 || idx < l < n_split)
        &&& (r == -1 || idx < r < n_split)
    }
}

/// Reads `count` routes entries from `pos`, the first landing at arena slot
/// `idx`.
pub open spec fn dec_routes(w: Seq<i128>, pos: int, idx: int, count: int, n_split: int) -> Option<
    (Seq<(i64, i64)>, int),
>
    decreases count,
{
    if count <= 0 {
        Some((Seq::empty(), pos))
    } else if pos < 0 || pos + 2 > w.len() {
        None
    } else {
        let l = w[pos];
        let r = w[pos + 1];
        if route_entry_ok(l, r, idx, n_split) {
            match dec_routes(w, pos + 2, idx + 1, count - 1, n_split) {
                None => None,
                Some((rest, p2)) => Some((seq![(l as i64, r as i64)] + rest, p2)),
            }
        } else {
            None
        }
    }
}

/// Whatever decodes as a routes list has valid children everywhere.
pub proof fn lemma_dec_routes_props(w: Seq<i128>, pos: int, idx: int, count: int, n_split: int)
    requires
        dec_routes(w, pos, idx, count, n_split) is Some,
        count >= 0,
    ensures
        ({
            let (routes, p) = dec_routes(w, pos, idx, count, n_split)->0;
            &&& routes.len() == count
            &&& p >= pos
            &&& forall|i: int|
                0 <= i < routes.len() && idx + i < n_split ==> ((#[trigger] routes[i]).0 == -1
                    || idx + i < routes[i].0 < n_split) && (routes[i].1 == -1 || idx + i
                    < routes[i].1 < n_split)
        }),
    decreases count,
{
    if count > 0 {
        lemma_dec_routes_props(w, pos + 2, idx + 1, count - 1, n_split);
        let l = w[pos];
        let r = w[pos + 1];
        let (rest, p2) = dec_routes(w, pos + 2, idx + 1, count - 1, n_split)->0;
        let (routes, p) = dec_routes(w, pos, idx, count, n_split)->0;
        assert(routes == seq![(l as i64, r as i64)] + rest);
        assert forall|i: int|
            0 <= i < routes.len() && idx + i < n_split implies ((#[trigger] routes[i]).0 == -1
                || idx + i < routes[i].0 < n_split) && (routes[i].1 == -1 || idx + i < routes[i].1
                < n_split) by {
            if i == 0 {
                assert(routes[0] == (l as i64, r as i64));
                assert(route_entry_ok(l, r, idx, n_split));
            } else {
                assert(routes[i] == rest[i - 1]);
            }
        }
    }
}

/// A valid routes arena encoded anywhere in a word stream decodes back to
/// itself.
pub proof fn lemma_routes_roundtrip(
    routes: Seq<(i64, i64)>,
    w: Seq<i128>,
    pos: int,
    idx: int,
    n_split: int,
)
    requires
        forall|i: int|
            0 <= i < routes.len() ==> route_entry_ok(
                (#[trigger] routes[i]).0 as i128,
                routes[i].1 as i128,
                idx + i,
                n_split,
            ),
        0 <= pos,
        pos + enc_routes(routes).len() <= w.len(),
        w.subrange(pos, pos + enc_routes(routes).len() as int) == enc_routes(routes),
    ensures
        dec_routes(w, pos, idx, routes.len() as int, n_split) == Some(
            (routes, pos + enc_routes(routes).len()),
        ),
    decreases routes.len(),
{
    if routes.len() == 0 {
        assert(routes =~= Seq::<(i64, i64)>::empty());
    } else {
        let tail = routes.skip(1);
        let e = enc_routes(routes);
        assert(e == seq![routes[0].0 as i128, routes[0].1 as i128] + enc_routes(tail));
        assert(w[pos] == w.subrange(pos, pos + e.len() as int)[0]);
        assert(w[pos + 1] == w.subrange(pos, pos + e.len() as int)[1]);
        assert(w[pos] == routes[0].0 as i128);
        assert(w[pos + 1] == routes[0].1 as i128);
        assert(forall|i: int|
            0 <= i < e.len() ==> w.subrange(pos, pos + e.len() as int)[i] == #[trigger] w[pos
                + i]);
        assert(route_entry_ok(routes[0].0 as i128, routes[0].1 as i128, idx, n_split));
        assert(w.subrange(pos + 2, pos + 2 + enc_routes(tail).len() as int) =~= enc_routes(
            tail,
        )) by {
            assert(forall|i: int|
                0 <= i < enc_routes(tail).len() ==> e[2 + i] == enc_routes(tail)[i]);
        }
        assert(forall|i: int|
            0 <= i < tail.len() ==> route_entry_ok(
                (#[trigger] tail[i]).0 as i128,
                tail[i].1 as i128,
                idx + 1 + i,
                n_split,
            ));
        lemma_routes_roundtrip(tail, w, pos + 2, idx + 1, n_split);
        assert(seq![(routes[0].0, routes[0].1)] + tail =~= routes);
        assert((routes[0].0 as i128) as i64 == routes[0].0);
        assert((routes[0].1 as i128) as i64 == routes[0].1);
    }
}


/// A tree's stored state, as mathematical sequences: what the word codec
/// reads and writes.
pub struct TreeImage {
    /// Configuration.
    pub params: TreeParameters,
    /// The splitters, in arena order.
    pub splitters: Seq<RandomSplitRule>,
    /// The routes arena.
    pub routes: Seq<(i64, i64)>,
    /// The fitted flag.
    pub fitted: bool,
    /// The feature count.
    pub n_features: usize,
}

/// The stored state of a tree value.
pub open spec fn tree_image(t: DecisionTreeImpl) -> TreeImage {
    TreeImage {
        params: t.params,
        splitters: t.splitters@,
        routes: t.routes@,
        fitted: t.fitted,
        n_features: t.n_features,
    }
}

/// The word image of a whole tree: a six-word header — depth, minimum split
/// size, fitted flag, feature count, node count, arena size — then the
/// splitters, then the routes.
pub open spec fn enc_tree(t: DecisionTreeImpl) -> Seq<i128> {
    seq![
        t.params.depth as i128,
        t.params.min_samples_split as i128,
        if t.fitted { 1i128 } else { 0i128 },
        t.n_features as i128,
        t.splitters@.len() as i128,
        t.routes@.len() as i128,
    ] + enc_splitters(t.splitters@) + enc_routes(t.routes@)
}

/// Reads one tree at `pos`: the decoded state, and the next position.
pub open spec fn dec_tree(w: Seq<i128>, pos: int) -> Option<(TreeImage, int)> {
    if pos < 0 || pos + 6 > w.len() {
        None
    } else {
        let depth = w[pos];
        let mss = w[pos + 1];
        let fitted = w[pos + 2];
        let nf = w[pos + 3];
        let nsp = w[pos + 4];
        let nrt = w[pos + 5];
        if 0 <= depth <= u8::MAX && 0 <= mss <= usize::MAX && (fitted == 0 || fitted == 1) && 0
            <= nf <= usize::MAX && 0 <= nsp <= usize::MAX && 0 <= nrt <= usize::MAX && nsp
            <= nrt {
            match dec_splitters(w, pos + 6, nsp as int, nf as int) {
                None => None,
                Some((rules, p1)) => match dec_routes(w, p1, 0, nrt as int, nsp as int) {
                    None => None,
                    Some((routes, p2)) => Some(
                        (
                            TreeImage {
                                params: TreeParameters {
                                    depth: depth as u8,
                                    min_samples_split: mss as usize,
                                },
                                splitters: rules,
                                routes,
                                fitted: fitted == 1,
                                n_features: nf as usize,
                            },
                            p2,
                        ),
                    ),
                },
            }
        } else {
            None
        }
    }
}

/// Two trees with the same stored state walk every sample to the same value.
pub proof fn lemma_same_state_walk(
    a: &DecisionTreeImpl,
    b: &DecisionTreeImpl,
    cols: Seq<Seq<i64>>,
    j: int,
    cur: int,
)
    requires
        a.wf(),
        b.wf(),
        a.splitters@ == b.splitters@,
        a.routes@ == b.routes@,
        0 <= cur < a.splitters@.len(),
    ensures
        a.walk(cols, j, cur) == b.walk(cols, j, cur),
    decreases a.splitters@.len() - cur,
{
    assert(a.node_ok(cur));
    let s = a.splitters@[cur].split_info->0;
    let cond = cols[s.feature as int][j] > s.threshold;
    let nxt = if cond {
        a.routes@[cur].1
    } else {
        a.routes@[cur].0
    };
    if nxt != -1 {
        lemma_same_state_walk(a, b, cols, j, nxt as int);
    }
}

/// Two trees with the same stored state predict identically.
pub proof fn lemma_same_state_tree_predict(
    a: &DecisionTreeImpl,
    b: &DecisionTreeImpl,
    cols: Seq<Seq<i64>>,
    j: int,
)
    requires
        a.wf(),
        b.wf(),
        a.splitters@ == b.splitters@,
        a.routes@ == b.routes@,
    ensures
        a.predict_val(cols, j) == b.predict_val(cols, j),
{
    if a.splitters@.len() > 0 {
        lemma_same_state_walk(a, b, cols, j, 0);
    }
}

/// A well-formed tree's word image decodes back to exactly its state, fully
/// consumed.
#[verifier::rlimit(80)]
pub proof fn lemma_tree_roundtrip(t: DecisionTreeImpl)
    requires
        t.wf(),
    ensures
        ({
            let w = enc_tree(t);
            dec_tree(w, 0) == Some((tree_image(t), w.len() as int))
        }),
{
    assert(t.splitters.len() == t.splitters@.len());
    assert(t.routes.len() == t.routes@.len());
    let w = enc_tree(t);
    let hdr = seq![
        t.params.depth as i128,
        t.params.min_samples_split as i128,
        if t.fitted { 1i128 } else { 0i128 },
        t.n_features as i128,
        t.splitters@.len() as i128,
        t.routes@.len() as i128,
    ];
    let es = enc_splitters(t.splitters@);
    let er = enc_routes(t.routes@);
    assert(w == hdr + es + er);
    lemma_enc_splitters_len(t.splitters@);
    lemma_enc_routes_len(t.routes@);
    assert(w[0] == t.params.depth as i128);
    assert(w[1] == t.params.min_samples_split as i128);
    assert(w[2] == if t.fitted { 1i128 } else { 0i128 });
    assert(w[3] == t.n_features as i128);
    assert(w[4] == t.splitters@.len() as i128);
    assert(w[5] == t.routes@.len() as i128);
    assert forall|i: int|
        0 <= i < t.splitters@.len() implies ((#[trigger] t.splitters@[i]).split_info matches Some(
        s,
    ) && wf_split(s, t.n_features as int)) by {
        assert(t.node_ok(i));
    }
    assert(w.subrange(6, 6 + es.len() as int) =~= es) by {
        assert(forall|i: int| 0 <= i < es.len() ==> w[6 + i] == #[trigger] es[i]);
    }
    lemma_splitters_roundtrip(t.splitters@, w, 6, t.n_features as int);
    assert forall|i: int|
        0 <= i < t.routes@.len() implies route_entry_ok(
        (#[trigger] t.routes@[i]).0 as i128,
        t.routes@[i].1 as i128,
        i,
        t.splitters@.len() as int,
    ) by {
        if i < t.splitters@.len() {
            assert(t.node_ok(i));
        }
    }
    assert(w.subrange(6 + es.len() as int, 6 + es.len() as int + er.len() as int) =~= er) by {
        assert(forall|i: int|
            0 <= i < er.len() ==> w[6 + es.len() as int + i] == #[trigger] er[i]);
    }
    lemma_routes_roundtrip(t.routes@, w, 6 + es.len() as int, 0, t.splitters@.len() as int);
}

/// A splitter list's image has five words per splitter.
pub proof fn lemma_enc_splitters_len(rules: Seq<RandomSplitRule>)
    ensures
        enc_splitters(rules).len() == 5 * rules.len(),
    decreases rules.len(),
{
    if rules.len() > 0 {
        lemma_enc_splitters_len(rules.skip(1));
    }
}

/// A routes image has two words per entry.
pub proof fn lemma_enc_routes_len(routes: Seq<(i64, i64)>)
    ensures
        enc_routes(routes).len() == 2 * routes.len(),
    decreases routes.len(),
{
    if routes.len() > 0 {
        lemma_enc_routes_len(routes.skip(1));
    }
}


/// Writes a well-formed tree's complete state as one word stream.
pub fn tree_to_words(t: &DecisionTreeImpl) -> (r: Vec<i128>)
    requires
        t.wf(),
    ensures
        r@ == enc_tree(*t),
{
    let mut out: Vec<i128> = Vec::new();
    out.push(t.params.depth as i128);
    out.push(t.params.min_samples_split as i128);
    out.push(if t.fitted { 1 } else { 0 });
    out.push(t.n_features as i128);
    out.push(t.splitters.len() as i128);
    out.push(t.routes.len() as i128);
    let ghost hdr = out@;
    let mut k: usize = 0;
    while k < t.splitters.len()
        invariant
            t.wf(),
            0 <= k <= t.splitters@.len(),
            out@ == hdr + enc_splitters(t.splitters@.take(k as int)),
        decreases t.splitters@.len() - k,
    {
        proof {
            assert(t.node_ok(k as int));
            lemma_enc_splitters_snoc(t.splitters@, k as int);
        }
        let s = match &t.splitters[k].split_info {
            Some(s) => *s,
            None => unreached(),
        };
        encode_split_into(&mut out, &s);
        proof {
            assert(enc_rule(t.splitters@[k as int]) == enc_split(s));
            assert(hdr + enc_splitters(t.splitters@.take(k as int)) + enc_split(s) =~= hdr + (
            enc_splitters(t.splitters@.take(k as int)) + enc_rule(t.splitters@[k as int])));
        }
        k = k + 1;
    }
    proof {
        assert(t.splitters@.take(t.splitters@.len() as int) =~= t.splitters@);
    }
    let ghost mid = out@;
    let mut k2: usize = 0;
    while k2 < t.routes.len()
        invariant
            t.wf(),
            mid == hdr + enc_splitters(t.splitters@),
            0 <= k2 <= t.routes@.len(),
            out@ == mid + enc_routes(t.routes@.take(k2 as int)),
        decreases t.routes@.len() - k2,
    {
        proof {
            lemma_enc_routes_snoc(t.routes@, k2 as int);
        }
        let (l, rr) = t.routes[k2];
        out.push(l as i128);
        out.push(rr as i128);
        proof {
            assert(out@ =~= mid + (enc_routes(t.routes@.take(k2 as int)) + seq![
                t.routes@[k2 as int].0 as i128,
                t.routes@[k2 as int].1 as i128,
            ]));
        }
        k2 = k2 + 1;
    }
    proof {
        assert(t.routes@.take(t.routes@.len() as int) =~= t.routes@);
        assert(out@ =~= enc_tree(*t));
    }
    out
}

/// Reads `count` splitters; exactly `dec_splitters`.
fn decode_splitters(w: &Vec<i128>, pos: usize, count: usize, nf: usize) -> (r: Option<
    (Vec<RandomSplitRule>, usize),
>)
    ensures
        match r {
            Some((v, p)) => dec_splitters(w@, pos as int, count as int, nf as int) == Some(
                (v@, p as int),
            ),
            None => dec_splitters(w@, pos as int, count as int, nf as int) is None,
        },
{
    let mut parsed: Vec<RandomSplitRule> = Vec::new();
    let mut cur: usize = pos;
    let mut k: usize = 0;
    while k < count
        invariant
            0 <= k <= count,
            parsed@.len() == k,
            dec_splitters(w@, pos as int, count as int, nf as int) == (match dec_splitters(
                w@,
                cur as int,
                count - k,
                nf as int,
            ) {
                None => None::<(Seq<RandomSplitRule>, int)>,
                Some((rest, p)) => Some((parsed@ + rest, p)),
            }),
        decreases count - k,
    {
        match decode_split(w, cur, nf) {
            None => {
                return None;
            },
            Some((s, p1)) => {
                proof {
                    let (rest2, pp) = dec_splitters(w@, p1 as int, count - k - 1, nf as int)->0;
                    if dec_splitters(w@, p1 as int, count - k - 1, nf as int) is Some {
                        assert(parsed@ + (seq![RandomSplitRule { split_info: Some(s) }] + rest2)
                            =~= parsed@.push(RandomSplitRule { split_info: Some(s) }) + rest2);
                    }
                }
                parsed.push(RandomSplitRule { split_info: Some(s) });
                cur = p1;
            },
        }
        k = k + 1;
    }
    proof {
        assert(parsed@ + Seq::<RandomSplitRule>::empty() =~= parsed@);
    }
    Some((parsed, cur))
}

/// Reads `count` routes entries; exactly `dec_routes`.
fn decode_routes(w: &Vec<i128>, pos: usize, count: usize, n_split: usize) -> (r: Option<
    (Vec<(i64, i64)>, usize),
>)
    ensures
        match r {
            Some((v, p)) => dec_routes(w@, pos as int, 0, count as int, n_split as int) == Some(
                (v@, p as int),
            ),
            None => dec_routes(w@, pos as int, 0, count as int, n_split as int) is None,
        },
{
    let mut parsed: Vec<(i64, i64)> = Vec::new();
    let mut cur: usize = pos;
    let mut k: usize = 0;
    while k < count
        invariant
            0 <= k <= count,
            parsed@.len() == k,
            dec_routes(w@, pos as int, 0, count as int, n_split as int) == (match dec_routes(
                w@,
                cur as int,
                k as int,
                count - k,
                n_split as int,
            ) {
                None => None::<(Seq<(i64, i64)>, int)>,
                Some((rest, p)) => Some((parsed@ + rest, p)),
            }),
        decreases count - k,
    {
        if w.len() < 2 || cur > w.len() - 2 {
            return None;
        }
        let l = w[cur];
        let rr = w[cur + 1];
        let idx_lt = k < n_split;
        let l_in = l >= i64::MIN as i128 && l <= i64::MAX as i128;
        let r_in = rr >= i64::MIN as i128 && rr <= i64::MAX as i128;
        let l_child = l == -1 || (l > k as i128 && l < n_split as i128);
        let r_child = rr == -1 || (rr > k as i128 && rr < n_split as i128);
        let ok = l_in && r_in && (!idx_lt || (l_child && r_child));
        if !ok {
            proof {
                assert(!route_entry_ok(l, rr, k as int, n_split as int));
            }
            return None;
        }
        proof {
            assert(route_entry_ok(l, rr, k as int, n_split as int));
            let (rest2, pp) = dec_routes(
                w@,
                cur + 2,
                k as int + 1,
                count - k - 1,
                n_split as int,
            )->0;
            if dec_routes(w@, cur + 2, k as int + 1, count - k - 1, n_split as int) is Some {
                assert(parsed@ + (seq![(l as i64, rr as i64)] + rest2) =~= parsed@.push(
                    (l as i64, rr as i64),
                ) + rest2);
            }
        }
        parsed.push((l as i64, rr as i64));
        cur = cur + 2;
        k = k + 1;
    }
    proof {
        assert(parsed@ + Seq::<(i64, i64)>::empty() =~= parsed@);
    }
    Some((parsed, cur))
}

/// Reads one tree at `pos`; exactly `dec_tree`, and the decoded tree is well
/// formed.
pub fn decode_tree_at(w: &Vec<i128>, pos: usize) -> (r: Option<(DecisionTreeImpl, usize)>)
    ensures
        match r {
            Some((t, p)) => dec_tree(w@, pos as int) == Some((tree_image(t), p as int))
                && t.wf(),
            None => dec_tree(w@, pos as int) is None,
        },
{
    if w.len() < 6 || pos > w.len() - 6 {
        return None;
    }
    let depth = w[pos];
    let mss = w[pos + 1];
    let fitted = w[pos + 2];
    let nf = w[pos + 3];
    let nsp = w[pos + 4];
    let nrt = w[pos + 5];
    if !(0 <= depth && depth <= u8::MAX as i128 && 0 <= mss && mss <= usize::MAX as i128 && (
    fitted == 0 || fitted == 1) && 0 <= nf && nf <= usize::MAX as i128 && 0 <= nsp && nsp
        <= usize::MAX as i128 && 0 <= nrt && nrt <= usize::MAX as i128 && nsp <= nrt) {
        return None;
    }
    let (rules, p1) = match decode_splitters(w, pos + 6, nsp as usize, nf as usize) {
        None => {
            return None;
        },
        Some(x) => x,
    };
    let (routes, p2) = match decode_routes(w, p1, nrt as usize, nsp as usize) {
        None => {
            return None;
        },
        Some(x) => x,
    };
    let t = DecisionTreeImpl {
        params: TreeParameters { depth: depth as u8, min_samples_split: mss as usize },
        splitters: rules,
        routes,
        fitted: fitted == 1,
        n_features: nf as usize,
    };
    proof {
        lemma_dec_splitters_props(w@, pos + 6, nsp as int, nf as int);
        let (rules_s, p1_s) = dec_splitters(w@, pos + 6, nsp as int, nf as int)->0;
        lemma_dec_routes_props(w@, p1_s, 0, nrt as int, nsp as int);
        assert(t.wf()) by {
            assert(t.splitters@.len() == nsp);
            assert(t.routes@.len() == nrt);
            assert forall|i: int| 0 <= i < t.splitters@.len() implies t.node_ok(i) by {
                assert(t.splitters@[i].split_info matches Some(s2) && wf_split(
                    s2,
                    nf as int,
                ));
            }
        }
    }
    Some((t, p2))
}


/// Reads a tree from a whole word stream: succeeds exactly on a stream that
/// is one valid tree image, fully consumed.
pub fn tree_from_words(w: &Vec<i128>) -> (r: Option<DecisionTreeImpl>)
    ensures
        match r {
            Some(t) => dec_tree(w@, 0) == Some((tree_image(t), w@.len() as int)) && t.wf(),
            None => !(dec_tree(w@, 0) matches Some((img, p)) && p == w@.len()),
        },
{
    match decode_tree_at(w, 0) {
        Some((t, p)) => {
            if p == w.len() {
                Some(t)
            } else {
                None
            }
        },
        None => None,
    }
}


/// A gradient-boosting model's stored state, as mathematical sequences.
pub struct GbmImage {
    /// Configuration.
    pub params: GradientBoostingParameters,
    /// The member trees' stored states, in round order.
    pub trees: Seq<TreeImage>,
    /// The bias.
    pub mean: i64,
    /// The fitted flag.
    pub fitted: bool,
    /// The feature count.
    pub n_features: usize,
}

/// The stored state of a gradient-boosting value.
pub open spec fn gbm_image(g: GradientBoostingImpl) -> GbmImage {
    GbmImage {
        params: g.params,
        trees: g.estimators@.map_values(|t: DecisionTreeImpl| tree_image(t)),
        mean: g.mean,
        fitted: g.fitted,
        n_features: g.n_features,
    }
}

/// The word image of a tree list, in order.
pub open spec fn enc_trees(ts: Seq<DecisionTreeImpl>) -> Seq<i128>
    decreases ts.len(),
{
    if ts.len() == 0 {
        Seq::empty()
    } else {
        enc_tree(ts[0]) + enc_trees(ts.skip(1))
    }
}

/// Appending one tree extends the image on the right.
pub proof fn lemma_enc_trees_snoc(ts: Seq<DecisionTreeImpl>, k: int)
    requires
        0 <= k < ts.len(),
    ensures
        enc_trees(ts.take(k + 1)) == enc_trees(ts.take(k)) + enc_tree(ts[k]),
    decreases k,
{
    if k == 0 {
        assert(ts.take(1)[0] == ts[0]);
        assert(ts.take(1).skip(1) =~= Seq::<DecisionTreeImpl>::empty());
        assert(ts.take(0) =~= Seq::<DecisionTreeImpl>::empty());
        assert(enc_trees(Seq::<DecisionTreeImpl>::empty()) == Seq::<i128>::empty());
        assert(enc_trees(ts.take(1)) == enc_tree(ts[0]) + Seq::<i128>::empty());
        assert(enc_tree(ts[0]) + Seq::<i128>::empty() =~= enc_tree(ts[0]));
        assert(Seq::<i128>::empty() + enc_tree(ts[0]) =~= enc_tree(ts[0]));
    } else {
        lemma_enc_trees_snoc(ts.skip(1), k - 1);
        assert(ts.take(k + 1)[0] == ts[0]);
        assert(ts.take(k)[0] == ts[0]);
        assert(ts.take(k + 1).skip(1) =~= ts.skip(1).take(k));
        assert(ts.take(k).skip(1) =~= ts.skip(1).take(k - 1));
        assert(ts.skip(1)[k - 1] == ts[k]);
        assert(enc_tree(ts[0]) + (enc_trees(ts.skip(1).take(k - 1)) + enc_tree(ts[k])) =~= (
        enc_tree(ts[0]) + enc_trees(ts.skip(1).take(k - 1))) + enc_tree(ts[k]));
    }
}

/// Reads `count` trees from `pos`, each of which must be fitted over `nf`
/// features.
pub open spec fn dec_trees(w: Seq<i128>, pos: int, count: int, nf: int) -> Option<
    (Seq<TreeImage>, int),
>
    decreases count,
{
    if count <= 0 {
        Some((Seq::empty(), pos))
    } else {
        match dec_tree(w, pos) {
            None => None,
            Some((img, p1)) => {
                if img.fitted && img.n_features == nf {
                    match dec_trees(w, p1, count - 1, nf) {
                        None => None,
                        Some((rest, p2)) => Some((seq![img] + rest, p2)),
                    }
                } else {
                    None
                }
            },
        }
    }
}

/// A list of fitted, well-formed trees over `nf` features encoded anywhere in
/// a word stream decodes back to its images.
pub proof fn lemma_trees_roundtrip(ts: Seq<DecisionTreeImpl>, w: Seq<i128>, pos: int, nf: int)
    requires
        forall|i: int|
            0 <= i < ts.len() ==> (#[trigger] ts[i]).wf() && ts[i].fitted && ts[i].n_features
                == nf,
        0 <= pos,
        pos + enc_trees(ts).len() <= w.len(),
        w.subrange(pos, pos + enc_trees(ts).len() as int) == enc_trees(ts),
    ensures
        dec_trees(w, pos, ts.len() as int, nf) == Some(
            (ts.map_values(|t: DecisionTreeImpl| tree_image(t)), pos + enc_trees(ts).len()),
        ),
    decreases ts.len(),
{
    if ts.len() == 0 {
        assert(ts.map_values(|t: DecisionTreeImpl| tree_image(t)) =~= Seq::<TreeImage>::empty());
    } else {
        let t0 = ts[0];
        let tail = ts.skip(1);
        let e = enc_trees(ts);
        assert(e == enc_tree(t0) + enc_trees(tail));
        assert(forall|i: int|
            0 <= i < e.len() ==> w.subrange(pos, pos + e.len() as int)[i] == #[trigger] w[pos
                + i]);
        assert(w.subrange(pos, pos + enc_tree(t0).len() as int) =~= enc_tree(t0)) by {
            assert(forall|i: int| 0 <= i < enc_tree(t0).len() ==> e[i] == #[trigger] enc_tree(
                t0,
            )[i]);
        }
        lemma_tree_roundtrip(t0);
        lemma_dec_tree_shift(t0, w, pos);
        assert(w.subrange(
            pos + enc_tree(t0).len() as int,
            pos + enc_tree(t0).len() as int + enc_trees(tail).len() as int,
        ) =~= enc_trees(tail)) by {
            assert(forall|i: int|
                0 <= i < enc_trees(tail).len() ==> e[enc_tree(t0).len() + i]
                    == #[trigger] enc_trees(tail)[i]);
        }
        lemma_trees_roundtrip(tail, w, pos + enc_tree(t0).len() as int, nf);
        assert(seq![tree_image(t0)] + tail.map_values(|t: DecisionTreeImpl| tree_image(t))
            =~= ts.map_values(|t: DecisionTreeImpl| tree_image(t)));
    }
}

/// Decoding a tree depends only on the words of its own image: an image
/// placed at `pos` in any stream long enough decodes there.
pub proof fn lemma_dec_tree_shift(t: DecisionTreeImpl, w: Seq<i128>, pos: int)
    requires
        t.wf(),
        0 <= pos,
        pos + enc_tree(t).len() <= w.len(),
        w.subrange(pos, pos + enc_tree(t).len() as int) == enc_tree(t),
    ensures
        dec_tree(w, pos) == Some((tree_image(t), pos + enc_tree(t).len())),
{
    lemma_tree_roundtrip(t);
    let e = enc_tree(t);
    assert(forall|i: int|
        0 <= i < e.len() ==> w.subrange(pos, pos + e.len() as int)[i] == #[trigger] w[pos + i]);
    assert(t.splitters.len() == t.splitters@.len());
    assert(t.routes.len() == t.routes@.len());
    lemma_enc_splitters_len(t.splitters@);
    lemma_enc_routes_len(t.routes@);
    let es = enc_splitters(t.splitters@);
    let er = enc_routes(t.routes@);
    assert(w[pos] == e[0]);
    assert(w[pos + 1] == e[1]);
    assert(w[pos + 2] == e[2]);
    assert(w[pos + 3] == e[3]);
    assert(w[pos + 4] == e[4]);
    assert(w[pos + 5] == e[5]);
    assert forall|i: int|
        0 <= i < t.splitters@.len() implies ((#[trigger] t.splitters@[i]).split_info matches Some(
        s,
    ) && wf_split(s, t.n_features as int)) by {
        assert(t.node_ok(i));
    }
    assert(w.subrange(pos + 6, pos + 6 + es.len() as int) =~= es) by {
        assert(forall|i: int| 0 <= i < es.len() ==> e[6 + i] == #[trigger] es[i]);
    }
    lemma_splitters_roundtrip(t.splitters@, w, pos + 6, t.n_features as int);
    assert forall|i: int|
        0 <= i < t.routes@.len() implies route_entry_ok(
        (#[trigger] t.routes@[i]).0 as i128,
        t.routes@[i].1 as i128,
        i,
        t.splitters@.len() as int,
    ) by {
        if i < t.splitters@.len() {
            assert(t.node_ok(i));
        }
    }
    assert(w.subrange(
        pos + 6 + es.len() as int,
        pos + 6 + es.len() as int + er.len() as int,
    ) =~= er) by {
        assert(forall|i: int| 0 <= i < er.len() ==> e[6 + es.len() + i] == #[trigger] er[i]);
    }
    lemma_routes_roundtrip(t.routes@, w, pos + 6 + es.len() as int, 0, t.splitters@.len() as int);
}

/// The word image of a whole gradient-boosting model: a nine-word header —
/// tree depth, minimum split size, round count, shrinkage numerator and
/// denominator, bias, fitted flag, feature count, tree count — then the
/// trees.
pub open spec fn enc_gbm(g: GradientBoostingImpl) -> Seq<i128> {
    seq![
        g.params.est_params.depth as i128,
        g.params.est_params.min_samples_split as i128,
        g.params.n_estimators as i128,
        g.params.learning_rate.num as i128,
        g.params.learning_rate.den as i128,
        g.mean as i128,
        if g.fitted { 1i128 } else { 0i128 },
        g.n_features as i128,
        g.estimators@.len() as i128,
    ] + enc_trees(g.estimators@)
}

/// Reads one gradient-boosting model at `pos`.
pub open spec fn dec_gbm(w: Seq<i128>, pos: int) -> Option<(GbmImage, int)> {
    if pos < 0 || pos + 9 > w.len() {
        None
    } else {
        let depth = w[pos];
        let mss = w[pos + 1];
        let n_est = w[pos + 2];
        let num = w[pos + 3];
        let den = w[pos + 4];
        let mean = w[pos + 5];
        let fitted = w[pos + 6];
        let nf = w[pos + 7];
        let ntr = w[pos + 8];
        if 0 <= depth <= MAX_TREE_DEPTH && 0 <= mss <= usize::MAX && 0 <= n_est <= u32::MAX && 0
            <= num && 1 <= den <= u32::MAX && num <= den && -(VALUE_BOUND as int) <= mean
            <= VALUE_BOUND as int && (fitted == 0 || fitted == 1) && 0 <= nf <= usize::MAX && ntr
            == n_est {
            match dec_trees(w, pos + 9, ntr as int, nf as int) {
                None => None,
                Some((trees, p1)) => Some(
                    (
                        GbmImage {
                            params: GradientBoostingParameters {
                                est_params: TreeParameters {
                                    depth: depth as u8,
                                    min_samples_split: mss as usize,
                                },
                                n_estimators: n_est as u32,
                                learning_rate: LearningRate { num: num as u32, den: den as u32 },
                            },
                            trees,
                            mean: mean as i64,
                            fitted: fitted == 1,
                            n_features: nf as usize,
                        },
                        p1,
                    ),
                ),
            }
        } else {
            None
        }
    }
}

/// A well-formed, fitted gradient-boosting model's word image decodes back to
/// exactly its state, fully consumed.
#[verifier::rlimit(80)]
pub proof fn lemma_gbm_roundtrip(g: GradientBoostingImpl)
    requires
        g.wf(),
        g.fitted,
    ensures
        ({
            let w = enc_gbm(g);
            dec_gbm(w, 0) == Some((gbm_image(g), w.len() as int))
        }),
{
    assert(g.estimators.len() == g.estimators@.len());
    let w = enc_gbm(g);
    let et = enc_trees(g.estimators@);
    assert(w[0] == g.params.est_params.depth as i128);
    assert(w[1] == g.params.est_params.min_samples_split as i128);
    assert(w[2] == g.params.n_estimators as i128);
    assert(w[3] == g.params.learning_rate.num as i128);
    assert(w[4] == g.params.learning_rate.den as i128);
    assert(w[5] == g.mean as i128);
    assert(w[6] == if g.fitted { 1i128 } else { 0i128 });
    assert(w[7] == g.n_features as i128);
    assert(w[8] == g.estimators@.len() as i128);
    assert(w.subrange(9, 9 + et.len() as int) =~= et) by {
        assert(forall|i: int| 0 <= i < et.len() ==> w[9 + i] == #[trigger] et[i]);
    }
    lemma_trees_roundtrip(g.estimators@, w, 9, g.n_features as int);
}

/// Writes a well-formed, fitted gradient-boosting model's complete state as
/// one word stream.
pub fn gbm_to_words(g: &GradientBoostingImpl) -> (r: Vec<i128>)
    requires
        g.wf(),
    ensures
        r@ == enc_gbm(*g),
{
    let mut out: Vec<i128> = Vec::new();
    out.push(g.params.est_params.depth as i128);
    out.push(g.params.est_params.min_samples_split as i128);
    out.push(g.params.n_estimators as i128);
    out.push(g.params.learning_rate.num as i128);
    out.push(g.params.learning_rate.den as i128);
    out.push(g.mean as i128);
    out.push(if g.fitted { 1 } else { 0 });
    out.push(g.n_features as i128);
    out.push(g.estimators.len() as i128);
    let ghost hdr = out@;
    let mut k: usize = 0;
    while k < g.estimators.len()
        invariant
            g.wf(),
            0 <= k <= g.estimators@.len(),
            out@ == hdr + enc_trees(g.estimators@.take(k as int)),
        decreases g.estimators@.len() - k,
    {
        proof {
            lemma_enc_trees_snoc(g.estimators@, k as int);
        }
        let tw = tree_to_words(&g.estimators[k]);
        let mut i: usize = 0;
        let ghost pre = out@;
        while i < tw.len()
            invariant
                0 <= i <= tw@.len(),
                out@ == pre + tw@.take(i as int),
            decreases tw@.len() - i,
        {
            proof {
                assert(tw@.take(i + 1).drop_last() =~= tw@.take(i as int));
                assert(pre + tw@.take(i + 1) =~= (pre + tw@.take(i as int)).push(tw@[i as int]));
            }
            out.push(tw[i]);
            i = i + 1;
        }
        proof {
            assert(tw@.take(tw@.len() as int) =~= tw@);
            assert(pre + tw@ =~= hdr + (enc_trees(g.estimators@.take(k as int)) + enc_tree(
                g.estimators@[k as int],
            )));
        }
        k = k + 1;
    }
    proof {
        assert(g.estimators@.take(g.estimators@.len() as int) =~= g.estimators@);
        assert(out@ =~= enc_gbm(*g));
    }
    out
}

/// Reads a gradient-boosting model from a whole word stream: succeeds exactly
/// on a stream that is one valid model image, fully consumed; the decoded
/// model is well formed.
pub fn gbm_from_words(w: &Vec<i128>) -> (r: Option<GradientBoostingImpl>)
    ensures
        match r {
            Some(g) => dec_gbm(w@, 0) == Some((gbm_image(g), w@.len() as int)) && g.wf(),
            None => !(dec_gbm(w@, 0) matches Some((img, p)) && p == w@.len()),
        },
{
    match decode_gbm_at(w, 0) {
        Some((g, p)) => {
            if p == w.len() {
                Some(g)
            } else {
                None
            }
        },
        None => None,
    }
}

/// Reads one gradient-boosting model at `pos`; exactly `dec_gbm`, and the
/// decoded model is well formed.
pub fn decode_gbm_at(w: &Vec<i128>, pos: usize) -> (r: Option<(GradientBoostingImpl, usize)>)
    ensures
        match r {
            Some((g, p)) => dec_gbm(w@, pos as int) == Some((gbm_image(g), p as int)) && g.wf(),
            None => dec_gbm(w@, pos as int) is None,
        },
{
    if w.len() < 9 || pos > w.len() - 9 {
        return None;
    }
    let depth = w[pos];
    let mss = w[pos + 1];
    let n_est = w[pos + 2];
    let num = w[pos + 3];
    let den = w[pos + 4];
    let mean = w[pos + 5];
    let fitted = w[pos + 6];
    let nf = w[pos + 7];
    let ntr = w[pos + 8];
    if !(0 <= depth && depth <= MAX_TREE_DEPTH as i128 && 0 <= mss && mss <= usize::MAX as i128
        && 0 <= n_est && n_est <= u32::MAX as i128 && 0 <= num && 1 <= den && den
        <= u32::MAX as i128 && num <= den && -(VALUE_BOUND as i128) <= mean && mean
        <= VALUE_BOUND as i128 && (fitted == 0 || fitted == 1) && 0 <= nf && nf
        <= usize::MAX as i128 && ntr == n_est) {
        return None;
    }
    let count = ntr as usize;
    let nfu = nf as usize;
    let mut trees: Vec<DecisionTreeImpl> = Vec::new();
    let mut cur: usize = pos + 9;
    let mut k: usize = 0;
    while k < count
        invariant
            0 <= k <= count,
            trees@.len() == k,
            0 <= nf <= usize::MAX,
            nfu == nf as usize,
            count == ntr as usize,
            dec_gbm(w@, pos as int) == (match dec_trees(w@, pos + 9, count as int, nf as int) {
                None => None::<(GbmImage, int)>,
                Some((trees2, p)) => Some(
                    (
                        GbmImage {
                            params: GradientBoostingParameters {
                                est_params: TreeParameters {
                                    depth: depth as u8,
                                    min_samples_split: mss as usize,
                                },
                                n_estimators: n_est as u32,
                                learning_rate: LearningRate { num: num as u32, den: den as u32 },
                            },
                            trees: trees2,
                            mean: mean as i64,
                            fitted: fitted == 1,
                            n_features: nf as usize,
                        },
                        p,
                    ),
                ),
            }),
            forall|i: int|
                0 <= i < k ==> (#[trigger] trees@[i]).wf() && trees@[i].fitted
                    && trees@[i].n_features == nfu,
            dec_trees(w@, pos + 9, count as int, nf as int) == (match dec_trees(
                w@,
                cur as int,
                count - k,
                nf as int,
            ) {
                None => None::<(Seq<TreeImage>, int)>,
                Some((rest, p)) => Some(
                    (trees@.map_values(|t: DecisionTreeImpl| tree_image(t)) + rest, p),
                ),
            }),
        decreases count - k,
    {
        match decode_tree_at(w, cur) {
            None => {
                proof {
                    assert(dec_trees(w@, cur as int, count - k, nf as int) is None);
                    assert(dec_trees(w@, pos + 9, count as int, nf as int) is None);
                    assert(dec_gbm(w@, pos as int) is None);
                }
                return None;
            },
            Some((t, p1)) => {
                proof {
                    assert(tree_image(t).fitted == t.fitted);
                    assert(tree_image(t).n_features == t.n_features);
                }
                if !(t.fitted && t.n_features == nfu) {
                    proof {
                        assert(dec_trees(w@, cur as int, count - k, nf as int) is None);
                        assert(dec_trees(w@, pos + 9, count as int, nf as int) is None);
                        assert(dec_gbm(w@, pos as int) is None);
                    }
                    return None;
                }
                proof {
                    assert(dec_tree(w@, cur as int) == Some((tree_image(t), p1 as int)));
                    assert(count - k > 0);
                    assert(tree_image(t).fitted);
                    assert(tree_image(t).n_features == nf);
                    assert(dec_trees(w@, cur as int, count - k, nf as int) == (match dec_trees(
                        w@,
                        p1 as int,
                        count - k - 1,
                        nf as int,
                    ) {
                        None => None::<(Seq<TreeImage>, int)>,
                        Some((rest, p)) => Some((seq![tree_image(t)] + rest, p)),
                    }));
                }
                proof {
                    let m = trees@.map_values(|t2: DecisionTreeImpl| tree_image(t2));
                    if dec_trees(w@, p1 as int, count - k - 1, nf as int) is Some {
                        let (rest2, pp) = dec_trees(w@, p1 as int, count - k - 1, nf as int)->0;
                        assert(m + (seq![tree_image(t)] + rest2) =~= trees@.push(t).map_values(
                            |t2: DecisionTreeImpl| tree_image(t2),
                        ) + rest2) by {
                            assert(trees@.push(t).map_values(
                                |t2: DecisionTreeImpl| tree_image(t2),
                            ) =~= m.push(tree_image(t)));
                            assert(m + (seq![tree_image(t)] + rest2) =~= m.push(tree_image(t))
                                + rest2);
                        }
                    }
                }
                trees.push(t);
                cur = p1;
            },
        }
        k = k + 1;
    }
    proof {
        assert(trees@.map_values(|t2: DecisionTreeImpl| tree_image(t2))
            + Seq::<TreeImage>::empty() =~= trees@.map_values(
            |t2: DecisionTreeImpl| tree_image(t2),
        ));
    }
    let g = GradientBoostingImpl {
        params: GradientBoostingParameters {
            est_params: TreeParameters { depth: depth as u8, min_samples_split: mss as usize },
            n_estimators: n_est as u32,
            learning_rate: LearningRate { num: num as u32, den: den as u32 },
        },
        estimators: trees,
        mean: mean as i64,
        fitted: fitted == 1,
        n_features: nfu,
    };
    proof {
        assert(g.wf());
        assert(gbm_image(g).trees =~= trees@.map_values(|t2: DecisionTreeImpl| tree_image(t2)));
    }
    Some((g, cur))
}

/// Two gradient-boosting models with the same stored state predict
/// identically: their partial sums agree member by member.
pub proof fn lemma_same_state_gbm_sum(
    a: &GradientBoostingImpl,
    b: &GradientBoostingImpl,
    cols: Seq<Seq<i64>>,
    j: int,
    k: int,
)
    requires
        a.wf(),
        b.wf(),
        gbm_image(*a) == gbm_image(*b),
        0 <= k <= a.estimators@.len(),
    ensures
        a.predict_sum(cols, j, k) == b.predict_sum(cols, j, k),
    decreases k,
{
    assert(a.estimators@.len() == b.estimators@.len()) by {
        assert(gbm_image(*a).trees.len() == a.estimators@.len());
        assert(gbm_image(*b).trees.len() == b.estimators@.len());
    }
    if k > 0 {
        lemma_same_state_gbm_sum(a, b, cols, j, k - 1);
        assert(gbm_image(*a).trees[k - 1] == gbm_image(*b).trees[k - 1]);
        assert(gbm_image(*a).trees[k - 1] == tree_image(a.estimators@[k - 1]));
        assert(gbm_image(*b).trees[k - 1] == tree_image(b.estimators@[k - 1]));
        assert(tree_image(a.estimators@[k - 1]) == tree_image(b.estimators@[k - 1]));
        lemma_same_state_tree_predict(&a.estimators@[k - 1], &b.estimators@[k - 1], cols, j);
    }
}

/// Two gradient-boosting models with the same stored state predict
/// identically.
pub proof fn lemma_same_state_gbm_predict(
    a: &GradientBoostingImpl,
    b: &GradientBoostingImpl,
    cols: Seq<Seq<i64>>,
    j: int,
)
    requires
        a.wf(),
        b.wf(),
        gbm_image(*a) == gbm_image(*b),
    ensures
        a.predict_val(cols, j) == b.predict_val(cols, j),
{
    assert(a.estimators@.len() == b.estimators@.len()) by {
        assert(gbm_image(*a).trees.len() == a.estimators@.len());
        assert(gbm_image(*b).trees.len() == b.estimators@.len());
    }
    lemma_same_state_gbm_sum(a, b, cols, j, a.estimators@.len() as int);
}


/// Decoding a gradient-boosting model depends only on its own words: an image
/// placed at `pos` in any stream long enough decodes there.
#[verifier::rlimit(80)]
pub proof fn lemma_dec_gbm_shift(g: GradientBoostingImpl, w: Seq<i128>, pos: int)
    requires
        g.wf(),
        g.fitted,
        0 <= pos,
        pos + enc_gbm(g).len() <= w.len(),
        w.subrange(pos, pos + enc_gbm(g).len() as int) == enc_gbm(g),
    ensures
        dec_gbm(w, pos) == Some((gbm_image(g), pos + enc_gbm(g).len())),
{
    assert(g.estimators.len() == g.estimators@.len());
    let e = enc_gbm(g);
    let et = enc_trees(g.estimators@);
    assert(forall|i: int|
        0 <= i < e.len() ==> w.subrange(pos, pos + e.len() as int)[i] == #[trigger] w[pos + i]);
    assert(w[pos] == e[0]);
    assert(w[pos + 1] == e[1]);
    assert(w[pos + 2] == e[2]);
    assert(w[pos + 3] == e[3]);
    assert(w[pos + 4] == e[4]);
    assert(w[pos + 5] == e[5]);
    assert(w[pos + 6] == e[6]);
    assert(w[pos + 7] == e[7]);
    assert(w[pos + 8] == e[8]);
    assert(w.subrange(pos + 9, pos + 9 + et.len() as int) =~= et) by {
        assert(forall|i: int| 0 <= i < et.len() ==> e[9 + i] == #[trigger] et[i]);
    }
    lemma_trees_roundtrip(g.estimators@, w, pos + 9, g.n_features as int);
}

/// An averaging ensemble's stored state, as mathematical sequences.
pub struct EnsImage {
    /// The members' stored states, in member order.
    pub members: Seq<GbmImage>,
    /// The fitted flag.
    pub fitted: bool,
    /// The feature count.
    pub n_features: usize,
}

/// The stored state of an ensemble value.
pub open spec fn ens_image(e: AverageEnsemble) -> EnsImage {
    EnsImage {
        members: e.estimators@.map_values(|g: GradientBoostingImpl| gbm_image(g)),
        fitted: e.fitted,
        n_features: e.n_features,
    }
}

/// The word image of a member list, in order.
pub open spec fn enc_gbms(gs: Seq<GradientBoostingImpl>) -> Seq<i128>
    decreases gs.len(),
{
    if gs.len() == 0 {
        Seq::empty()
    } else {
        enc_gbm(gs[0]) + enc_gbms(gs.skip(1))
    }
}

/// Appending one member extends the image on the right.
pub proof fn lemma_enc_gbms_snoc(gs: Seq<GradientBoostingImpl>, k: int)
    requires
        0 <= k < gs.len(),
    ensures
        enc_gbms(gs.take(k + 1)) == enc_gbms(gs.take(k)) + enc_gbm(gs[k]),
    decreases k,
{
    if k == 0 {
        assert(gs.take(1)[0] == gs[0]);
        assert(gs.take(1).skip(1) =~= Seq::<GradientBoostingImpl>::empty());
        assert(gs.take(0) =~= Seq::<GradientBoostingImpl>::empty());
        assert(enc_gbms(Seq::<GradientBoostingImpl>::empty()) == Seq::<i128>::empty());
        assert(enc_gbms(gs.take(1)) == enc_gbm(gs[0]) + Seq::<i128>::empty());
        assert(enc_gbm(gs[0]) + Seq::<i128>::empty() =~= enc_gbm(gs[0]));
        assert(Seq::<i128>::empty() + enc_gbm(gs[0]) =~= enc_gbm(gs[0]));
    } else {
        lemma_enc_gbms_snoc(gs.skip(1), k - 1);
        assert(gs.take(k + 1)[0] == gs[0]);
        assert(gs.take(k)[0] == gs[0]);
        assert(gs.take(k + 1).skip(1) =~= gs.skip(1).take(k));
        assert(gs.take(k).skip(1) =~= gs.skip(1).take(k - 1));
        assert(gs.skip(1)[k - 1] == gs[k]);
        assert(enc_gbm(gs[0]) + (enc_gbms(gs.skip(1).take(k - 1)) + enc_gbm(gs[k])) =~= (enc_gbm(
            gs[0],
        ) + enc_gbms(gs.skip(1).take(k - 1))) + enc_gbm(gs[k]));
    }
}

/// Reads `count` fitted members from `pos`, each over `nf` features.
pub open spec fn dec_gbms(w: Seq<i128>, pos: int, count: int, nf: int) -> Option<
    (Seq<GbmImage>, int),
>
    decreases count,
{
    if count <= 0 {
        Some((Seq::empty(), pos))
    } else {
        match dec_gbm(w, pos) {
            None => None,
            Some((img, p1)) => {
                if img.fitted && img.n_features == nf {
                    match dec_gbms(w, p1, count - 1, nf) {
                        None => None,
                        Some((rest, p2)) => Some((seq![img] + rest, p2)),
                    }
                } else {
                    None
                }
            },
        }
    }
}

/// A list of fitted, well-formed members over `nf` features encoded anywhere
/// in a word stream decodes back to its images.
pub proof fn lemma_gbms_roundtrip(gs: Seq<GradientBoostingImpl>, w: Seq<i128>, pos: int, nf: int)
    requires
        forall|i: int|
            0 <= i < gs.len() ==> (#[trigger] gs[i]).wf() && gs[i].fitted && gs[i].n_features
                == nf,
        0 <= pos,
        pos + enc_gbms(gs).len() <= w.len(),
        w.subrange(pos, pos + enc_gbms(gs).len() as int) == enc_gbms(gs),
    ensures
        dec_gbms(w, pos, gs.len() as int, nf) == Some(
            (gs.map_values(|g: GradientBoostingImpl| gbm_image(g)), pos + enc_gbms(gs).len()),
        ),
    decreases gs.len(),
{
    if gs.len() == 0 {
        assert(gs.map_values(|g: GradientBoostingImpl| gbm_image(g)) =~= Seq::<GbmImage>::empty());
    } else {
        let g0 = gs[0];
        let tail = gs.skip(1);
        let e = enc_gbms(gs);
        assert(e == enc_gbm(g0) + enc_gbms(tail));
        assert(forall|i: int|
            0 <= i < e.len() ==> w.subrange(pos, pos + e.len() as int)[i] == #[trigger] w[pos
                + i]);
        assert(w.subrange(pos, pos + enc_gbm(g0).len() as int) =~= enc_gbm(g0)) by {
            assert(forall|i: int| 0 <= i < enc_gbm(g0).len() ==> e[i] == #[trigger] enc_gbm(
                g0,
            )[i]);
        }
        lemma_dec_gbm_shift(g0, w, pos);
        assert(w.subrange(
            pos + enc_gbm(g0).len() as int,
            pos + enc_gbm(g0).len() as int + enc_gbms(tail).len() as int,
        ) =~= enc_gbms(tail)) by {
            assert(forall|i: int|
                0 <= i < enc_gbms(tail).len() ==> e[enc_gbm(g0).len() + i]
                    == #[trigger] enc_gbms(tail)[i]);
        }
        lemma_gbms_roundtrip(tail, w, pos + enc_gbm(g0).len() as int, nf);
        assert(seq![gbm_image(g0)] + tail.map_values(|g: GradientBoostingImpl| gbm_image(g))
            =~= gs.map_values(|g: GradientBoostingImpl| gbm_image(g)));
    }
}

/// The word image of an averaging ensemble: a three-word header — fitted
/// flag, feature count, member count — then the members.
pub open spec fn enc_ens(e: AverageEnsemble) -> Seq<i128> {
    seq![
        if e.fitted { 1i128 } else { 0i128 },
        e.n_features as i128,
        e.estimators@.len() as i128,
    ] + enc_gbms(e.estimators@)
}

/// Reads one ensemble at `pos`; only fitted ensembles are persisted.
pub open spec fn dec_ens(w: Seq<i128>, pos: int) -> Option<(EnsImage, int)> {
    if pos < 0 || pos + 3 > w.len() {
        None
    } else {
        let fitted = w[pos];
        let nf = w[pos + 1];
        let nm = w[pos + 2];
        if fitted == 1 && 0 <= nf <= usize::MAX && 1 <= nm <= 0x1_0000_0000 && nm <= usize::MAX {
            match dec_gbms(w, pos + 3, nm as int, nf as int) {
                None => None,
                Some((members, p1)) => Some(
                    (EnsImage { members, fitted: true, n_features: nf as usize }, p1),
                ),
            }
        } else {
            None
        }
    }
}

/// Decoding an ensemble depends only on its own words.
pub proof fn lemma_dec_ens_shift(e: AverageEnsemble, w: Seq<i128>, pos: int)
    requires
        e.wf(),
        e.fitted,
        0 <= pos,
        pos + enc_ens(e).len() <= w.len(),
        w.subrange(pos, pos + enc_ens(e).len() as int) == enc_ens(e),
    ensures
        dec_ens(w, pos) == Some((ens_image(e), pos + enc_ens(e).len())),
{
    assert(e.estimators.len() == e.estimators@.len());
    let en = enc_ens(e);
    let eg = enc_gbms(e.estimators@);
    assert(forall|i: int|
        0 <= i < en.len() ==> w.subrange(pos, pos + en.len() as int)[i] == #[trigger] w[pos + i]);
    assert(w[pos] == en[0]);
    assert(w[pos + 1] == en[1]);
    assert(w[pos + 2] == en[2]);
    assert(w.subrange(pos + 3, pos + 3 + eg.len() as int) =~= eg) by {
        assert(forall|i: int| 0 <= i < eg.len() ==> en[3 + i] == #[trigger] eg[i]);
    }
    lemma_gbms_roundtrip(e.estimators@, w, pos + 3, e.n_features as int);
}

/// A well-formed, fitted ensemble's word image decodes back to exactly its
/// state, fully consumed.
pub proof fn lemma_ens_roundtrip(e: AverageEnsemble)
    requires
        e.wf(),
        e.fitted,
    ensures
        ({
            let w = enc_ens(e);
            dec_ens(w, 0) == Some((ens_image(e), w.len() as int))
        }),
{
    let w = enc_ens(e);
    assert(w.subrange(0, w.len() as int) =~= w);
    lemma_dec_ens_shift(e, w, 0);
}

/// Two ensembles with the same stored state predict identically.
pub proof fn lemma_same_state_ens_predict(
    a: &AverageEnsemble,
    b: &AverageEnsemble,
    cols: Seq<Seq<i64>>,
    j: int,
)
    requires
        a.wf(),
        b.wf(),
        ens_image(*a) == ens_image(*b),
        a.fitted,
        b.fitted,
    ensures
        a.member_col(cols, j) == b.member_col(cols, j),
        a.combined_val(cols, j) == b.combined_val(cols, j),
{
    assert(a.estimators@.len() == b.estimators@.len()) by {
        assert(ens_image(*a).members.len() == a.estimators@.len());
        assert(ens_image(*b).members.len() == b.estimators@.len());
    }
    assert forall|k: int| 0 <= k < a.estimators@.len() implies a.estimators@[k].predict_val(
        cols,
        j,
    ) == b.estimators@[k].predict_val(cols, j) by {
        assert(ens_image(*a).members[k] == ens_image(*b).members[k]);
        assert(ens_image(*a).members[k] == gbm_image(a.estimators@[k]));
        assert(ens_image(*b).members[k] == gbm_image(b.estimators@[k]));
        assert(a.estimators@[k].wf());
        assert(b.estimators@[k].wf());
        lemma_same_state_gbm_predict(&a.estimators@[k], &b.estimators@[k], cols, j);
    }
    assert(a.member_col(cols, j) =~= b.member_col(cols, j));
}


/// A deep-boosting model's stored state, as mathematical sequences.
pub struct DeepImage {
    /// Configuration.
    pub params: DeepBoostingParameters,
    /// The layers' stored states, in layer order.
    pub layers: Seq<EnsImage>,
    /// The fitted flag.
    pub fitted: bool,
    /// The raw-input feature count.
    pub n_features: usize,
}

/// The stored state of a deep-boosting value.
pub open spec fn deep_image(d: DeepBoostingImpl) -> DeepImage {
    DeepImage {
        params: d.params,
        layers: d.estimators@.map_values(|e: AverageEnsemble| ens_image(e)),
        fitted: d.fitted,
        n_features: d.n_features,
    }
}

/// The word image of a layer list, in order.
pub open spec fn enc_layers(es: Seq<AverageEnsemble>) -> Seq<i128>
    decreases es.len(),
{
    if es.len() == 0 {
        Seq::empty()
    } else {
        enc_ens(es[0]) + enc_layers(es.skip(1))
    }
}

/// Appending one layer extends the image on the right.
pub proof fn lemma_enc_layers_snoc(es: Seq<AverageEnsemble>, k: int)
    requires
        0 <= k < es.len(),
    ensures
        enc_layers(es.take(k + 1)) == enc_layers(es.take(k)) + enc_ens(es[k]),
    decreases k,
{
    if k == 0 {
        assert(es.take(1)[0] == es[0]);
        assert(es.take(1).skip(1) =~= Seq::<AverageEnsemble>::empty());
        assert(es.take(0) =~= Seq::<AverageEnsemble>::empty());
        assert(enc_layers(Seq::<AverageEnsemble>::empty()) == Seq::<i128>::empty());
        assert(enc_layers(es.take(1)) == enc_ens(es[0]) + Seq::<i128>::empty());
        assert(enc_ens(es[0]) + Seq::<i128>::empty() =~= enc_ens(es[0]));
        assert(Seq::<i128>::empty() + enc_ens(es[0]) =~= enc_ens(es[0]));
    } else {
        lemma_enc_layers_snoc(es.skip(1), k - 1);
        assert(es.take(k + 1)[0] == es[0]);
        assert(es.take(k)[0] == es[0]);
        assert(es.take(k + 1).skip(1) =~= es.skip(1).take(k));
        assert(es.take(k).skip(1) =~= es.skip(1).take(k - 1));
        assert(es.skip(1)[k - 1] == es[k]);
        assert(enc_ens(es[0]) + (enc_layers(es.skip(1).take(k - 1)) + enc_ens(es[k])) =~= (
        enc_ens(es[0]) + enc_layers(es.skip(1).take(k - 1))) + enc_ens(es[k]));
    }
}

/// Reads `count` layers from `pos`, the first at layer index `l`: layer `l`
/// must be a fitted ensemble of `width` members over `nf0 + l * width`
/// features.
pub open spec fn dec_layers(
    w: Seq<i128>,
    pos: int,
    l: int,
    count: int,
    nf0: int,
    width: int,
) -> Option<(Seq<EnsImage>, int)>
    decreases count,
{
    if count <= 0 {
        Some((Seq::empty(), pos))
    } else {
        match dec_ens(w, pos) {
            None => None,
            Some((img, p1)) => {
                if img.members.len() == width && img.n_features == nf0 + l * width {
                    match dec_layers(w, p1, l + 1, count - 1, nf0, width) {
                        None => None,
                        Some((rest, p2)) => Some((seq![img] + rest, p2)),
                    }
                } else {
                    None
                }
            },
        }
    }
}

/// A valid layer stack encoded anywhere in a word stream decodes back to its
/// images.
pub proof fn lemma_layers_roundtrip(
    es: Seq<AverageEnsemble>,
    w: Seq<i128>,
    pos: int,
    l: int,
    nf0: int,
    width: int,
)
    requires
        forall|i: int|
            0 <= i < es.len() ==> (#[trigger] es[i]).wf() && es[i].fitted
                && es[i].estimators@.len() == width && es[i].n_features == nf0 + (l + i) * width,
        0 <= pos,
        pos + enc_layers(es).len() <= w.len(),
        w.subrange(pos, pos + enc_layers(es).len() as int) == enc_layers(es),
    ensures
        dec_layers(w, pos, l, es.len() as int, nf0, width) == Some(
            (es.map_values(|e: AverageEnsemble| ens_image(e)), pos + enc_layers(es).len()),
        ),
    decreases es.len(),
{
    if es.len() == 0 {
        assert(es.map_values(|e: AverageEnsemble| ens_image(e)) =~= Seq::<EnsImage>::empty());
    } else {
        let e0 = es[0];
        let tail = es.skip(1);
        let e = enc_layers(es);
        assert(e == enc_ens(e0) + enc_layers(tail));
        assert(forall|i: int|
            0 <= i < e.len() ==> w.subrange(pos, pos + e.len() as int)[i] == #[trigger] w[pos
                + i]);
        assert(w.subrange(pos, pos + enc_ens(e0).len() as int) =~= enc_ens(e0)) by {
            assert(forall|i: int| 0 <= i < enc_ens(e0).len() ==> e[i] == #[trigger] enc_ens(
                e0,
            )[i]);
        }
        assert(e0.wf() && e0.fitted && e0.estimators@.len() == width && e0.n_features == nf0 + (l
            + 0) * width);
        lemma_dec_ens_shift(e0, w, pos);
        assert(ens_image(e0).members.len() == e0.estimators@.len());
        assert(w.subrange(
            pos + enc_ens(e0).len() as int,
            pos + enc_ens(e0).len() as int + enc_layers(tail).len() as int,
        ) =~= enc_layers(tail)) by {
            assert(forall|i: int|
                0 <= i < enc_layers(tail).len() ==> e[enc_ens(e0).len() + i]
                    == #[trigger] enc_layers(tail)[i]);
        }
        assert forall|i: int|
            0 <= i < tail.len() implies (#[trigger] tail[i]).wf() && tail[i].fitted
                && tail[i].estimators@.len() == width && tail[i].n_features == nf0 + (l + 1 + i)
                * width by {
            assert(tail[i] == es[i + 1]);
            assert(es[i + 1].n_features == nf0 + (l + i + 1) * width);
        }
        lemma_layers_roundtrip(tail, w, pos + enc_ens(e0).len() as int, l + 1, nf0, width);
        assert(seq![ens_image(e0)] + tail.map_values(|e2: AverageEnsemble| ens_image(e2))
            =~= es.map_values(|e2: AverageEnsemble| ens_image(e2)));
    }
}

/// The word image of a deep-boosting model: a seven-word header — layer
/// count, layer width, shrinkage numerator and denominator, fitted flag,
/// feature count, stored layer count — then the layers.
pub open spec fn enc_deep(d: DeepBoostingImpl) -> Seq<i128> {
    seq![
        d.params.n_estimators as i128,
        d.params.layer_width as i128,
        d.params.learning_rate.num as i128,
        d.params.learning_rate.den as i128,
        if d.fitted { 1i128 } else { 0i128 },
        d.n_features as i128,
        d.estimators@.len() as i128,
    ] + enc_layers(d.estimators@)
}

/// Reads one deep-boosting model at `pos`; only fitted models are persisted.
pub open spec fn dec_deep(w: Seq<i128>, pos: int) -> Option<(DeepImage, int)> {
    if pos < 0 || pos + 7 > w.len() {
        None
    } else {
        let n_est = w[pos];
        let lw = w[pos + 1];
        let num = w[pos + 2];
        let den = w[pos + 3];
        let fitted = w[pos + 4];
        let nf = w[pos + 5];
        let nl = w[pos + 6];
        if 0 <= n_est <= u32::MAX && 1 <= lw <= u32::MAX && 0 <= num && 1 <= den <= u32::MAX
            && num <= den && fitted == 1 && 0 <= nf <= usize::MAX && 0 <= nl <= 0x1_0000_0000
            && nl <= usize::MAX {
            match dec_layers(w, pos + 7, 0, nl as int, nf as int, lw as int) {
                None => None,
                Some((layers, p1)) => Some(
                    (
                        DeepImage {
                            params: DeepBoostingParameters {
                                n_estimators: n_est as u32,
                                layer_width: lw as u32,
                                learning_rate: LearningRate { num: num as u32, den: den as u32 },
                            },
                            layers,
                            fitted: true,
                            n_features: nf as usize,
                        },
                        p1,
                    ),
                ),
            }
        } else {
            None
        }
    }
}

/// A well-formed, fitted deep-boosting model's word image decodes back to
/// exactly its state, fully consumed.
pub proof fn lemma_deep_roundtrip(d: DeepBoostingImpl)
    requires
        d.wf(),
        d.fitted,
    ensures
        ({
            let w = enc_deep(d);
            dec_deep(w, 0) == Some((deep_image(d), w.len() as int))
        }),
{
    assert(d.estimators.len() == d.estimators@.len());
    let w = enc_deep(d);
    let el = enc_layers(d.estimators@);
    assert(w[0] == d.params.n_estimators as i128);
    assert(w[1] == d.params.layer_width as i128);
    assert(w[2] == d.params.learning_rate.num as i128);
    assert(w[3] == d.params.learning_rate.den as i128);
    assert(w[4] == 1i128);
    assert(w[5] == d.n_features as i128);
    assert(w[6] == d.estimators@.len() as i128);
    assert(w.subrange(7, 7 + el.len() as int) =~= el) by {
        assert(forall|i: int| 0 <= i < el.len() ==> w[7 + i] == #[trigger] el[i]);
    }
    assert forall|i: int|
        0 <= i < d.estimators@.len() implies (#[trigger] d.estimators@[i]).wf()
            && d.estimators@[i].fitted && d.estimators@[i].estimators@.len()
            == d.params.layer_width && d.estimators@[i].n_features == d.n_features + (0 + i)
            * d.params.layer_width by {}
    lemma_layers_roundtrip(
        d.estimators@,
        w,
        7,
        0,
        d.n_features as int,
        d.params.layer_width as int,
    );
}


/// Writes a well-formed, fitted ensemble's complete state as one word stream.
pub fn ens_to_words(e: &AverageEnsemble) -> (r: Vec<i128>)
    requires
        e.wf(),
        e.fitted,
    ensures
        r@ == enc_ens(*e),
{
    let mut out: Vec<i128> = Vec::new();
    out.push(if e.fitted { 1 } else { 0 });
    out.push(e.n_features as i128);
    out.push(e.estimators.len() as i128);
    let ghost hdr = out@;
    let mut k: usize = 0;
    while k < e.estimators.len()
        invariant
            e.wf(),
            e.fitted,
            0 <= k <= e.estimators@.len(),
            out@ == hdr + enc_gbms(e.estimators@.take(k as int)),
        decreases e.estimators@.len() - k,
    {
        proof {
            lemma_enc_gbms_snoc(e.estimators@, k as int);
        }
        let gw = gbm_to_words(&e.estimators[k]);
        let mut i: usize = 0;
        let ghost pre = out@;
        while i < gw.len()
            invariant
                0 <= i <= gw@.len(),
                out@ == pre + gw@.take(i as int),
            decreases gw@.len() - i,
        {
            proof {
                assert(gw@.take(i + 1).drop_last() =~= gw@.take(i as int));
                assert(pre + gw@.take(i + 1) =~= (pre + gw@.take(i as int)).push(gw@[i as int]));
            }
            out.push(gw[i]);
            i = i + 1;
        }
        proof {
            assert(gw@.take(gw@.len() as int) =~= gw@);
            assert(pre + gw@ =~= hdr + (enc_gbms(e.estimators@.take(k as int)) + enc_gbm(
                e.estimators@[k as int],
            )));
        }
        k = k + 1;
    }
    proof {
        assert(e.estimators@.take(e.estimators@.len() as int) =~= e.estimators@);
        assert(out@ =~= enc_ens(*e));
    }
    out
}

/// Reads one ensemble at `pos`; exactly `dec_ens`, and the decoded ensemble
/// is well formed and fitted.
pub fn decode_ens_at(w: &Vec<i128>, pos: usize) -> (r: Option<(AverageEnsemble, usize)>)
    ensures
        match r {
            Some((e, p)) => dec_ens(w@, pos as int) == Some((ens_image(e), p as int)) && e.wf()
                && e.fitted,
            None => dec_ens(w@, pos as int) is None,
        },
{
    if w.len() < 3 || pos > w.len() - 3 {
        return None;
    }
    let fitted = w[pos];
    let nf = w[pos + 1];
    let nm = w[pos + 2];
    if !(fitted == 1 && 0 <= nf && nf <= usize::MAX as i128 && 1 <= nm && nm
        <= 0x1_0000_0000i128 && nm <= usize::MAX as i128) {
        return None;
    }
    let count = nm as usize;
    let nfu = nf as usize;
    let mut members: Vec<GradientBoostingImpl> = Vec::new();
    let mut cur: usize = pos + 3;
    let mut k: usize = 0;
    while k < count
        invariant
            0 <= k <= count,
            members@.len() == k,
            0 <= nf <= usize::MAX,
            nfu == nf as usize,
            count == nm as usize,
            1 <= count <= 0x1_0000_0000,
            dec_ens(w@, pos as int) == (match dec_gbms(w@, pos + 3, count as int, nf as int) {
                None => None::<(EnsImage, int)>,
                Some((members2, p)) => Some(
                    (EnsImage { members: members2, fitted: true, n_features: nf as usize }, p),
                ),
            }),
            forall|i: int|
                0 <= i < k ==> (#[trigger] members@[i]).wf() && members@[i].fitted
                    && members@[i].n_features == nfu,
            dec_gbms(w@, pos + 3, count as int, nf as int) == (match dec_gbms(
                w@,
                cur as int,
                count - k,
                nf as int,
            ) {
                None => None::<(Seq<GbmImage>, int)>,
                Some((rest, p)) => Some(
                    (members@.map_values(|g: GradientBoostingImpl| gbm_image(g)) + rest, p),
                ),
            }),
        decreases count - k,
    {
        match decode_gbm_at(w, cur) {
            None => {
                proof {
                    assert(dec_gbms(w@, cur as int, count - k, nf as int) is None);
                }
                return None;
            },
            Some((g, p1)) => {
                proof {
                    assert(gbm_image(g).fitted == g.fitted);
                    assert(gbm_image(g).n_features == g.n_features);
                }
                if !(g.fitted && g.n_features == nfu) {
                    proof {
                        assert(dec_gbms(w@, cur as int, count - k, nf as int) is None);
                    }
                    return None;
                }
                proof {
                    let m = members@.map_values(|g2: GradientBoostingImpl| gbm_image(g2));
                    if dec_gbms(w@, p1 as int, count - k - 1, nf as int) is Some {
                        let (rest2, pp) = dec_gbms(w@, p1 as int, count - k - 1, nf as int)->0;
                        assert(m + (seq![gbm_image(g)] + rest2) =~= members@.push(g).map_values(
                            |g2: GradientBoostingImpl| gbm_image(g2),
                        ) + rest2) by {
                            assert(members@.push(g).map_values(
                                |g2: GradientBoostingImpl| gbm_image(g2),
                            ) =~= m.push(gbm_image(g)));
                            assert(m + (seq![gbm_image(g)] + rest2) =~= m.push(gbm_image(g))
                                + rest2);
                        }
                    }
                }
                members.push(g);
                cur = p1;
            },
        }
        k = k + 1;
    }
    proof {
        assert(members@.map_values(|g2: GradientBoostingImpl| gbm_image(g2))
            + Seq::<GbmImage>::empty() =~= members@.map_values(
            |g2: GradientBoostingImpl| gbm_image(g2),
        ));
    }
    let e = AverageEnsemble { estimators: members, fitted: true, n_features: nfu };
    proof {
        assert(e.wf());
        assert(ens_image(e).members =~= members@.map_values(
            |g2: GradientBoostingImpl| gbm_image(g2),
        ));
    }
    Some((e, cur))
}

/// Writes a well-formed, fitted deep-boosting model's complete state as one
/// word stream.
pub fn deep_to_words(d: &DeepBoostingImpl) -> (r: Vec<i128>)
    requires
        d.wf(),
        d.fitted,
    ensures
        r@ == enc_deep(*d),
{
    let mut out: Vec<i128> = Vec::new();
    out.push(d.params.n_estimators as i128);
    out.push(d.params.layer_width as i128);
    out.push(d.params.learning_rate.num as i128);
    out.push(d.params.learning_rate.den as i128);
    out.push(if d.fitted { 1 } else { 0 });
    out.push(d.n_features as i128);
    out.push(d.estimators.len() as i128);
    let ghost hdr = out@;
    let mut k: usize = 0;
    while k < d.estimators.len()
        invariant
            d.wf(),
            d.fitted,
            0 <= k <= d.estimators@.len(),
            out@ == hdr + enc_layers(d.estimators@.take(k as int)),
        decreases d.estimators@.len() - k,
    {
        proof {
            lemma_enc_layers_snoc(d.estimators@, k as int);
        }
        let ew = ens_to_words(&d.estimators[k]);
        let mut i: usize = 0;
        let ghost pre = out@;
        while i < ew.len()
            invariant
                0 <= i <= ew@.len(),
                out@ == pre + ew@.take(i as int),
            decreases ew@.len() - i,
        {
            proof {
                assert(ew@.take(i + 1).drop_last() =~= ew@.take(i as int));
                assert(pre + ew@.take(i + 1) =~= (pre + ew@.take(i as int)).push(ew@[i as int]));
            }
            out.push(ew[i]);
            i = i + 1;
        }
        proof {
            assert(ew@.take(ew@.len() as int) =~= ew@);
            assert(pre + ew@ =~= hdr + (enc_layers(d.estimators@.take(k as int)) + enc_ens(
                d.estimators@[k as int],
            )));
        }
        k = k + 1;
    }
    proof {
        assert(d.estimators@.take(d.estimators@.len() as int) =~= d.estimators@);
        assert(out@ =~= enc_deep(*d));
    }
    out
}

/// Reads a deep-boosting model from a whole word stream: succeeds exactly on
/// a stream that is one valid fitted model image, fully consumed; the decoded
/// model is well formed and fitted.
pub fn deep_from_words(w: &Vec<i128>) -> (r: Option<DeepBoostingImpl>)
    ensures
        match r {
            Some(d) => dec_deep(w@, 0) == Some((deep_image(d), w@.len() as int)) && d.wf()
                && d.fitted,
            None => !(dec_deep(w@, 0) matches Some((img, p)) && p == w@.len()),
        },
{
    if w.len() < 7 {
        return None;
    }
    let n_est = w[0];
    let lw = w[1];
    let num = w[2];
    let den = w[3];
    let fitted = w[4];
    let nf = w[5];
    let nl = w[6];
    if !(0 <= n_est && n_est <= u32::MAX as i128 && 1 <= lw && lw <= u32::MAX as i128 && 0 <= num
        && 1 <= den && den <= u32::MAX as i128 && num <= den && fitted == 1 && 0 <= nf && nf
        <= usize::MAX as i128 && 0 <= nl && nl <= 0x1_0000_0000i128 && nl <= usize::MAX as i128) {
        return None;
    }
    let count = nl as usize;
    let nfu = nf as usize;
    let width = lw as u32;
    let mut layers: Vec<AverageEnsemble> = Vec::new();
    let mut cur: usize = 7;
    let mut k: usize = 0;
    while k < count
        invariant
            0 <= k <= count,
            layers@.len() == k,
            0 <= nf <= usize::MAX,
            nfu == nf as usize,
            count == nl as usize,
            0 <= count <= 0x1_0000_0000,
            1 <= lw <= u32::MAX,
            width == lw as u32,
            dec_deep(w@, 0) == (match dec_layers(w@, 7, 0, count as int, nf as int, lw as int) {
                None => None::<(DeepImage, int)>,
                Some((layers2, p)) => Some(
                    (
                        DeepImage {
                            params: DeepBoostingParameters {
                                n_estimators: n_est as u32,
                                layer_width: lw as u32,
                                learning_rate: LearningRate { num: num as u32, den: den as u32 },
                            },
                            layers: layers2,
                            fitted: true,
                            n_features: nf as usize,
                        },
                        p,
                    ),
                ),
            }),
            forall|i: int|
                0 <= i < k ==> (#[trigger] layers@[i]).wf() && layers@[i].fitted
                    && layers@[i].estimators@.len() == width && layers@[i].n_features as int
                    == nfu + i * width,
            dec_layers(w@, 7, 0, count as int, nf as int, lw as int) == (match dec_layers(
                w@,
                cur as int,
                k as int,
                count - k,
                nf as int,
                lw as int,
            ) {
                None => None::<(Seq<EnsImage>, int)>,
                Some((rest, p)) => Some(
                    (layers@.map_values(|e: AverageEnsemble| ens_image(e)) + rest, p),
                ),
            }),
        decreases count - k,
    {
        match decode_ens_at(w, cur) {
            None => {
                proof {
                    assert(dec_layers(w@, cur as int, k as int, count - k, nf as int, lw as int)
                        is None);
                }
                return None;
            },
            Some((e, p1)) => {
                proof {
                    assert(ens_image(e).members.len() == e.estimators@.len());
                    assert(ens_image(e).n_features == e.n_features);
                }
                let width_ok = e.estimators.len() == width as usize;
                proof {
                    assert(0 <= (k as i128) * (lw as i128) <= 0x1_0000_0000i128
                        * 0xFFFF_FFFFi128) by (nonlinear_arith)
                        requires
                            0 <= k as i128 <= 0x1_0000_0000i128,
                            0 < lw <= 0xFFFF_FFFFi128,
                    ;
                }
                let nf_ok = e.n_features as i128 == nf + (k as i128) * (lw as i128);
                if !(width_ok && nf_ok) {
                    proof {
                        assert(!(ens_image(e).members.len() == lw as int && ens_image(
                            e,
                        ).n_features == nf + (k as int) * (lw as int)));
                        assert(dec_layers(
                            w@,
                            cur as int,
                            k as int,
                            count - k,
                            nf as int,
                            lw as int,
                        ) is None);
                    }
                    return None;
                }
                proof {
                    let m = layers@.map_values(|e2: AverageEnsemble| ens_image(e2));
                    if dec_layers(w@, p1 as int, k + 1, count - k - 1, nf as int, lw as int)
                        is Some {
                        let (rest2, pp) = dec_layers(
                            w@,
                            p1 as int,
                            k + 1,
                            count - k - 1,
                            nf as int,
                            lw as int,
                        )->0;
                        assert(m + (seq![ens_image(e)] + rest2) =~= layers@.push(e).map_values(
                            |e2: AverageEnsemble| ens_image(e2),
                        ) + rest2) by {
                            assert(layers@.push(e).map_values(
                                |e2: AverageEnsemble| ens_image(e2),
                            ) =~= m.push(ens_image(e)));
                            assert(m + (seq![ens_image(e)] + rest2) =~= m.push(ens_image(e))
                                + rest2);
                        }
                    }
                }
                layers.push(e);
                cur = p1;
            },
        }
        k = k + 1;
    }
    if cur != w.len() {
        proof {
            assert(dec_layers(w@, cur as int, k as int, 0, nf as int, lw as int) == Some(
                (Seq::<EnsImage>::empty(), cur as int),
            ));
            assert(layers@.map_values(|e2: AverageEnsemble| ens_image(e2))
                + Seq::<EnsImage>::empty() =~= layers@.map_values(
                |e2: AverageEnsemble| ens_image(e2),
            ));
        }
        return None;
    }
    let d = DeepBoostingImpl {
        params: DeepBoostingParameters {
            n_estimators: n_est as u32,
            layer_width: width,
            learning_rate: LearningRate { num: num as u32, den: den as u32 },
        },
        estimators: layers,
        fitted: true,
        n_features: nfu,
    };
    proof {
        assert(layers@.map_values(|e2: AverageEnsemble| ens_image(e2)) + Seq::<EnsImage>::empty()
            =~= layers@.map_values(|e2: AverageEnsemble| ens_image(e2)));
        assert(d.wf()) by {
            assert forall|l: int| 0 <= l < d.estimators@.len() implies {
                &&& (#[trigger] d.estimators@[l]).wf()
                &&& d.estimators@[l].fitted
                &&& d.estimators@[l].estimators@.len() == d.params.layer_width
                &&& d.estimators@[l].n_features == d.n_features + l * d.params.layer_width
            } by {
                assert(layers@[l].wf());
            }
        }
        assert(deep_image(d).layers =~= layers@.map_values(
            |e2: AverageEnsemble| ens_image(e2),
        ));
    }
    Some(d)
}


/// Two deep-boosting models with the same stored state grow identical layer
/// feature matrices.
pub proof fn lemma_same_state_layer_cols(
    a: &DeepBoostingImpl,
    b: &DeepBoostingImpl,
    cols0: Seq<Seq<i64>>,
    n: nat,
    l: int,
)
    requires
        a.wf(),
        b.wf(),
        a.fitted,
        b.fitted,
        deep_image(*a) == deep_image(*b),
        0 <= l <= a.estimators@.len(),
    ensures
        a.layer_cols(cols0, n, l) == b.layer_cols(cols0, n, l),
    decreases l,
{
    assert(a.estimators@.len() == b.estimators@.len()) by {
        assert(deep_image(*a).layers.len() == a.estimators@.len());
        assert(deep_image(*b).layers.len() == b.estimators@.len());
    }
    if l > 0 {
        lemma_same_state_layer_cols(a, b, cols0, n, l - 1);
        let lc = a.layer_cols(cols0, n, l - 1);
        let ea = a.estimators@[l - 1];
        let eb = b.estimators@[l - 1];
        assert(deep_image(*a).layers[l - 1] == deep_image(*b).layers[l - 1]);
        assert(deep_image(*a).layers[l - 1] == ens_image(ea));
        assert(deep_image(*b).layers[l - 1] == ens_image(eb));
        assert(ea.wf() && ea.fitted);
        assert(eb.wf() && eb.fitted);
        assert(crate::deep_boosting::member_rows(ea, lc, n) =~= crate::deep_boosting::member_rows(
            eb,
            lc,
            n,
        )) by {
            assert(ea.estimators@.len() == eb.estimators@.len()) by {
                assert(ens_image(ea).members.len() == ea.estimators@.len());
                assert(ens_image(eb).members.len() == eb.estimators@.len());
            }
            assert forall|k: int, j: int|
                0 <= k < ea.estimators@.len() && 0 <= j < n implies ea.estimators@[
                k].predict_val(lc, j) == eb.estimators@[k].predict_val(lc, j) by {
                assert(ens_image(ea).members[k] == ens_image(eb).members[k]);
                assert(ens_image(ea).members[k] == gbm_image(ea.estimators@[k]));
                assert(ens_image(eb).members[k] == gbm_image(eb.estimators@[k]));
                lemma_same_state_gbm_predict(&ea.estimators@[k], &eb.estimators@[k], lc, j);
            }
            assert forall|k: int|
                0 <= k < ea.estimators@.len() implies crate::deep_boosting::member_rows(
                ea,
                lc,
                n,
            )[k] =~= crate::deep_boosting::member_rows(eb, lc, n)[k] by {}
        }
    }
}

/// Two deep-boosting models with the same stored state predict identically.
pub proof fn lemma_same_state_deep_predict(
    a: &DeepBoostingImpl,
    b: &DeepBoostingImpl,
    cols0: Seq<Seq<i64>>,
    n: nat,
    j: int,
)
    requires
        a.wf(),
        b.wf(),
        a.fitted,
        b.fitted,
        deep_image(*a) == deep_image(*b),
    ensures
        a.predict_val(cols0, n, j) == b.predict_val(cols0, n, j),
{
    assert(a.estimators@.len() == b.estimators@.len()) by {
        assert(deep_image(*a).layers.len() == a.estimators@.len());
        assert(deep_image(*b).layers.len() == b.estimators@.len());
    }
    lemma_same_state_deep_val(a, b, cols0, n, j, a.estimators@.len() as int);
}

/// The running totals of two deep-boosting models with the same stored state
/// agree at every layer count.
pub proof fn lemma_same_state_deep_val(
    a: &DeepBoostingImpl,
    b: &DeepBoostingImpl,
    cols0: Seq<Seq<i64>>,
    n: nat,
    j: int,
    l: int,
)
    requires
        a.wf(),
        b.wf(),
        a.fitted,
        b.fitted,
        deep_image(*a) == deep_image(*b),
        0 <= l <= a.estimators@.len(),
    ensures
        a.deep_val(cols0, n, j, l) == b.deep_val(cols0, n, j, l),
    decreases l,
{
    assert(a.estimators@.len() == b.estimators@.len()) by {
        assert(deep_image(*a).layers.len() == a.estimators@.len());
        assert(deep_image(*b).layers.len() == b.estimators@.len());
    }
    assert(a.params == b.params);
    if l > 0 {
        let ea = a.estimators@[l - 1];
        let eb = b.estimators@[l - 1];
        assert(deep_image(*a).layers[l - 1] == deep_image(*b).layers[l - 1]);
        assert(deep_image(*a).layers[l - 1] == ens_image(ea));
        assert(deep_image(*b).layers[l - 1] == ens_image(eb));
        lemma_same_state_layer_cols(a, b, cols0, n, l - 1);
        let lc = a.layer_cols(cols0, n, l - 1);
        lemma_same_state_ens_predict(&ea, &eb, lc, j);
        if l == 1 {
            assert(a.layer_cols(cols0, n, 0) == cols0);
        } else {
            lemma_same_state_deep_val(a, b, cols0, n, j, l - 1);
        }
    }
}


/// Persisting a fitted tree round-trips exactly: any tree read back from the
/// written words predicts identically on every input.
pub proof fn lemma_tree_persisted_predict(
    t: &DecisionTreeImpl,
    t2: &DecisionTreeImpl,
    cols: Seq<Seq<i64>>,
    j: int,
)
    requires
        t.wf(),
        t2.wf(),
        dec_tree(enc_tree(*t), 0) == Some((tree_image(*t2), enc_tree(*t).len() as int)),
    ensures
        t2.predict_val(cols, j) == t.predict_val(cols, j),
{
    lemma_tree_roundtrip(*t);
    assert(tree_image(*t2) == tree_image(*t));
    assert(t2.splitters@ == t.splitters@);
    assert(t2.routes@ == t.routes@);
    lemma_same_state_tree_predict(t2, t, cols, j);
}

/// Persisting a fitted gradient-boosting model round-trips exactly: any model
/// read back from the written words predicts identically on every input.
pub proof fn lemma_gbm_persisted_predict(
    g: &GradientBoostingImpl,
    g2: &GradientBoostingImpl,
    cols: Seq<Seq<i64>>,
    j: int,
)
    requires
        g.wf(),
        g.fitted,
        g2.wf(),
        dec_gbm(enc_gbm(*g), 0) == Some((gbm_image(*g2), enc_gbm(*g).len() as int)),
    ensures
        g2.predict_val(cols, j) == g.predict_val(cols, j),
{
    lemma_gbm_roundtrip(*g);
    assert(gbm_image(*g2) == gbm_image(*g));
    lemma_same_state_gbm_predict(g2, g, cols, j);
}

/// Persisting a fitted deep-boosting model round-trips exactly: any model
/// read back from the written words predicts identically on every input.
pub proof fn lemma_deep_persisted_predict(
    d: &DeepBoostingImpl,
    d2: &DeepBoostingImpl,
    cols0: Seq<Seq<i64>>,
    n: nat,
    j: int,
)
    requires
        d.wf(),
        d.fitted,
        d2.wf(),
        d2.fitted,
        dec_deep(enc_deep(*d), 0) == Some((deep_image(*d2), enc_deep(*d).len() as int)),
    ensures
        d2.predict_val(cols0, n, j) == d.predict_val(cols0, n, j),
{
    lemma_deep_roundtrip(*d);
    assert(deep_image(*d2) == deep_image(*d));
    lemma_same_state_deep_predict(d2, d, cols0, n, j);
}


/// Persisting a fitted ensemble round-trips exactly: any ensemble read back
/// from the written words combines to identical predictions on every input.
pub proof fn lemma_ens_persisted_predict(
    e: &AverageEnsemble,
    e2: &AverageEnsemble,
    cols: Seq<Seq<i64>>,
    j: int,
)
    requires
        e.wf(),
        e.fitted,
        e2.wf(),
        e2.fitted,
        dec_ens(enc_ens(*e), 0) == Some((ens_image(*e2), enc_ens(*e).len() as int)),
    ensures
        e2.combined_val(cols, j) == e.combined_val(cols, j),
{
    lemma_ens_roundtrip(*e);
    assert(ens_image(*e2) == ens_image(*e));
    lemma_same_state_ens_predict(e2, e, cols, j);
}

} // verus!
