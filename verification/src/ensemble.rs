use vstd::prelude::*;
use crate::dataset::{rows_view, FEATURE_COUNT};
use crate::parse::MICROS;
use crate::stump::{
    binary_labels, spec_stump_predict, trained_stump_post, uniform_width, DecisionStump,
    MAX_TRAIN_ROWS,
};

verus! {

/// A voting collection of independently trained decision stumps. Every stump
/// is trained on the identical full training set — there is no bootstrap
/// resampling and no feature subsampling — so all trained stumps come out
/// equal; the ensemble reproduces that deterministic duplication on purpose.
pub struct TreeEnsemble {
    pub n_trees: usize,
    pub trees: Vec<DecisionStump>,
}

/// Every stump of the ensemble indexes inside a schema row and answers a
/// plain zero-or-one label.
pub open spec fn ensemble_wf(trees: Seq<DecisionStump>) -> bool {
    forall|i: int|
        0 <= i < trees.len() ==> {
            let t = #[trigger] trees[i];
            &&& (t.feature_index as int) < FEATURE_COUNT
            &&& (t.left_label == 0 || t.left_label == MICROS)
            &&& (t.right_label == 0 || t.right_label == MICROS)
        }
}

/// The summed answers of all stumps for one feature vector.
pub open spec fn vote_sum(trees: Seq<DecisionStump>, row: Seq<i64>) -> int
    decreases trees.len(),
{
    if trees.len() == 0 {
        0
    } else {
        vote_sum(trees.drop_last(), row) + spec_stump_predict(trees.last(), row)
    }
}

/// The majority vote: one when at least half the stumps answer one, else
/// zero. An ensemble without trees answers zero.
pub open spec fn spec_forest_label(trees: Seq<DecisionStump>, row: Seq<i64>) -> i64 {
    if trees.len() == 0 {
        0
    } else if 2 * vote_sum(trees, row) >= trees.len() * (MICROS as int) {
        MICROS
    } else {
        0
    }
}

/// The vote fraction in millionths, rounded toward zero. An ensemble without
/// trees answers zero.
pub open spec fn spec_forest_proba(trees: Seq<DecisionStump>, row: Seq<i64>) -> i64 {
    if trees.len() == 0 {
        0
    } else {
        (vote_sum(trees, row) / trees.len() as int) as i64
    }
}

pub proof fn lemma_vote_sum_bounds(trees: Seq<DecisionStump>, row: Seq<i64>)
    requires
        ensemble_wf(trees),
    ensures
        0 <= vote_sum(trees, row) <= trees.len() * (MICROS as int),
    decreases trees.len(),
{
    if trees.len() > 0 {
        assert(ensemble_wf(trees.drop_last()));
        lemma_vote_sum_bounds(trees.drop_last(), row);
        assert(trees.len() * (MICROS as int) == (trees.len() - 1) * (MICROS as int) + MICROS);
    }
}

proof fn lemma_vote_sum_step(trees: Seq<DecisionStump>, row: Seq<i64>, i: int)
    requires
        0 <= i < trees.len(),
    ensures
        vote_sum(trees.take(i + 1), row) == vote_sum(trees.take(i), row) + spec_stump_predict(
            trees[i],
            row,
        ),
{
    assert(trees.take(i + 1).drop_last() =~= trees.take(i));
    assert(trees.take(i + 1).last() == trees[i]);
}

/// Two majority votes from the same trees and the same vector agree, and so
/// do two vote fractions: prediction reads nothing but its arguments.
pub proof fn lemma_forest_predict_deterministic(
    trees: Seq<DecisionStump>,
    row: Seq<i64>,
    r1: i64,
    r2: i64,
)
    requires
        r1 == spec_forest_label(trees, row),
        r2 == spec_forest_label(trees, row),
    ensures
        r1 == r2,
{
}

impl TreeEnsemble {
    /// An ensemble that will train `n_trees` stumps; none are held yet.
    pub fn new(n_trees: usize) -> (e: TreeEnsemble)
        ensures
            e.n_trees == n_trees,
            e.trees@ =~= Seq::<DecisionStump>::empty(),
    {
        TreeEnsemble { n_trees, trees: Vec::new() }
    }

    /// Trains `n_trees` stumps, each on the identical full training set, and
    /// appends them; an empty training set is a no-op. All appended stumps
    /// are one equal trained stump.
    #[verifier::loop_isolation(false)]
    pub fn fit(&mut self, x: &Vec<Vec<i64>>, y: &Vec<i64>)
        requires
            x@.len() == y@.len(),
            x@.len() <= MAX_TRAIN_ROWS,
            binary_labels(y@),
            x@.len() > 0 ==> uniform_width(rows_view(x@), FEATURE_COUNT as int),
            x@.len() > 0 ==> x@[0]@.len() == FEATURE_COUNT,
        ensures
            final(self).n_trees == old(self).n_trees,
            x@.len() == 0 ==> final(self).trees@ == old(self).trees@,
            x@.len() > 0 ==> (exists|st: DecisionStump|
                {
                    &&& #[trigger] trained_stump_post(rows_view(x@), y@, st)
                    &&& (st.feature_index as int) < FEATURE_COUNT
                    &&& (st.left_label == 0 || st.left_label == MICROS)
                    &&& (st.right_label == 0 || st.right_label == MICROS)
                    &&& final(self).trees@ == old(self).trees@ + Seq::new(
                        old(self).n_trees as nat,
                        |i: int| st,
                    )
                }),
            ensemble_wf(old(self).trees@) ==> ensemble_wf(final(self).trees@),
    {
        if x.len() == 0 {
            return ;
        }
        let st = DecisionStump::train(x, y);
        proof {
            let rows = rows_view(x@);
            let cs = crate::stump::candidates(rows);
            if exists|k: int| 0 <= k < cs.len() && crate::stump::valid_candidate(
                rows,
                #[trigger] cs[k],
            ) {
                let j = choose|j: int|
                    #[trigger] crate::stump::is_winner(rows, y@, j) && st
                        == crate::stump::stump_of_winner(rows, y@, j);
                assert(st == crate::stump::stump_of_winner(rows, y@, j));
            } else {
                assert(st == crate::stump::degenerate_stump());
            }
            assert((st.feature_index as int) < FEATURE_COUNT);
            assert(st.left_label == 0 || st.left_label == MICROS);
            assert(st.right_label == 0 || st.right_label == MICROS);
        }
        let k = self.n_trees;
        let ghost start = self.trees@;
        let mut i: usize = 0;
        while i < k
            invariant
                0 <= i <= k,
                self.trees@ =~= start + Seq::new(i as nat, |j: int| st),
                self.n_trees == k,
            decreases k - i,
        {
            self.trees.push(st);
            proof {
                assert(start + Seq::new((i + 1) as nat, |j: int| st) =~= (start + Seq::new(
                    i as nat,
                    |j: int| st,
                )).push(st));
            }
            i += 1;
        }
        proof {
            assert(trained_stump_post(rows_view(x@), y@, st));
            if ensemble_wf(start) {
                assert forall|p: int| 0 <= p < self.trees@.len() implies {
                    let t = #[trigger] self.trees@[p];
                    &&& (t.feature_index as int) < FEATURE_COUNT
                    &&& (t.left_label == 0 || t.left_label == MICROS)
                    &&& (t.right_label == 0 || t.right_label == MICROS)
                } by {
                    if p < start.len() {
                        assert(self.trees@[p] == start[p]);
                    } else {
                        assert(self.trees@[p] == st);
                    }
                }
            }
        }
    }

    /// The majority-vote label for each row: one when at least half the
    /// stumps answer one, else zero.
    #[verifier::loop_isolation(false)]
    pub fn predict(&self, x: &Vec<Vec<i64>>) -> (r: Vec<i64>)
        requires
            ensemble_wf(self.trees@),
            self.trees@.len() <= MAX_TRAIN_ROWS,
            forall|i: int|
                0 <= i < x@.len() ==> ((#[trigger] x@[i]@).len() == 0 || x@[i]@.len()
                    >= FEATURE_COUNT),
        ensures
            r@.len() == x@.len(),
            forall|i: int|
                0 <= i < x@.len() ==> (#[trigger] r@[i]) == spec_forest_label(
                    self.trees@,
                    x@[i]@,
                ),
    {
        let mut out: Vec<i64> = Vec::new();
        let mut i: usize = 0;
        while i < x.len()
            invariant
                0 <= i <= x@.len(),
                out@.len() == i,
                forall|p: int|
                    0 <= p < i ==> (#[trigger] out@[p]) == spec_forest_label(
                        self.trees@,
                        x@[p]@,
                    ),
            decreases x@.len() - i,
        {
            let votes = self.vote_total(&x[i]);
            let k = self.trees.len();
            proof {
                lemma_vote_sum_bounds(self.trees@, x@[i as int]@);
            }
            let label: i64 = if k == 0 {
                0
            } else if 2 * votes >= (k as i64) * MICROS {
                MICROS
            } else {
                0
            };
            out.push(label);
            i += 1;
        }
        out
    }

    /// The vote fraction for each row, in millionths, rounded toward zero.
    #[verifier::loop_isolation(false)]
    pub fn predict_proba(&self, x: &Vec<Vec<i64>>) -> (r: Vec<i64>)
        requires
            ensemble_wf(self.trees@),
            self.trees@.len() <= MAX_TRAIN_ROWS,
            forall|i: int|
                0 <= i < x@.len() ==> ((#[trigger] x@[i]@).len() == 0 || x@[i]@.len()
                    >= FEATURE_COUNT),
        ensures
            r@.len() == x@.len(),
            forall|i: int|
                0 <= i < x@.len() ==> (#[trigger] r@[i]) == spec_forest_proba(
                    self.trees@,
                    x@[i]@,
                ),
    {
        let mut out: Vec<i64> = Vec::new();
        let mut i: usize = 0;
        while i < x.len()
            invariant
                0 <= i <= x@.len(),
                out@.len() == i,
                forall|p: int|
                    0 <= p < i ==> (#[trigger] out@[p]) == spec_forest_proba(
                        self.trees@,
                        x@[p]@,
                    ),
            decreases x@.len() - i,
        {
            let votes = self.vote_total(&x[i]);
            let k = self.trees.len();
            proof {
                lemma_vote_sum_bounds(self.trees@, x@[i as int]@);
            }
            let proba: i64 = if k == 0 {
                0
            } else {
                votes / (k as i64)
            };
            out.push(proba);
            i += 1;
        }
        out
    }

    /// Sums the stumps' answers for one feature vector.
    #[verifier::loop_isolation(false)]
    fn vote_total(&self, row: &Vec<i64>) -> (v: i64)
        requires
            ensemble_wf(self.trees@),
            self.trees@.len() <= MAX_TRAIN_ROWS,
            row@.len() == 0 || row@.len() >= FEATURE_COUNT,
        ensures
            v == vote_sum(self.trees@, row@),
    {
        let mut v: i64 = 0;
        let mut j: usize = 0;
        while j < self.trees.len()
            invariant
                0 <= j <= self.trees@.len(),
                v == vote_sum(self.trees@.take(j as int), row@),
                0 <= v <= j * (MICROS as int),
            decreases self.trees@.len() - j,
        {
            proof {
                lemma_vote_sum_step(self.trees@, row@, j as int);
                assert(ensemble_wf(self.trees@.take(j as int)));
                lemma_vote_sum_bounds(self.trees@.take(j as int), row@);
                assert((j + 1) * (MICROS as int) == j * (MICROS as int) + MICROS);
            }
            let p = self.trees[j].predict(row);
            v = v + p;
            j += 1;
        }
        proof {
            assert(self.trees@.take(self.trees@.len() as int) =~= self.trees@);
        }
        v
    }
}

} // verus!
