use vstd::prelude::*;
use crate::parse::MICROS;
use crate::stats::sorted_values;

verus! {

/// Most rows a stump may be trained on: keeps the exact 128-bit gain
/// comparisons free of overflow.
pub const MAX_TRAIN_ROWS: usize = 0x100000;

/// A depth-one decision rule: rows whose value at `feature_index` stays at or
/// below `threshold` are answered with `left_label`, the rest with
/// `right_label`.
#[derive(Debug, Clone, Copy, PartialEq, Eq, Structural)]
pub struct DecisionStump {
    pub feature_index: usize,
    pub threshold: i64,
    pub left_label: i64,
    pub right_label: i64,
}

/// Every label is plain zero or one (in millionths): the binary-label shape
/// of the data model.
pub open spec fn binary_labels(y: Seq<i64>) -> bool {
    forall|i: int| 0 <= i < y.len() ==> y[i] == 0 || #[trigger] y[i] == MICROS
}

/// All feature rows have the same width `w`.
pub open spec fn uniform_width(x: Seq<Seq<i64>>, w: int) -> bool {
    forall|i: int| 0 <= i < x.len() ==> (#[trigger] x[i]).len() == w
}

/// One feature column of the row sequence.
pub open spec fn column(x: Seq<Seq<i64>>, f: int) -> Seq<i64> {
    x.map_values(|row: Seq<i64>| row[f])
}

/// How many rows fall in the left partition: value at `f` at or below `t`.
pub open spec fn left_count(x: Seq<Seq<i64>>, f: int, t: i64) -> int
    decreases x.len(),
{
    if x.len() == 0 {
        0
    } else {
        left_count(x.drop_last(), f, t) + if x.last()[f] <= t {
            1int
        } else {
            0int
        }
    }
}

/// How many left-partition rows carry a positive label.
pub open spec fn left_pos(x: Seq<Seq<i64>>, y: Seq<i64>, f: int, t: i64) -> int
    decreases x.len(),
{
    if x.len() == 0 {
        0
    } else {
        left_pos(x.drop_last(), y.drop_last(), f, t) + if x.last()[f] <= t && y.last() == MICROS {
            1int
        } else {
            0int
        }
    }
}

/// How many labels are positive in all.
pub open spec fn pos_count(y: Seq<i64>) -> int
    decreases y.len(),
{
    if y.len() == 0 {
        0
    } else {
        pos_count(y.drop_last()) + if y.last() == MICROS {
            1int
        } else {
            0int
        }
    }
}

/// Numerator of the information gain of a split, over the common positive
/// denominator `n * n * l * r`: with binary labels the gain is the rational
///
///   (1 - ((a+b)/n)^2) - (l * imp(a/l) + r * imp(b/r)) / n,
///
/// where `imp(p) = 1 - p^2 - (1-p)^2`, `l`/`r` are the partition sizes and
/// `a`/`b` their positive-label counts, so comparing two candidates' gains is
/// comparing these numerators weighted by the other's `l * r`.
pub open spec fn gain_num(n: int, l: int, r: int, a: int, b: int) -> int {
    l * r * (n * n - (a + b) * (a + b)) - 2 * n * (a * (l - a) * r + b * (r - b) * l)
}

/// The candidate thresholds of one column: every `step`-th sorted value with
/// `step = n / 10`; none when the rows number under ten.
pub open spec fn col_candidates(x: Seq<Seq<i64>>, f: int) -> Seq<(int, i64)> {
    let n = x.len() as int;
    let step = n / 10;
    if step == 0 {
        Seq::<(int, i64)>::empty()
    } else {
        Seq::new((((n - 1) / step) + 1) as nat, |i: int| (f, sorted_values(column(x, f))[i * step]))
    }
}

/// The flat candidate list: column by column, thresholds ascending.
pub open spec fn candidates_up_to(x: Seq<Seq<i64>>, w: int) -> Seq<(int, i64)>
    decreases w,
{
    if w <= 0 {
        Seq::<(int, i64)>::empty()
    } else {
        candidates_up_to(x, w - 1) + col_candidates(x, w - 1)
    }
}

pub open spec fn candidates(x: Seq<Seq<i64>>) -> Seq<(int, i64)> {
    if x.len() == 0 {
        Seq::<(int, i64)>::empty()
    } else {
        candidates_up_to(x, x[0].len() as int)
    }
}

/// A candidate splits the rows into two non-empty partitions.
pub open spec fn valid_candidate(x: Seq<Seq<i64>>, c: (int, i64)) -> bool {
    0 < left_count(x, c.0, c.1) < x.len()
}

pub open spec fn cand_gain_num(x: Seq<Seq<i64>>, y: Seq<i64>, c: (int, i64)) -> int {
    let n = x.len() as int;
    let l = left_count(x, c.0, c.1);
    let a = left_pos(x, y, c.0, c.1);
    gain_num(n, l, n - l, a, pos_count(y) - a)
}

/// The candidate-specific factor of the gain's denominator.
pub open spec fn cand_den(x: Seq<Seq<i64>>, c: (int, i64)) -> int {
    left_count(x, c.0, c.1) * (x.len() - left_count(x, c.0, c.1))
}

/// Candidate `c1`'s gain lies strictly above `c2`'s: compared exactly by
/// cross-multiplying the numerators with the denominators' candidate parts.
pub open spec fn strictly_better(x: Seq<Seq<i64>>, y: Seq<i64>, c1: (int, i64), c2: (
    int,
    i64,
)) -> bool {
    cand_gain_num(x, y, c1) * cand_den(x, c2) > cand_gain_num(x, y, c2) * cand_den(x, c1)
}

/// Position `j` of the candidate list holds the winning split: a valid
/// candidate strictly above every earlier valid one and not beaten by any
/// later one — the first maximal gain in scan order.
pub open spec fn is_winner_within(x: Seq<Seq<i64>>, y: Seq<i64>, m: int, j: int) -> bool {
    let cs = candidates(x);
    &&& 0 <= j < m <= cs.len()
    &&& valid_candidate(x, cs[j])
    &&& forall|k: int|
        0 <= k < j && valid_candidate(x, #[trigger] cs[k]) ==> strictly_better(x, y, cs[j], cs[k])
    &&& forall|k: int|
        j < k < m && valid_candidate(x, #[trigger] cs[k]) ==> !strictly_better(x, y, cs[k], cs[j])
}

pub open spec fn is_winner(x: Seq<Seq<i64>>, y: Seq<i64>, j: int) -> bool {
    is_winner_within(x, y, candidates(x).len() as int, j)
}

/// The label a partition votes for: one when at least half its rows are
/// positive, else zero.
pub open spec fn majority_label(pos: int, total: int) -> i64 {
    if 2 * pos >= total {
        MICROS
    } else {
        0
    }
}

/// The stump the winning candidate `j` yields.
pub open spec fn stump_of_winner(x: Seq<Seq<i64>>, y: Seq<i64>, j: int) -> DecisionStump {
    let c = candidates(x)[j];
    let n = x.len() as int;
    let l = left_count(x, c.0, c.1);
    let a = left_pos(x, y, c.0, c.1);
    let b = pos_count(y) - a;
    DecisionStump {
        feature_index: c.0 as usize,
        threshold: c.1,
        left_label: majority_label(a, l),
        right_label: majority_label(b, n - l),
    }
}

/// What training yields: the degenerate stump when no candidate splits the
/// rows into two non-empty parts, else the stump of the first candidate of
/// strictly maximal gain.
pub open spec fn trained_stump_post(x: Seq<Seq<i64>>, y: Seq<i64>, s: DecisionStump) -> bool {
    let cs = candidates(x);
    &&& ((forall|k: int| 0 <= k < cs.len() ==> !valid_candidate(x, #[trigger] cs[k])) ==> s
        == degenerate_stump())
    &&& ((exists|k: int| 0 <= k < cs.len() && valid_candidate(x, #[trigger] cs[k])) ==> (exists|
    j: int|
        #[trigger] is_winner(x, y, j) && s == stump_of_winner(x, y, j)))
}

/// The stump of a training set with no usable split candidate.
pub open spec fn degenerate_stump() -> DecisionStump {
    DecisionStump { feature_index: 0, threshold: 0, left_label: 0, right_label: 0 }
}

/// What the stump answers for one feature vector.
pub open spec fn spec_stump_predict(s: DecisionStump, row: Seq<i64>) -> i64 {
    if row.len() == 0 {
        0
    } else if row[s.feature_index as int] <= s.threshold {
        s.left_label
    } else {
        s.right_label
    }
}

impl DecisionStump {
    /// Answers `left_label` or `right_label` by the threshold test; an empty
    /// vector gets the zero guard.
    pub fn predict(&self, row: &Vec<i64>) -> (r: i64)
        requires
            row@.len() == 0 || (self.feature_index as int) < row@.len(),
        ensures
            r == spec_stump_predict(*self, row@),
    {
        if row.len() == 0 {
            return 0;
        }
        if row[self.feature_index] <= self.threshold {
            self.left_label
        } else {
            self.right_label
        }
    }
}

/// The winning candidate is unique: training pins one stump. Two positions
/// that both win must be one position, since the earlier would have to beat
/// the later and be unbeaten by it at once.
pub proof fn lemma_winner_unique(x: Seq<Seq<i64>>, y: Seq<i64>, j1: int, j2: int)
    requires
        is_winner(x, y, j1),
        is_winner(x, y, j2),
    ensures
        j1 == j2,
{
    let cs = candidates(x);
    if j1 < j2 {
        assert(strictly_better(x, y, cs[j2], cs[j1]));
        assert(!strictly_better(x, y, cs[j2], cs[j1]));
    }
    if j2 < j1 {
        assert(strictly_better(x, y, cs[j1], cs[j2]));
        assert(!strictly_better(x, y, cs[j1], cs[j2]));
    }
}

/// Two stump predictions from the same stump and the same vector are the same
/// value: prediction reads nothing but its arguments.
pub proof fn lemma_stump_predict_deterministic(s: DecisionStump, row: Seq<i64>, r1: i64, r2: i64)
    requires
        r1 == spec_stump_predict(s, row),
        r2 == spec_stump_predict(s, row),
    ensures
        r1 == r2,
{
}

pub proof fn lemma_counts_relation(x: Seq<Seq<i64>>, y: Seq<i64>, f: int, t: i64)
    requires
        x.len() == y.len(),
    ensures
        0 <= left_pos(x, y, f, t) <= left_count(x, f, t) <= x.len(),
        0 <= pos_count(y) <= y.len(),
        left_pos(x, y, f, t) <= pos_count(y),
        pos_count(y) - left_pos(x, y, f, t) <= x.len() - left_count(x, f, t),
    decreases x.len(),
{
    if x.len() > 0 {
        lemma_counts_relation(x.drop_last(), y.drop_last(), f, t);
    }
}

proof fn lemma_left_count_step(x: Seq<Seq<i64>>, f: int, t: i64, i: int)
    requires
        0 <= i < x.len(),
    ensures
        left_count(x.take(i + 1), f, t) == left_count(x.take(i), f, t) + if x[i][f] <= t {
            1int
        } else {
            0int
        },
{
    assert(x.take(i + 1).drop_last() =~= x.take(i));
    assert(x.take(i + 1).last() == x[i]);
}

proof fn lemma_left_pos_step(x: Seq<Seq<i64>>, y: Seq<i64>, f: int, t: i64, i: int)
    requires
        0 <= i < x.len(),
        0 <= i < y.len(),
    ensures
        left_pos(x.take(i + 1), y.take(i + 1), f, t) == left_pos(x.take(i), y.take(i), f, t) + if x[i][f]
            <= t && y[i] == MICROS {
            1int
        } else {
            0int
        },
{
    assert(x.take(i + 1).drop_last() =~= x.take(i));
    assert(y.take(i + 1).drop_last() =~= y.take(i));
    assert(x.take(i + 1).last() == x[i]);
    assert(y.take(i + 1).last() == y[i]);
}

proof fn lemma_pos_count_step(y: Seq<i64>, i: int)
    requires
        0 <= i < y.len(),
    ensures
        pos_count(y.take(i + 1)) == pos_count(y.take(i)) + if y[i] == MICROS {
            1int
        } else {
            0int
        },
{
    assert(y.take(i + 1).drop_last() =~= y.take(i));
    assert(y.take(i + 1).last() == y[i]);
}

/// Exact comparison of fractions is transitive: with positive denominators,
/// `n1/d1 > n2/d2` and `n2/d2 >= n3/d3` give `n1/d1 > n3/d3`.
proof fn lemma_ratio_trans(n1: int, d1: int, n2: int, d2: int, n3: int, d3: int)
    requires
        d1 > 0,
        d2 > 0,
        d3 > 0,
        n1 * d2 > n2 * d1,
        n2 * d3 >= n3 * d2,
    ensures
        n1 * d3 > n3 * d1,
{
    assert(n1 * d3 * d2 > n3 * d1 * d2) by (nonlinear_arith)
        requires
            d1 > 0,
            d2 > 0,
            d3 > 0,
            n1 * d2 > n2 * d1,
            n2 * d3 >= n3 * d2,
    ;
    assert(n1 * d3 > n3 * d1) by (nonlinear_arith)
        requires
            d2 > 0,
            n1 * d3 * d2 > n3 * d1 * d2,
    ;
}

/// How many labels are positive.
pub fn count_pos(y: &Vec<i64>) -> (c: usize)
    ensures
        c == pos_count(y@),
{
    let mut c: usize = 0;
    let mut i: usize = 0;
    while i < y.len()
        invariant
            0 <= i <= y@.len(),
            c == pos_count(y@.take(i as int)),
            c <= i,
        decreases y@.len() - i,
    {
        proof {
            lemma_pos_count_step(y@, i as int);
        }
        if y[i] == MICROS {
            c += 1;
        }
        i += 1;
    }
    proof {
        assert(y@.take(y@.len() as int) =~= y@);
    }
    c
}

/// Sizes the left partition of a candidate split: how many rows fall at or
/// below the threshold, and how many of those are labelled positive.
#[verifier::loop_isolation(false)]
fn partition_stats(x: &Vec<Vec<i64>>, y: &Vec<i64>, f: usize, t: i64) -> (r: (usize, usize))
    requires
        x@.len() == y@.len(),
        forall|i: int| 0 <= i < x@.len() ==> f < (#[trigger] x@[i]@).len(),
    ensures
        r.0 == left_count(crate::dataset::rows_view(x@), f as int, t),
        r.1 == left_pos(crate::dataset::rows_view(x@), y@, f as int, t),
        r.0 <= x@.len(),
        r.1 <= r.0,
{
    let ghost rows = crate::dataset::rows_view(x@);
    let mut l: usize = 0;
    let mut a: usize = 0;
    let mut i: usize = 0;
    while i < x.len()
        invariant
            0 <= i <= x@.len(),
            l == left_count(rows.take(i as int), f as int, t),
            a == left_pos(rows.take(i as int), y@.take(i as int), f as int, t),
            a <= l <= i,
        decreases x@.len() - i,
    {
        proof {
            lemma_left_count_step(rows, f as int, t, i as int);
            lemma_left_pos_step(rows, y@, f as int, t, i as int);
            assert(rows[i as int] == x@[i as int]@);
        }
        if x[i][f] <= t {
            l += 1;
            if y[i] == MICROS {
                a += 1;
            }
        }
        i += 1;
    }
    proof {
        assert(rows.take(rows.len() as int) =~= rows);
        assert(y@.take(y@.len() as int) =~= y@);
    }
    (l, a)
}

/// The gain numerator, computed exactly in 128-bit integers.
fn gain_num_exec(n: usize, l: usize, a: usize, pos: usize) -> (g: i128)
    requires
        a <= l <= n,
        a <= pos,
        pos - a <= n - l,
        n <= MAX_TRAIN_ROWS,
    ensures
        g == gain_num(n as int, l as int, (n - l) as int, a as int, (pos - a) as int),
        -0xC00000000000000000000 <= g <= 0x400000000000000000000,
{
    let ln = l as i128;
    let rn = (n - l) as i128;
    let an = a as i128;
    let bn = (pos - a) as i128;
    let nn = n as i128;
    let s = an + bn;
    proof {
        assert(0 <= (nn as int) * (nn as int) <= 0x10000000000) by (nonlinear_arith)
            requires
                0 <= nn as int <= 0x100000,
        ;
        assert(0 <= (s as int) * (s as int) <= 0x40000000000) by (nonlinear_arith)
            requires
                0 <= s as int <= 0x200000,
        ;
    }
    let term1: i128 = nn * nn - s * s;
    proof {
        assert(0 <= (ln as int) * (rn as int) <= 0x10000000000) by (nonlinear_arith)
            requires
                0 <= ln as int <= 0x100000,
                0 <= rn as int <= 0x100000,
        ;
    }
    let lr: i128 = ln * rn;
    proof {
        assert(-0x400000000000000000000 <= (lr as int) * (term1 as int)
            <= 0x400000000000000000000) by (nonlinear_arith)
            requires
                0 <= lr as int <= 0x10000000000,
                -0x40000000000 <= term1 as int <= 0x10000000000,
        ;
    }
    let part1: i128 = lr * term1;
    proof {
        assert(0 <= (an as int) * ((ln - an) as int) <= 0x10000000000) by (nonlinear_arith)
            requires
                0 <= an as int <= ln as int,
                ln as int <= 0x100000,
        ;
        assert(0 <= (bn as int) * ((rn - bn) as int) <= 0x10000000000) by (nonlinear_arith)
            requires
                0 <= bn as int <= rn as int,
                rn as int <= 0x100000,
        ;
    }
    let p1: i128 = an * (ln - an);
    let p2: i128 = bn * (rn - bn);
    proof {
        assert(0 <= (p1 as int) * (rn as int) <= 0x1000000000000000) by (nonlinear_arith)
            requires
                0 <= p1 as int <= 0x10000000000,
                0 <= rn as int <= 0x100000,
        ;
        assert(0 <= (p2 as int) * (ln as int) <= 0x1000000000000000) by (nonlinear_arith)
            requires
                0 <= p2 as int <= 0x10000000000,
                0 <= ln as int <= 0x100000,
        ;
    }
    let inner1: i128 = p1 * rn;
    let inner2: i128 = p2 * ln;
    proof {
        assert(0 <= ((2 * nn) as int) * ((inner1 + inner2) as int) <= 0x800000000000000000000)
            by (nonlinear_arith)
            requires
                0 <= nn as int <= 0x100000,
                0 <= (inner1 + inner2) as int <= 0x2000000000000000,
        ;
    }
    let part2: i128 = 2 * nn * (inner1 + inner2);
    part1 - part2
}

proof fn lemma_left_count_bounds(x: Seq<Seq<i64>>, f: int, t: i64)
    ensures
        0 <= left_count(x, f, t) <= x.len(),
    decreases x.len(),
{
    if x.len() > 0 {
        lemma_left_count_bounds(x.drop_last(), f, t);
    }
}

proof fn lemma_den_pos(x: Seq<Seq<i64>>, c: (int, i64))
    requires
        valid_candidate(x, c),
    ensures
        cand_den(x, c) > 0,
{
    let l = left_count(x, c.0, c.1);
    assert(l * (x.len() - l) > 0) by (nonlinear_arith)
        requires
            0 < l < x.len(),
    ;
}

/// The candidate lists of the first `f` columns are a prefix of those of the
/// first `w`.
proof fn lemma_candidates_prefix(x: Seq<Seq<i64>>, f: int, w: int)
    requires
        0 <= f <= w,
    ensures
        candidates_up_to(x, f).len() <= candidates_up_to(x, w).len(),
        forall|i: int|
            0 <= i < candidates_up_to(x, f).len() ==> candidates_up_to(x, w)[i]
                == candidates_up_to(x, f)[i],
    decreases w,
{
    if f < w {
        lemma_candidates_prefix(x, f, w - 1);
    }
}

proof fn lemma_candidates_empty(x: Seq<Seq<i64>>, w: int)
    requires
        (x.len() as int) / 10 == 0,
    ensures
        candidates_up_to(x, w).len() == 0,
    decreases w,
{
    if w > 0 {
        lemma_candidates_empty(x, w - 1);
    }
}

/// The best-so-far split of the threshold scan.
#[derive(Clone, Copy)]
struct BestCand {
    f: usize,
    t: i64,
    num: i128,
    den: i128,
    ll: i64,
    rl: i64,
}

impl DecisionStump {
    /// Trains a stump: scans every feature column's sampled thresholds, rates
    /// each split that leaves neither side empty by its information gain, and
    /// keeps the first split of strictly maximal gain in scan order (column
    /// index first, then ascending threshold position). Gains are compared
    /// exactly, as rationals in integer arithmetic. A training set that
    /// offers no usable candidate (fewer than ten rows, or every split
    /// one-sided) yields the all-zero degenerate stump.
    #[verifier::loop_isolation(false)]
    #[verifier::rlimit(100)]
    pub fn train(x: &Vec<Vec<i64>>, y: &Vec<i64>) -> (s: DecisionStump)
        requires
            x@.len() == y@.len(),
            x@.len() <= MAX_TRAIN_ROWS,
            binary_labels(y@),
            x@.len() > 0 ==> uniform_width(
                crate::dataset::rows_view(x@),
                x@[0]@.len() as int,
            ),
        ensures
            trained_stump_post(crate::dataset::rows_view(x@), y@, s),
            x@.len() > 0 && x@[0]@.len() > 0 ==> (s.feature_index as int) < x@[0]@.len(),
            x@.len() == 0 || x@[0]@.len() == 0 ==> s == degenerate_stump(),
    {
        let n = x.len();
        if n == 0 {
            return DecisionStump { feature_index: 0, threshold: 0, left_label: 0, right_label: 0 };
        }
        let ghost rows = crate::dataset::rows_view(x@);
        let ghost cs = candidates(rows);
        let w = x[0].len();
        proof {
            assert(rows[0] == x@[0]@);
        }
        let pos = count_pos(y);
        let step = n / 10;
        let mut best: Option<BestCand> = None;
        let ghost mut bj: int = 0;
        let ghost mut m: int = 0;
        if step == 0 || w == 0 {
            proof {
                if step == 0 {
                    lemma_candidates_empty(rows, w as int);
                } else {
                    assert(cs.len() == 0);
                }
            }
            return DecisionStump { feature_index: 0, threshold: 0, left_label: 0, right_label: 0 };
        }
        let mut f: usize = 0;
        while f < w
            invariant
                0 <= f <= w,
                m == candidates_up_to(rows, f as int).len(),
                best is None ==> forall|k: int|
                    0 <= k < m ==> !valid_candidate(rows, #[trigger] cs[k]),
                best is Some ==> {
                    let bc = best->0;
                    &&& is_winner_within(rows, y@, m, bj)
                    &&& cs[bj] == (bc.f as int, bc.t)
                    &&& bc.num == cand_gain_num(rows, y@, cs[bj])
                    &&& bc.den == cand_den(rows, cs[bj])
                    &&& 0 < bc.den <= 0x10000000000
                    &&& -0xC00000000000000000000 <= bc.num <= 0x400000000000000000000
                    &&& bc.f < w
                    &&& DecisionStump {
                        feature_index: bc.f,
                        threshold: bc.t,
                        left_label: bc.ll,
                        right_label: bc.rl,
                    } == stump_of_winner(rows, y@, bj)
                },
            decreases w - f,
        {
            // gather and sort this column's values
            let mut col: Vec<i64> = Vec::new();
            let mut i: usize = 0;
            while i < n
                invariant
                    0 <= i <= n,
                    col@ =~= column(rows, f as int).take(i as int),
                decreases n - i,
            {
                proof {
                    assert(column(rows, f as int)[i as int] == rows[i as int][f as int]);
                    assert(rows[i as int] == x@[i as int]@);
                    assert(column(rows, f as int).take(i + 1) =~= column(
                        rows,
                        f as int,
                    ).take(i as int).push(column(rows, f as int)[i as int]));
                }
                col.push(x[i][f]);
                i += 1;
            }
            proof {
                assert(column(rows, f as int).take(n as int) =~= column(rows, f as int));
            }
            let sorted = crate::stats::sort_values(&col);
            proof {
                crate::stats::lemma_sorted_values_ensures(column(rows, f as int));
            }
            let ghost base = m;
            let mut it: usize = 0;
            let ghost mut q: int = 0;
            while it < n
                invariant
                    it == q * step,
                    0 <= q,
                    q > 0 ==> (q - 1) * step < n,
                    m == base + q,
                    base == candidates_up_to(rows, f as int).len(),
                    best is None ==> forall|k: int|
                        0 <= k < m ==> !valid_candidate(rows, #[trigger] cs[k]),
                    best is Some ==> {
                        let bc = best->0;
                        &&& is_winner_within(rows, y@, m, bj)
                        &&& cs[bj] == (bc.f as int, bc.t)
                        &&& bc.num == cand_gain_num(rows, y@, cs[bj])
                        &&& bc.den == cand_den(rows, cs[bj])
                        &&& 0 < bc.den <= 0x10000000000
                        &&& -0xC00000000000000000000 <= bc.num <= 0x400000000000000000000
                        &&& bc.f < w
                        &&& DecisionStump {
                            feature_index: bc.f,
                            threshold: bc.t,
                            left_label: bc.ll,
                            right_label: bc.rl,
                        } == stump_of_winner(rows, y@, bj)
                    },
                decreases n + step - it,
            {
                let t = sorted[it];
                proof {
                    // this scan position is candidate `m` of the flat list
                    assert(q * step <= n as int - 1);
                    vstd::arithmetic::div_mod::lemma_div_is_ordered(
                        q * step,
                        n as int - 1,
                        step as int,
                    );
                    vstd::arithmetic::div_mod::lemma_div_by_multiple(q, step as int);
                    assert(q <= (n as int - 1) / (step as int));
                    assert(q < col_candidates(rows, f as int).len());
                    lemma_candidates_prefix(rows, f as int + 1, w as int);
                    assert(candidates_up_to(rows, f as int + 1) == candidates_up_to(
                        rows,
                        f as int,
                    ) + col_candidates(rows, f as int));
                    assert(cs[m] == col_candidates(rows, f as int)[q]);
                    assert(cs[m] == (f as int, t));
                }
                proof {
                    assert forall|i2: int| 0 <= i2 < x@.len() implies (f as int) < (
                    #[trigger] x@[i2]@).len() by {
                        assert(rows[i2] == x@[i2]@);
                        assert(rows[i2].len() == w);
                    }
                }
                let (l, a) = partition_stats(x, y, f, t);
                proof {
                    lemma_counts_relation(rows, y@, f as int, t);
                }
                if l > 0 && l < n {
                    let num = gain_num_exec(n, l, a, pos);
                    proof {
                        assert(0 < (l as int) * ((n - l) as int) <= 0x10000000000)
                            by (nonlinear_arith)
                            requires
                                0 < l < n <= 0x100000,
                        ;
                    }
                    let den: i128 = (l as i128) * ((n - l) as i128);
                    proof {
                        assert(num == cand_gain_num(rows, y@, cs[m]));
                        assert(den == cand_den(rows, cs[m]));
                        assert(valid_candidate(rows, cs[m]));
                    }
                    let two_a = 2 * a;
                    let ll: i64 = if two_a >= l {
                        MICROS
                    } else {
                        0
                    };
                    let b = pos - a;
                    let rr = n - l;
                    let rl: i64 = if 2 * b >= rr {
                        MICROS
                    } else {
                        0
                    };
                    let take_it = match best {
                        Option::None => true,
                        Option::Some(bc) => {
                            proof {
                                assert(-0x10000000000000000000000000000000 <= (num as int) * (
                                bc.den as int) <= 0x10000000000000000000000000000000)
                                    by (nonlinear_arith)
                                    requires
                                        -0xC00000000000000000000 <= num as int
                                            <= 0x400000000000000000000,
                                        0 < bc.den as int <= 0x10000000000,
                                ;
                                assert(-0x10000000000000000000000000000000 <= (bc.num as int) * (
                                den as int) <= 0x10000000000000000000000000000000)
                                    by (nonlinear_arith)
                                    requires
                                        -0xC00000000000000000000 <= bc.num as int
                                            <= 0x400000000000000000000,
                                        0 < den as int <= 0x10000000000,
                                ;
                            }
                            num * bc.den > bc.num * den
                        },
                    };
                    if take_it {
                        proof {
                            let c_m = cs[m];
                            if best is Some {
                                let old_bj = bj;
                                assert forall|k: int|
                                    0 <= k < m && valid_candidate(
                                        rows,
                                        #[trigger] cs[k],
                                    ) implies strictly_better(rows, y@, c_m, cs[k]) by {
                                    lemma_den_pos(rows, cs[k]);
                                    lemma_den_pos(rows, cs[old_bj]);
                                    lemma_den_pos(rows, c_m);
                                    if k != old_bj {
                                        lemma_ratio_trans(
                                            cand_gain_num(rows, y@, c_m),
                                            cand_den(rows, c_m),
                                            cand_gain_num(rows, y@, cs[old_bj]),
                                            cand_den(rows, cs[old_bj]),
                                            cand_gain_num(rows, y@, cs[k]),
                                            cand_den(rows, cs[k]),
                                        );
                                    }
                                }
                            }
                            bj = m;
                        }
                        best = Some(
                            BestCand { f, t, num, den, ll, rl },
                        );
                    }
                } else {
                    proof {
                        lemma_left_count_bounds(rows, f as int, t);
                        assert(!valid_candidate(rows, cs[m]));
                    }
                }
                proof {
                    assert((q + 1) * step == q * step + step) by (nonlinear_arith);
                    q = q + 1;
                    m = m + 1;
                }
                it += step;
            }
            proof {
                // the column is exhausted: `q` covered its whole candidate list
                assert(q >= 1);
                assert((q - 1) * step == q * step - step) by (nonlinear_arith);
                assert(0 <= n as int - 1 - (q - 1) * step < step);
                assert(n as int - 1 == (q - 1) * step + (n as int - 1 - (q - 1) * step));
                vstd::arithmetic::div_mod::lemma_fundamental_div_mod_converse_div(
                    n as int - 1,
                    step as int,
                    q - 1,
                    n as int - 1 - (q - 1) * step,
                );
                assert(col_candidates(rows, f as int).len() == q);
                lemma_candidates_prefix(rows, f as int + 1, w as int);
                assert(candidates_up_to(rows, f as int + 1) == candidates_up_to(rows, f as int)
                    + col_candidates(rows, f as int));
                m = base + q;
            }
            f += 1;
        }
        proof {
            assert(m == cs.len());
        }
        match best {
            Option::None => DecisionStump {
                feature_index: 0,
                threshold: 0,
                left_label: 0,
                right_label: 0,
            },
            Option::Some(bc) => {
                proof {
                    assert(is_winner(rows, y@, bj));
                }
                DecisionStump {
                    feature_index: bc.f,
                    threshold: bc.t,
                    left_label: bc.ll,
                    right_label: bc.rl,
                }
            },
        }
    }
}

} // verus!
