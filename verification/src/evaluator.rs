use vstd::prelude::*;
use crate::parse::MICROS;

verus! {

/// Error for prediction and truth sequences of different lengths: a wiring
/// fault of the caller, not a data condition.
#[derive(Debug, Clone, Copy, PartialEq, Eq)]
pub struct LengthMismatchError;

/// How many positions of `t` and `p` agree exactly. In fixed-point
/// millionths, agreement within less than one millionth is exact equality.
pub open spec fn match_count(t: Seq<i64>, p: Seq<i64>) -> int
    decreases t.len(),
{
    if t.len() == 0 {
        0
    } else {
        match_count(t.drop_last(), p.drop_last()) + if t.last() == p.last() {
            1int
        } else {
            0int
        }
    }
}

proof fn lemma_match_count_step(t: Seq<i64>, p: Seq<i64>, i: int)
    requires
        0 <= i < t.len(),
        0 <= i < p.len(),
    ensures
        match_count(t.take(i + 1), p.take(i + 1)) == match_count(t.take(i), p.take(i)) + if t[i]
            == p[i] {
            1int
        } else {
            0int
        },
{
    assert(t.take(i + 1).drop_last() =~= t.take(i));
    assert(p.take(i + 1).drop_last() =~= p.take(i));
    assert(t.take(i + 1).last() == t[i]);
    assert(p.take(i + 1).last() == p[i]);
}

/// The fixed-point accuracy owed for equally long, non-empty sequences: the
/// matching fraction in millionths, rounded toward zero.
pub open spec fn spec_accuracy(t: Seq<i64>, p: Seq<i64>) -> int {
    match_count(t, p) * (MICROS as int) / t.len() as int
}

/// Fraction of positions where prediction equals truth, in millionths.
/// An empty truth or prediction sequence scores zero; sequences of different
/// lengths (neither empty) are a caller fault and are rejected.
#[verifier::loop_isolation(false)]
pub fn accuracy_score(y_true: &Vec<i64>, y_pred: &Vec<i64>) -> (r: Result<
    i64,
    LengthMismatchError,
>)
    ensures
        y_true@.len() == 0 || y_pred@.len() == 0 ==> r == Result::<
            i64,
            LengthMismatchError,
        >::Ok(0i64),
        y_true@.len() > 0 && y_pred@.len() > 0 && y_true@.len() != y_pred@.len() ==> r is Err,
        y_true@.len() > 0 && y_true@.len() == y_pred@.len() ==> r is Ok && r->Ok_0
            == spec_accuracy(y_true@, y_pred@),
        r is Ok ==> 0 <= r->Ok_0 <= MICROS,
{
    let n = y_true.len();
    if n == 0 || y_pred.len() == 0 {
        return Ok(0);
    }
    if y_pred.len() != n {
        return Err(LengthMismatchError);
    }
    let mut correct: usize = 0;
    let mut i: usize = 0;
    while i < n
        invariant
            0 <= i <= n,
            correct == match_count(y_true@.take(i as int), y_pred@.take(i as int)),
            correct <= i,
        decreases n - i,
    {
        proof {
            lemma_match_count_step(y_true@, y_pred@, i as int);
        }
        if y_true[i] == y_pred[i] {
            correct += 1;
        }
        i += 1;
    }
    proof {
        assert(y_true@.take(n as int) =~= y_true@);
        assert(y_pred@.take(n as int) =~= y_pred@);
        vstd::arithmetic::div_mod::lemma_div_is_ordered(
            (correct as int) * (MICROS as int),
            (n as int) * (MICROS as int),
            n as int,
        );
        vstd::arithmetic::div_mod::lemma_div_by_multiple(MICROS as int, n as int);
        vstd::arithmetic::mul::lemma_mul_inequality(correct as int, n as int, MICROS as int);
        vstd::arithmetic::mul::lemma_mul_is_commutative(n as int, MICROS as int);
        vstd::arithmetic::div_mod::lemma_div_pos_is_pos((correct as int) * (MICROS as int), n as int);
        vstd::arithmetic::mul::lemma_mul_nonnegative(correct as int, MICROS as int);
        vstd::arithmetic::mul::lemma_mul_upper_bound(
            correct as int,
            0xffff_ffff_ffff_ffff,
            MICROS as int,
            1_000_000,
        );
    }
    let frac: i64 = (((correct as u128) * (MICROS as u128)) / (n as u128)) as i64;
    Ok(frac)
}

} // verus!
