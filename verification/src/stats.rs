use vstd::prelude::*;
use vstd::relations::{sorted_by, total_ordering};
use vstd::seq_lib::lemma_sorted_unique;

verus! {

/// The ascending order on fixed-point values.
pub open spec fn value_leq() -> spec_fn(i64, i64) -> bool {
    |x: i64, y: i64| x <= y
}

/// `s` rearranged into ascending order.
pub open spec fn sorted_values(s: Seq<i64>) -> Seq<i64> {
    s.sort_by(value_leq())
}

pub proof fn lemma_value_leq_total()
    ensures
        total_ordering(value_leq()),
{
}

/// What `sorted_values` yields: an ascending permutation of its input.
pub proof fn lemma_sorted_values_ensures(s: Seq<i64>)
    ensures
        sorted_values(s).len() == s.len(),
        sorted_by(sorted_values(s), value_leq()),
        sorted_values(s).to_multiset() == s.to_multiset(),
{
    lemma_value_leq_total();
    s.lemma_sort_by_ensures(value_leq());
    broadcast use vstd::seq_lib::group_to_multiset_ensures;

    assert(sorted_values(s).to_multiset() =~= s.to_multiset());
    assert(sorted_values(s).to_multiset().len() == s.to_multiset().len());
}

/// Sorts fixed-point values ascending.
#[verifier::loop_isolation(false)]
pub fn sort_values(v: &Vec<i64>) -> (r: Vec<i64>)
    ensures
        r@ == sorted_values(v@),
{
    let ghost leq = value_leq();
    let mut out: Vec<i64> = Vec::new();
    proof {
        assert(v@.take(0) =~= out@);
    }
    let mut i: usize = 0;
    while i < v.len()
        invariant
            0 <= i <= v@.len(),
            out@.len() == i,
            sorted_by(out@, leq),
            out@.to_multiset() == v@.take(i as int).to_multiset(),
        decreases v@.len() - i,
    {
        let x = v[i];
        let mut j: usize = 0;
        while j < out.len() && out[j] <= x
            invariant
                0 <= j <= out@.len(),
                forall|k: int| 0 <= k < j ==> out@[k] <= x,
            decreases out@.len() - j,
        {
            j += 1;
        }
        proof {
            broadcast use vstd::seq_lib::to_multiset_insert;
            broadcast use vstd::seq_lib::group_to_multiset_ensures;

            assert(v@.take(i + 1).drop_last() =~= v@.take(i as int));
            assert(v@.take(i + 1) =~= v@.take(i as int).push(v@[i as int]));
        }
        let ghost prev = out@;
        out.insert(j, x);
        proof {
            prev.insert_ensures(j as int, x);
            assert forall|p: int, q: int| 0 <= p < q < out@.len() implies leq(
                out@[p],
                out@[q],
            ) by {
                if q < j {
                } else if p > j {
                    assert(out@[p] == prev[p - 1] && out@[q] == prev[q - 1]);
                } else if p < j && q == j {
                    assert(out@[p] == prev[p] && out@[q] == x);
                } else if p == j && q > j {
                    assert(out@[p] == x && out@[q] == prev[q - 1]);
                    if q - 1 > j {
                        assert(leq(prev[j as int], prev[q - 1]));
                    }
                    assert(prev[j as int] > x);
                } else if p < j && q > j {
                    assert(out@[p] == prev[p] && out@[q] == prev[q - 1]);
                }
            }
        }
        i += 1;
    }
    proof {
        assert(v@.take(v@.len() as int) =~= v@);
        lemma_value_leq_total();
        v@.lemma_sort_by_ensures(leq);
        lemma_sorted_unique(out@, v@.sort_by(leq), leq);
    }
    out
}

/// The upper median of `s`: the sorted values' element at index `len / 2`;
/// `fallback` when `s` is empty.
pub open spec fn spec_median_or(s: Seq<i64>, fallback: i64) -> i64 {
    if s.len() == 0 {
        fallback
    } else {
        sorted_values(s)[s.len() as int / 2]
    }
}

/// Median of a set of observed values, used for imputation; no interpolation,
/// the upper middle is taken for even counts.
pub fn median_or(vals: &Vec<i64>, fallback: i64) -> (r: i64)
    ensures
        r == spec_median_or(vals@, fallback),
{
    if vals.len() == 0 {
        return fallback;
    }
    let sorted = sort_values(vals);
    proof {
        lemma_sorted_values_ensures(vals@);
    }
    sorted[vals.len() / 2]
}

} // verus!
