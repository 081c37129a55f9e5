use vstd::prelude::*;
use crate::dataset::{copy_row, DataSet};

verus! {

/// How many rows go to the test set: `floor(n * num / den)`, the floor of the
/// row count times the test ratio `num / den`.
pub open spec fn spec_test_size(n: nat, num: nat, den: nat) -> int {
    (n as int) * (num as int) / (den as int)
}

proof fn lemma_test_size_le(n: nat, num: nat, den: nat)
    requires
        0 < den,
        num <= den,
    ensures
        0 <= spec_test_size(n, num, den) <= n,
{
    vstd::arithmetic::mul::lemma_mul_inequality(num as int, den as int, n as int);
    vstd::arithmetic::div_mod::lemma_div_is_ordered(
        (n as int) * (num as int),
        (n as int) * (den as int),
        den as int,
    );
    vstd::arithmetic::div_mod::lemma_div_by_multiple(n as int, den as int);
    vstd::arithmetic::div_mod::lemma_div_pos_is_pos((n as int) * (num as int), den as int);
    vstd::arithmetic::mul::lemma_mul_nonnegative(n as int, num as int);
}

/// Splits a dataset into disjoint test and train parts by the ratio
/// `num / den` (a test ratio of 0.3 is given as 3 over 10).
///
/// Test rows are picked by the deterministic index walk that repeatedly takes
/// `selected mod n` until `test_size` distinct indices are found, which always
/// selects indices `0 .. test_size-1`; this is a documented design limitation,
/// not a random sample. The remaining rows keep their relative order in the
/// train part, so test rows followed by train rows rebuild the input exactly.
#[verifier::loop_isolation(false)]
pub fn train_test_split(dataset: &DataSet, ratio_num: u64, ratio_den: u64) -> (r: (DataSet, DataSet))
    requires
        dataset.wf(),
        0 < ratio_den,
        ratio_num <= ratio_den,
    ensures
        ({
            let ts = spec_test_size(dataset.spec_len(), ratio_num as nat, ratio_den as nat);
            &&& r.0.wf()
            &&& r.1.wf()
            &&& r.1.rows() == dataset.rows().take(ts)
            &&& r.1.labels@ == dataset.labels@.take(ts)
            &&& r.0.rows() == dataset.rows().skip(ts)
            &&& r.0.labels@ == dataset.labels@.skip(ts)
            &&& r.1.rows() + r.0.rows() == dataset.rows()
            &&& r.1.labels@ + r.0.labels@ == dataset.labels@
        }),
{
    let n = dataset.features.len();
    proof {
        lemma_test_size_le(n as nat, ratio_num as nat, ratio_den as nat);
    }
    proof {
        vstd::arithmetic::mul::lemma_mul_upper_bound(
            n as int,
            0xffff_ffff_ffff_ffff,
            ratio_num as int,
            0xffff_ffff_ffff_ffff,
        );
    }
    let test_size: usize = (((n as u128) * (ratio_num as u128)) / (ratio_den as u128)) as usize;
    let ghost ts = spec_test_size(dataset.spec_len(), ratio_num as nat, ratio_den as nat);
    assert(test_size == ts);
    let mut x_test: Vec<Vec<i64>> = Vec::new();
    let mut y_test: Vec<i64> = Vec::new();
    let mut x_train: Vec<Vec<i64>> = Vec::new();
    let mut y_train: Vec<i64> = Vec::new();
    let mut i: usize = 0;
    while i < test_size
        invariant
            0 <= i <= ts <= dataset.spec_len(),
            x_test@.map_values(|r: Vec<i64>| r@) =~= dataset.rows().take(i as int),
            y_test@ =~= dataset.labels@.take(i as int),
            forall|k: int| 0 <= k < x_test@.len() ==> (#[trigger] x_test@[k]@.len()) == 7,
        decreases test_size - i,
    {
        x_test.push(copy_row(&dataset.features[i]));
        y_test.push(dataset.labels[i]);
        i += 1;
    }
    while i < n
        invariant
            ts <= i <= n,
            x_train@.map_values(|r: Vec<i64>| r@) =~= dataset.rows().subrange(
                ts,
                i as int,
            ),
            y_train@ =~= dataset.labels@.subrange(ts, i as int),
            forall|k: int| 0 <= k < x_train@.len() ==> (#[trigger] x_train@[k]@.len()) == 7,
        decreases n - i,
    {
        x_train.push(copy_row(&dataset.features[i]));
        y_train.push(dataset.labels[i]);
        i += 1;
    }
    let train = DataSet { features: x_train, labels: y_train };
    let test = DataSet { features: x_test, labels: y_test };
    proof {
        assert(test.rows() =~= dataset.rows().take(ts));
        assert(train.rows() =~= dataset.rows().skip(ts));
        assert(test.rows() + train.rows() =~= dataset.rows());
        assert(test.labels@ + train.labels@ =~= dataset.labels@);
    }
    (train, test)
}

} // verus!
