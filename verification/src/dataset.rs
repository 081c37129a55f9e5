use vstd::prelude::*;

verus! {

/// Width of every feature vector: class, sex, age, fare, siblings/spouses,
/// parents/children, family size.
pub const FEATURE_COUNT: usize = 7;

/// An ordered sequence of feature vectors paired positionally with labels.
/// Every value is a fixed-point count of millionths (`parse::MICROS` stands
/// for one whole unit).
#[derive(Debug)]
pub struct DataSet {
    pub features: Vec<Vec<i64>>,
    pub labels: Vec<i64>,
}

/// The mathematical view of a vector of feature rows.
pub open spec fn rows_view(s: Seq<Vec<i64>>) -> Seq<Seq<i64>> {
    s.map_values(|r: Vec<i64>| r@)
}

impl DataSet {
    /// The feature rows as mathematical sequences.
    pub open spec fn rows(self) -> Seq<Seq<i64>> {
        rows_view(self.features@)
    }

    /// Labels pair up with rows, and every row is as wide as the schema asks.
    pub open spec fn wf(self) -> bool {
        &&& self.features@.len() == self.labels@.len()
        &&& forall|i: int|
            0 <= i < self.features@.len() ==> (#[trigger] self.features@[i]@.len())
                == FEATURE_COUNT
    }

    pub open spec fn spec_len(self) -> nat {
        self.features@.len()
    }

    /// How many rows the set holds.
    pub fn len(&self) -> (n: usize)
        ensures
            n == self.spec_len(),
    {
        self.features.len()
    }
}

/// An element-for-element copy of one feature row.
pub fn copy_row(r: &Vec<i64>) -> (c: Vec<i64>)
    ensures
        c@ == r@,
{
    let mut c: Vec<i64> = Vec::new();
    let mut i: usize = 0;
    while i < r.len()
        invariant
            0 <= i <= r@.len(),
            c@ == r@.take(i as int),
        decreases r@.len() - i,
    {
        c.push(r[i]);
        proof {
            assert(r@.take(i + 1) =~= r@.take(i as int).push(r@[i as int]));
        }
        i += 1;
    }
    proof {
        assert(r@.take(r@.len() as int) =~= r@);
    }
    c
}

} // verus!
