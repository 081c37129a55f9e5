use vstd::prelude::*;
use crate::parse::MICROS;

verus! {

/// The feature vector a new passenger's answers build: class, sex, age,
/// fare, siblings/spouses, parents/children, and the derived family size.
pub open spec fn spec_passenger_features(
    pclass: i64,
    is_male: bool,
    age: i64,
    fare: i64,
    sibsp: i64,
    parch: i64,
) -> Seq<i64> {
    let sex: i64 = if is_male {
        0
    } else {
        MICROS
    };
    seq![pclass, sex, age, fare, sibsp, parch, (sibsp + parch + MICROS) as i64]
}

/// Builds the one feature vector of the prediction boundary from parsed
/// answers. The class must lie between one and three; any other value is
/// rejected, exactly as the interactive prompt rejects it.
pub fn passenger_features(
    pclass: i64,
    is_male: bool,
    age: i64,
    fare: i64,
    sibsp: i64,
    parch: i64,
) -> (r: Option<Vec<i64>>)
    requires
        -1_000_000_000_000_000_000 <= sibsp <= 1_000_000_000_000_000_000,
        -1_000_000_000_000_000_000 <= parch <= 1_000_000_000_000_000_000,
    ensures
        (pclass < MICROS || pclass > 3 * MICROS) <==> r is None,
        r is Some ==> r->0@ == spec_passenger_features(pclass, is_male, age, fare, sibsp, parch),
{
    if pclass < MICROS || pclass > 3 * MICROS {
        return None;
    }
    let sex: i64 = if is_male {
        0
    } else {
        MICROS
    };
    let family = sibsp + parch + MICROS;
    let mut fv: Vec<i64> = Vec::new();
    fv.push(pclass);
    fv.push(sex);
    fv.push(age);
    fv.push(fare);
    fv.push(sibsp);
    fv.push(parch);
    fv.push(family);
    proof {
        assert(fv@ =~= spec_passenger_features(pclass, is_male, age, fare, sibsp, parch));
    }
    Some(fv)
}

} // verus!
