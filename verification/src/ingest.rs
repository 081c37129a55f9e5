use vstd::prelude::*;
use crate::dataset::DataSet;
use crate::parse::{
    fixed_string_micros, parse_fixed, parse_fixed_or, spec_parse_fixed_or, spec_parseable, MICROS,
};
use crate::stats::{median_or, spec_median_or};
use crate::text::{clean_field, clean_field_spec, contains_male, has_male};

verus! {

/// Error of the ingestor: the header-stripped input held no usable row.
#[derive(Debug, Clone, Copy, PartialEq, Eq)]
pub struct IngestError;

/// The age imputed when no row carries a readable age at all: 29.7 in
/// millionths.
pub const DEFAULT_AGE: i64 = 29_700_000;

/// One row of strings as a sequence of character sequences.
pub open spec fn string_row_view(r: Seq<String>) -> Seq<Seq<char>> {
    r.map_values(|f: String| f@)
}

/// All raw rows as mathematics.
pub open spec fn raw_view(rs: Seq<Vec<String>>) -> Seq<Seq<Seq<char>>> {
    rs.map_values(|r: Vec<String>| string_row_view(r@))
}

/// Every field of the row cleaned of quotes and padding.
pub open spec fn clean_row(r: Seq<Seq<char>>) -> Seq<Seq<char>> {
    r.map_values(|f: Seq<char>| clean_field_spec(f))
}

/// The rows that survive ingestion, cleaned: the first (header) row goes,
/// rows of fewer than eight fields go, the rest keep their order.
pub open spec fn usable_rows(raw: Seq<Seq<Seq<char>>>) -> Seq<Seq<Seq<char>>> {
    if raw.len() == 0 {
        Seq::<Seq<Seq<char>>>::empty()
    } else {
        raw.skip(1).filter(|r: Seq<Seq<char>>| r.len() >= 8).map_values(
            |r: Seq<Seq<char>>| clean_row(r),
        )
    }
}

/// Every readable age of the usable rows, in row order: the whole file's
/// ages are gathered before any feature row is built.
pub open spec fn ages_of(us: Seq<Seq<Seq<char>>>) -> Seq<i64> {
    us.map_values(|r: Seq<Seq<char>>| r[4]).filter(|f: Seq<char>| spec_parseable(f)).map_values(
        |f: Seq<char>| fixed_string_micros(f) as i64,
    )
}

/// The label of one cleaned row: field 0 read as a number, zero when the
/// field is empty or unreadable — a silent default, never an error.
pub open spec fn spec_label(r: Seq<Seq<char>>) -> i64 {
    spec_parse_fixed_or(r[0], 0)
}

/// The feature vector of one cleaned row under the imputed age `med`:
/// class (default third), sex (zero exactly when field 3 holds "male", so
/// "female" counts as male by substring — the documented policy), age
/// (default the dataset median), fare, siblings/spouses, parents/children
/// (defaults zero), and the family size from the last two.
pub open spec fn spec_feature_row(r: Seq<Seq<char>>, med: i64) -> Seq<i64> {
    let class = spec_parse_fixed_or(r[1], (3 * MICROS) as i64);
    let sex: i64 = if has_male(r[3]) {
        0
    } else {
        MICROS
    };
    let age = spec_parse_fixed_or(r[4], med);
    let fare = spec_parse_fixed_or(r[5], 0);
    let sibsp = spec_parse_fixed_or(r[6], 0);
    let parch = spec_parse_fixed_or(r[7], 0);
    seq![class, sex, age, fare, sibsp, parch, (sibsp + parch + MICROS) as i64]
}

/// The age every usable row is imputed with: the upper median of all
/// readable ages, or the fixed fallback when none is readable.
pub open spec fn spec_imputed_age(raw: Seq<Seq<Seq<char>>>) -> i64 {
    spec_median_or(ages_of(usable_rows(raw)), DEFAULT_AGE)
}

/// Parses raw string rows into a dataset: drops the header row, skips rows
/// of fewer than eight fields, cleans each field of quotes and padding,
/// imputes missing ages with the dataset-wide median, and fails exactly when
/// no usable row remains.
#[verifier::loop_isolation(false)]
pub fn ingest(rows: &Vec<Vec<String>>) -> (res: Result<DataSet, IngestError>)
    ensures
        ({
            let us = usable_rows(raw_view(rows@));
            let med = spec_imputed_age(raw_view(rows@));
            &&& (res is Ok <==> us.len() > 0)
            &&& (res is Ok ==> {
                let ds = res->Ok_0;
                &&& ds.wf()
                &&& ds.rows() == us.map_values(|r: Seq<Seq<char>>| spec_feature_row(r, med))
                &&& ds.labels@ == us.map_values(|r: Seq<Seq<char>>| spec_label(r))
            })
        }),
{
    let ghost raw = raw_view(rows@);
    let ghost keep_pred = |r: Seq<Seq<char>>| r.len() >= 8;
    let ghost cleaner = |r: Seq<Seq<char>>| clean_row(r);
    let ghost age_pick = |r: Seq<Seq<char>>| r[4];
    let ghost age_ok = |f: Seq<char>| spec_parseable(f);
    let ghost age_val = |f: Seq<char>| fixed_string_micros(f) as i64;
    let mut kept: Vec<Vec<String>> = Vec::new();
    let mut ages: Vec<i64> = Vec::new();
    let mut idx: usize = 1;
    proof {
        if raw.len() > 0 {
            assert(raw.skip(1).take(0) =~= Seq::<Seq<Seq<char>>>::empty());
            assert(raw_view(kept@) =~= raw.skip(1).take(0).filter(keep_pred).map_values(cleaner));
            assert(ages@ =~= ages_of(raw_view(kept@)));
        }
    }
    while idx < rows.len()
        invariant
            1 <= idx <= rows@.len() || (rows@.len() == 0 && idx == 1),
            rows@.len() > 0 ==> raw_view(kept@) =~= raw.skip(1).take(idx - 1).filter(
                keep_pred,
            ).map_values(cleaner),
            ages@ =~= ages_of(raw_view(kept@)),
            rows@.len() == 0 ==> kept@.len() == 0 && ages@.len() == 0,
            forall|i: int| 0 <= i < kept@.len() ==> (#[trigger] kept@[i]@).len() >= 8,
        decreases rows@.len() - idx,
    {
        let row = &rows[idx];
        let ghost data = raw.skip(1);
        let ghost rv = string_row_view(row@);
        proof {
            assert(raw[idx as int] == rv);
            assert(data[idx - 1] == rv);
            assert(data.take(idx as int) =~= data.take(idx - 1).push(rv));
            Seq::lemma_filter_push(data.take(idx - 1), rv, keep_pred);
        }
        if row.len() >= 8 {
            // clean every field of the row
            let mut cr: Vec<String> = Vec::new();
            let mut j: usize = 0;
            while j < row.len()
                invariant
                    0 <= j <= row@.len(),
                    cr@.len() == j,
                    forall|p: int|
                        0 <= p < j ==> (#[trigger] cr@[p]@) == clean_field_spec(row@[p]@),
                decreases row@.len() - j,
            {
                cr.push(clean_field(row[j].as_str()));
                j += 1;
            }
            proof {
                assert(string_row_view(cr@) =~= clean_row(rv));
            }
            let ghost kept_before = raw_view(kept@);
            let aged: Option<i64> = parse_fixed(cr[4].as_str());
            kept.push(cr);
            proof {
                assert(raw_view(kept@) =~= kept_before.push(clean_row(rv)));
                assert(raw_view(kept@) =~= data.take(idx as int).filter(keep_pred).map_values(
                    cleaner,
                ));
                // the age list of the grown row set
                let prev_fields = kept_before.map_values(age_pick);
                let new_fields = raw_view(kept@).map_values(age_pick);
                assert(new_fields =~= prev_fields.push(clean_row(rv)[4]));
                Seq::lemma_filter_push(prev_fields, clean_row(rv)[4], age_ok);
                if spec_parseable(clean_row(rv)[4]) {
                    assert(new_fields.filter(age_ok).map_values(age_val) =~= prev_fields.filter(
                        age_ok,
                    ).map_values(age_val).push(age_val(clean_row(rv)[4])));
                } else {
                    assert(new_fields.filter(age_ok).map_values(age_val) =~= prev_fields.filter(
                        age_ok,
                    ).map_values(age_val));
                }
            }
            match aged {
                Option::Some(v) => {
                    ages.push(v);
                },
                Option::None => {},
            }
        } else {
            proof {
                assert(!keep_pred(rv));
                assert(data.take(idx as int).filter(keep_pred) =~= data.take(idx - 1).filter(
                    keep_pred,
                ));
            }
        }
        idx += 1;
    }
    proof {
        if rows@.len() > 0 {
            assert(raw.skip(1).take(rows@.len() - 1) =~= raw.skip(1));
            assert(raw_view(kept@) =~= usable_rows(raw));
        } else {
            assert(raw_view(kept@) =~= usable_rows(raw));
        }
    }
    if kept.len() == 0 {
        return Err(IngestError);
    }
    let med = median_or(&ages, DEFAULT_AGE);
    let ghost us = usable_rows(raw);
    let mut features: Vec<Vec<i64>> = Vec::new();
    let mut labels: Vec<i64> = Vec::new();
    let mut i: usize = 0;
    while i < kept.len()
        invariant
            0 <= i <= kept@.len(),
            us =~= raw_view(kept@),
            forall|p: int| 0 <= p < kept@.len() ==> (#[trigger] kept@[p]@).len() >= 8,
            features@.map_values(|r: Vec<i64>| r@) =~= us.take(i as int).map_values(
                |r: Seq<Seq<char>>| spec_feature_row(r, med),
            ),
            labels@ =~= us.take(i as int).map_values(|r: Seq<Seq<char>>| spec_label(r)),
            features@.len() == labels@.len(),
            forall|p: int| 0 <= p < features@.len() ==> (#[trigger] features@[p]@).len() == 7,
        decreases kept@.len() - i,
    {
        let cr = &kept[i];
        let ghost crow = us[i as int];
        proof {
            assert(crow == string_row_view(cr@));
            assert(crow[0] == cr@[0]@ && crow[1] == cr@[1]@ && crow[3] == cr@[3]@ && crow[4]
                == cr@[4]@ && crow[5] == cr@[5]@ && crow[6] == cr@[6]@ && crow[7] == cr@[7]@);
        }
        let label = parse_fixed_or(cr[0].as_str(), 0);
        let class = parse_fixed_or(cr[1].as_str(), 3 * MICROS);
        let sex: i64 = if contains_male(cr[3].as_str()) {
            0
        } else {
            MICROS
        };
        let age = parse_fixed_or(cr[4].as_str(), med);
        let fare = parse_fixed_or(cr[5].as_str(), 0);
        proof {
            crate::parse::lemma_parse_fixed_or_bound(crow[6], 0);
            crate::parse::lemma_parse_fixed_or_bound(crow[7], 0);
        }
        let sibsp = parse_fixed_or(cr[6].as_str(), 0);
        let parch = parse_fixed_or(cr[7].as_str(), 0);
        let family = sibsp + parch + MICROS;
        let mut fv: Vec<i64> = Vec::new();
        fv.push(class);
        fv.push(sex);
        fv.push(age);
        fv.push(fare);
        fv.push(sibsp);
        fv.push(parch);
        fv.push(family);
        proof {
            assert(fv@ =~= spec_feature_row(crow, med));
            assert(us.take(i + 1) =~= us.take(i as int).push(crow));
        }
        let ghost old_features = features@;
        features.push(fv);
        labels.push(label);
        proof {
            let fmap = features@.map_values(|r: Vec<i64>| r@);
            let smap = us.take(i + 1).map_values(|r: Seq<Seq<char>>| spec_feature_row(r, med));
            assert(fmap.len() == smap.len());
            assert forall|p: int| 0 <= p < fmap.len() implies fmap[p] == smap[p] by {
                if p < i {
                    assert(features@[p] == old_features[p]);
                    assert(us.take(i + 1)[p] == us.take(i as int)[p]);
                    assert(old_features.map_values(|r: Vec<i64>| r@)[p] == us.take(
                        i as int,
                    ).map_values(|r: Seq<Seq<char>>| spec_feature_row(r, med))[p]);
                } else {
                    assert(features@[p] == fv);
                    assert(us.take(i + 1)[p] == crow);
                }
            }
            assert(fmap =~= smap);
            assert(labels@ =~= us.take(i + 1).map_values(|r: Seq<Seq<char>>| spec_label(r)));
        }
        i += 1;
    }
    proof {
        assert(us.take(us.len() as int) =~= us);
    }
    let ds = DataSet { features, labels };
    proof {
        assert(ds.rows() == us.map_values(|r: Seq<Seq<char>>| spec_feature_row(r, med)));
        assert(med == spec_imputed_age(raw));
    }
    Ok(ds)
}

} // verus!
