use survival_pipeline::dataset::DataSet;
use survival_pipeline::ensemble::TreeEnsemble;
use survival_pipeline::evaluator::{accuracy_score, LengthMismatchError};
use survival_pipeline::ingest::{ingest, IngestError, DEFAULT_AGE};
use survival_pipeline::parse::MICROS;
use survival_pipeline::service::passenger_features;
use survival_pipeline::split::train_test_split;
use survival_pipeline::stats::{median_or, sort_values};
use survival_pipeline::stump::DecisionStump;

fn row(fields: &[&str]) -> Vec<String> {
    fields.iter().map(|f| f.to_string()).collect()
}

fn sample_rows() -> Vec<Vec<String>> {
    vec![
        row(&["survived", "pclass", "name", "sex", "age", "fare", "sibsp", "parch"]),
        row(&["0", "3", "Braund Mr. Owen", "male", "22", "7.25", "1", "0"]),
        row(&["1", "1", "Cumings Mrs. John", "female", "38", "71.2833", "1", "0"]),
        row(&["1", "3", "Heikkinen Miss Laina", "female", "", "7.925", "0", "0"]),
        row(&["1", "1", "Futrelle Mrs. Jacques", "female", "35", "53.1", "1", "0"]),
    ]
}

#[test]
fn ingest_builds_paired_rows_of_width_seven() {
    let ds = ingest(&sample_rows()).unwrap();
    assert_eq!(ds.features.len(), ds.labels.len());
    assert_eq!(ds.features.len(), 4);
    for r in &ds.features {
        assert_eq!(r.len(), 7);
    }
}

#[test]
fn ingest_parses_fields_with_documented_defaults() {
    let ds = ingest(&sample_rows()).unwrap();
    assert_eq!(ds.labels, vec![0, MICROS, MICROS, MICROS]);
    // class, sex, age, fare, sibsp, parch, family_size
    assert_eq!(
        ds.features[0],
        vec![3 * MICROS, 0, 22 * MICROS, 7_250_000, MICROS, 0, 2 * MICROS]
    );
    // "female" holds "male" as a substring, so the documented policy
    // codes it as male (zero) too
    assert_eq!(
        ds.features[1],
        vec![MICROS, 0, 38 * MICROS, 71_283_300, MICROS, 0, 2 * MICROS]
    );
}

#[test]
fn ingest_imputes_missing_age_with_the_upper_median() {
    // ages present: 22, 38, 35; sorted [22, 35, 38]; upper median is 35
    let ds = ingest(&sample_rows()).unwrap();
    assert_eq!(ds.features[2][2], 35 * MICROS);
}

#[test]
fn ingest_skips_short_rows_and_quoted_fields_are_cleaned() {
    let mut rows = sample_rows();
    rows.push(row(&["0", "3"])); // malformed: fewer than 8 fields
    rows.push(row(&["\"1\"", " 2 ", "Quoted Name", "\"male\"", "\"40\"", " 10.5 ", "0", "0"]));
    let ds = ingest(&rows).unwrap();
    assert_eq!(ds.features.len(), 5);
    assert_eq!(ds.labels[4], MICROS);
    assert_eq!(ds.features[4], vec![2 * MICROS, 0, 40 * MICROS, 10_500_000, 0, 0, MICROS]);
}

#[test]
fn ingest_defaults_unreadable_class_and_label() {
    let rows = vec![
        row(&["survived", "pclass", "name", "sex", "age", "fare", "sibsp", "parch"]),
        row(&["oops", "bad", "Name", "unknown", "50", "", "", "zz"]),
        row(&["1", "2", "Name", "male", "30", "1", "1", "1"]),
    ];
    let ds = ingest(&rows).unwrap();
    assert_eq!(ds.labels[0], 0); // unreadable label falls to zero
    assert_eq!(ds.features[0][0], 3 * MICROS); // unreadable class falls to third
    assert_eq!(ds.features[0][1], MICROS); // not "male" means female code
    assert_eq!(ds.features[0][3], 0); // empty fare
    assert_eq!(ds.features[0][6], MICROS); // family of defaults: 0 + 0 + 1
}

#[test]
fn ingest_fails_only_when_nothing_usable_remains() {
    let empty: Vec<Vec<String>> = Vec::new();
    assert_eq!(ingest(&empty).unwrap_err(), IngestError);
    let header_only = vec![row(&["survived", "pclass", "name", "sex", "age", "fare", "sibsp", "parch"])];
    assert_eq!(ingest(&header_only).unwrap_err(), IngestError);
    let all_short = vec![
        row(&["survived", "pclass", "name", "sex", "age", "fare", "sibsp", "parch"]),
        row(&["1", "2"]),
    ];
    assert_eq!(ingest(&all_short).unwrap_err(), IngestError);
}

#[test]
fn median_takes_the_upper_middle() {
    assert_eq!(
        median_or(&vec![22 * MICROS, 38 * MICROS, 35 * MICROS], DEFAULT_AGE),
        35 * MICROS
    );
    assert_eq!(median_or(&vec![4, 1, 3, 2], 0), 3); // even count: index 2 of [1,2,3,4]
    assert_eq!(median_or(&vec![], DEFAULT_AGE), DEFAULT_AGE);
}

#[test]
fn sort_values_orders_ascending() {
    assert_eq!(sort_values(&vec![3, 1, 2, 1]), vec![1, 1, 2, 3]);
    assert_eq!(sort_values(&vec![]), Vec::<i64>::new());
}

fn tiny_dataset(n: usize) -> DataSet {
    let mut features = Vec::new();
    let mut labels = Vec::new();
    for i in 0..n {
        features.push(vec![i as i64, 0, 0, 0, 0, 0, MICROS]);
        labels.push(if i % 2 == 0 { 0 } else { MICROS });
    }
    DataSet { features, labels }
}

#[test]
fn split_of_ten_rows_at_three_tenths_takes_the_first_three() {
    let ds = tiny_dataset(10);
    let (train, test) = train_test_split(&ds, 3, 10);
    assert_eq!(test.features.len(), 3);
    assert_eq!(train.features.len(), 7);
    // the deterministic selection takes indices 0, 1, 2
    for i in 0..3 {
        assert_eq!(test.features[i], ds.features[i]);
        assert_eq!(test.labels[i], ds.labels[i]);
    }
    // the remaining indices keep their order, and the parts rebuild the input
    for i in 0..7 {
        assert_eq!(train.features[i], ds.features[i + 3]);
        assert_eq!(train.labels[i], ds.labels[i + 3]);
    }
}

#[test]
fn split_of_nothing_yields_two_empty_sets() {
    let ds = tiny_dataset(0);
    let (train, test) = train_test_split(&ds, 3, 10);
    assert_eq!(train.features.len(), 0);
    assert_eq!(test.features.len(), 0);
}

#[test]
fn stump_separates_a_clean_two_value_column() {
    // ten rows so that threshold sampling is live: five ones, five fives
    let x: Vec<Vec<i64>> = (0..10)
        .map(|i| vec![if i < 5 { MICROS } else { 5 * MICROS }])
        .collect();
    let y: Vec<i64> = (0..10).map(|i| if i < 5 { 0 } else { MICROS }).collect();
    let s = DecisionStump::train(&x, &y);
    assert_eq!(
        s,
        DecisionStump {
            feature_index: 0,
            threshold: MICROS,
            left_label: 0,
            right_label: MICROS,
        }
    );
    assert_eq!(s.predict(&vec![MICROS]), 0);
    assert_eq!(s.predict(&vec![3 * MICROS]), MICROS);
}

#[test]
fn stump_on_fewer_than_ten_rows_degenerates() {
    // with six rows the sampling step is zero, so every column is skipped
    let x: Vec<Vec<i64>> = (0..6)
        .map(|i| vec![if i < 3 { MICROS } else { 5 * MICROS }])
        .collect();
    let y: Vec<i64> = (0..6).map(|i| if i < 3 { 0 } else { MICROS }).collect();
    let s = DecisionStump::train(&x, &y);
    assert_eq!(
        s,
        DecisionStump { feature_index: 0, threshold: 0, left_label: 0, right_label: 0 }
    );
}

#[test]
fn stump_predict_guards_the_empty_vector() {
    let s = DecisionStump { feature_index: 0, threshold: 0, left_label: MICROS, right_label: 0 };
    assert_eq!(s.predict(&Vec::new()), 0);
}

fn separable_matrix() -> (Vec<Vec<i64>>, Vec<i64>) {
    // feature 2 separates; every other column is constant
    let x: Vec<Vec<i64>> = (0..10)
        .map(|i| vec![MICROS, 0, if i < 5 { MICROS } else { 5 * MICROS }, 0, 0, 0, MICROS])
        .collect();
    let y: Vec<i64> = (0..10).map(|i| if i < 5 { 0 } else { MICROS }).collect();
    (x, y)
}

#[test]
fn ensemble_trains_identical_stumps_and_votes() {
    let (x, y) = separable_matrix();
    let mut forest = TreeEnsemble::new(3);
    forest.fit(&x, &y);
    assert_eq!(forest.trees.len(), 3);
    assert_eq!(forest.trees[0], forest.trees[1]);
    assert_eq!(forest.trees[1], forest.trees[2]);
    let probe = vec![
        vec![MICROS, 0, MICROS, 0, 0, 0, MICROS],
        vec![MICROS, 0, 9 * MICROS, 0, 0, 0, MICROS],
    ];
    assert_eq!(forest.predict(&probe), vec![0, MICROS]);
    assert_eq!(forest.predict_proba(&probe), vec![0, MICROS]);
}

#[test]
fn ensemble_predictions_repeat_identically() {
    let (x, y) = separable_matrix();
    let mut forest = TreeEnsemble::new(5);
    forest.fit(&x, &y);
    let probe = vec![vec![MICROS, 0, 2 * MICROS, 0, 0, 0, MICROS]];
    let first = forest.predict(&probe);
    let second = forest.predict(&probe);
    assert_eq!(first, second);
    let p1 = forest.predict_proba(&probe);
    let p2 = forest.predict_proba(&probe);
    assert_eq!(p1, p2);
}

#[test]
fn untrained_ensemble_answers_zero() {
    let forest = TreeEnsemble::new(4);
    let probe = vec![vec![0, 0, 0, 0, 0, 0, 0]];
    assert_eq!(forest.predict(&probe), vec![0]);
    assert_eq!(forest.predict_proba(&probe), vec![0]);
}

#[test]
fn accuracy_matches_three_of_four() {
    let truth = vec![MICROS, 0, MICROS, MICROS];
    let pred = vec![MICROS, 0, 0, MICROS];
    assert_eq!(accuracy_score(&truth, &pred), Ok(750_000));
}

#[test]
fn accuracy_of_empty_sequences_is_zero() {
    assert_eq!(accuracy_score(&vec![], &vec![]), Ok(0));
    assert_eq!(accuracy_score(&vec![MICROS], &vec![]), Ok(0));
    assert_eq!(accuracy_score(&vec![], &vec![MICROS]), Ok(0));
}

#[test]
fn accuracy_rejects_a_length_mismatch() {
    assert_eq!(
        accuracy_score(&vec![MICROS, 0], &vec![MICROS]),
        Err(LengthMismatchError)
    );
}

#[test]
fn passenger_features_builds_the_schema_row() {
    let fv = passenger_features(2 * MICROS, true, 30 * MICROS, 10 * MICROS, MICROS, 0).unwrap();
    assert_eq!(fv, vec![2 * MICROS, 0, 30 * MICROS, 10 * MICROS, MICROS, 0, 2 * MICROS]);
    let fv2 = passenger_features(MICROS, false, 0, 0, 0, 0).unwrap();
    assert_eq!(fv2[1], MICROS);
}

#[test]
fn passenger_features_rejects_a_class_out_of_range() {
    assert!(passenger_features(4 * MICROS, true, 0, 0, 0, 0).is_none());
    assert!(passenger_features(0, true, 0, 0, 0, 0).is_none());
    assert!(passenger_features(-MICROS, false, 0, 0, 0, 0).is_none());
}

#[test]
fn whole_pipeline_runs_end_to_end() {
    let ds = ingest(&sample_rows()).unwrap();
    let (train, test) = train_test_split(&ds, 1, 4);
    assert_eq!(test.features.len(), 1);
    assert_eq!(train.features.len(), 3);
    let acc = accuracy_score(&test.labels, &test.labels).unwrap();
    assert_eq!(acc, MICROS);
}

#[test]
fn stump_with_no_two_sided_split_degenerates() {
    // one constant column: every sampled threshold leaves the right side empty
    let x: Vec<Vec<i64>> = (0..10).map(|_| vec![7 * MICROS]).collect();
    let y: Vec<i64> = (0..10).map(|i| if i < 5 { 0 } else { MICROS }).collect();
    let s = DecisionStump::train(&x, &y);
    assert_eq!(
        s,
        DecisionStump { feature_index: 0, threshold: 0, left_label: 0, right_label: 0 }
    );
}

#[test]
fn split_at_the_ratio_edges() {
    let ds = tiny_dataset(4);
    let (train_all, test_none) = train_test_split(&ds, 0, 1);
    assert_eq!(train_all.features.len(), 4);
    assert_eq!(test_none.features.len(), 0);
    let (train_none, test_all) = train_test_split(&ds, 1, 1);
    assert_eq!(train_none.features.len(), 0);
    assert_eq!(test_all.features.len(), 4);
}

#[test]
fn accuracy_truncates_toward_zero() {
    let truth = vec![MICROS, MICROS, MICROS];
    let pred = vec![MICROS, 0, 0];
    assert_eq!(accuracy_score(&truth, &pred), Ok(333_333));
}

#[test]
fn ensemble_splits_the_vote_at_exactly_half() {
    // two stumps built by hand that disagree on everything
    let always_one = DecisionStump {
        feature_index: 0,
        threshold: i64::MAX,
        left_label: MICROS,
        right_label: MICROS,
    };
    let always_zero = DecisionStump {
        feature_index: 0,
        threshold: i64::MAX,
        left_label: 0,
        right_label: 0,
    };
    let forest = TreeEnsemble { n_trees: 2, trees: vec![always_one, always_zero] };
    let probe = vec![vec![0, 0, 0, 0, 0, 0, 0]];
    // one vote of two is exactly half, which the majority rule counts as one
    assert_eq!(forest.predict(&probe), vec![MICROS]);
    assert_eq!(forest.predict_proba(&probe), vec![500_000]);
}

#[test]
fn median_of_one_and_two_values() {
    assert_eq!(median_or(&vec![5], 0), 5);
    assert_eq!(median_or(&vec![9, 2], 0), 9); // index 1 of [2, 9]
}
