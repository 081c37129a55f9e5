//! A verified passenger-survival prediction pipeline: delimited rows are
//! ingested with schema tolerance and median imputation, split into train
//! and test parts, fed to a greedy single-split stump ensemble, and scored
//! by an accuracy evaluator.
//!
//! Every scalar is a fixed-point count of millionths (`parse::MICROS` is
//! one), so parsing, imputation, splitting, stump training and voting are
//! exact integer computations with proven contracts; split candidates are
//! rated by information gain compared exactly as rationals.

pub mod dataset;
pub mod ensemble;
pub mod evaluator;
pub mod ingest;
pub mod parse;
pub mod service;
pub mod split;
pub mod stats;
pub mod stump;
pub mod text;
