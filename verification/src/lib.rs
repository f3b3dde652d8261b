//! # tseries — time series reading and analysis
//!
//! The verified part of the library: reading CSV, JSON and JSONL input into
//! series of timestamped values, and the named choices (formats, methods,
//! aggregations) that the analyses are parameterized by.
use vstd::prelude::*;

pub mod anomaly;
pub mod gapfill;
pub mod literal;
pub mod output;
pub mod reader;
pub mod resample;
pub mod text;
pub mod trend;
