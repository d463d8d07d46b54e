//! A verified code breaker for the six-digit guessing game: codes and
//! their canonical numerals, the duplicate-aware feedback scorer, a
//! possibility-count estimator, and the candidate-elimination engine
//! that deduces a secret from truthful round-trip feedback.

pub mod code;
pub mod scorer;
pub mod estimator;
pub mod engine;

pub use crate::code::{code_to_numeral, digit_to_value, numeral_to_code, value_to_digit};
pub use crate::code::{Code, Digit};
pub use crate::engine::{all_codes, break_code, filter_candidates, select_guess};
pub use crate::estimator::possibilities;
pub use crate::scorer::check;
