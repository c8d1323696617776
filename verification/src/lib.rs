//! Daily price history: decimal coercion, time-series parsing, bar
//! normalisation and a versioned binary archive format.
//!
//! Prices and volumes are IEEE-754 binary64 values. They are carried by their
//! bit patterns, so every rule on them is a rule on unsigned integers.

pub mod bar;
pub mod codec;
pub mod decimal;
pub mod error;
pub mod json;
pub mod normalize;
pub mod parser;
pub mod pipeline;
