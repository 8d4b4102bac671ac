//! A rope: a text held as a binary tree whose leaves keep their fragments
//! within a size band, split on construction and joined back when small.

pub mod rope;

pub use rope::{Rope, JOIN_LENGTH, REBALANCE_RATIO_DENOMINATOR, REBALANCE_RATIO_NUMERATOR, SPLIT_LENGTH};
