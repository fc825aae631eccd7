//! Fuzzy subsequence matching and ranking of text candidates against a query.
pub mod scorer;
pub mod ranking;
pub mod skim_score;
pub mod matcher;
