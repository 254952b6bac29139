//! Line classification and fold computation for fixed-column card files.
pub mod card;
pub mod folds;
