//! A grow-only counter for replicas arranged in tiers, with handoff of
//! pending counts from lower tiers to their ancestors.

pub mod total;
pub mod model;
pub mod keys;
pub mod tokens;
pub mod counter;
pub mod laws;

pub use crate::counter::Counter;
