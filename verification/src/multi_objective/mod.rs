//! Primitives for multi-objective optimization.
//!
//! Loss rows hold one number per objective, smaller being better. A row with a NaN in
//! it is worse than every row without one.

pub mod nds;
pub mod split;
pub mod hssp;
pub mod hypervolume;
pub mod selection;
pub mod approximation;
