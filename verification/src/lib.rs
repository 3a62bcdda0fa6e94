//! A single-input, multi-output fuzzy inference engine.
//!
//! Scalar values are carried in fixed-point form ([`fixed::Fixed`], counting
//! millionths of a unit), so every computation here is exact integer
//! arithmetic and fully verified: piecewise-linear membership curves
//! ([`fuzzy::FuzzySet`]), rules pairing an antecedent category with weighted
//! consequences ([`fuzzy::FuzzyRule`]), and strength-weighted averaging of
//! rule consequences ([`fuzzy::FuzzySystem::evaluate`]).

pub mod fixed;
pub mod fuzzy;
pub mod version;
