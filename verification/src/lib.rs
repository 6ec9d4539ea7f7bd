//! Verified core of an empirical search for the constant in Lang's conjecture
//! on linear forms in two logarithms.
pub mod point;
pub mod frontier;
pub mod natural;
pub mod convergents;
pub mod pending;
pub mod regimes;
pub mod filename;
pub mod prompt;
