//! The derivations, and the arithmetic and the texts that they rest on.

pub mod calculator;
pub mod estimator;
pub mod formatter;
pub mod history;
pub mod label;
pub mod movement;
pub mod scrub;
pub mod text;
