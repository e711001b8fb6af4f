//! Balancing of chemical equations: a formula parser that turns text such as
//! `Mg(OH)2` into element counts, and an integer solver that finds the smallest
//! positive coefficients that balance a reaction.
pub mod chemical;
pub mod display;
pub mod divisibility;
pub mod equation;
pub mod reaction;
