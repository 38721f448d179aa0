//! Knuth-Bendix completion over a first-order term algebra: a term model,
//! the Knuth-Bendix order, matching and unification, rewriting to normal
//! forms, critical-pair deduction, and the completion fixpoint loop.

pub mod deduce;
pub mod lang;
pub mod order;
pub mod parse;
pub mod pat;
pub mod pos;
pub mod rename;
pub mod simplify;
pub mod state;
pub mod symbol;
pub mod unify;
