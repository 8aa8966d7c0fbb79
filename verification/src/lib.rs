//! A discrete (histogram) Bayes filter core.
//!
//! Belief over a discretized state space is an N-dimensional array of
//! non-negative masses, held exactly: every cell is the rational
//! `num[i] / den` for a numerator vector and one shared denominator.
//! The filter offers a predict phase (boundary-aware translation along the
//! trailing axis followed by convolution with a motion kernel) and an update
//! phase (elementwise Bayesian fusion with a likelihood, then
//! renormalization). All arithmetic on masses is exact, so conservation and
//! normalization results hold as equalities, not within a tolerance.

pub mod bayes;
pub mod conv;
pub mod dist;
pub mod ghk;
pub mod sums;
pub mod translate;
