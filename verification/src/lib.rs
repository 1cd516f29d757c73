//! A linear programming solver: sparse LU factors and the bounded simplex method, over any
//! scalar type that implements [`scalar::Scalar`].
//!
//! The contracts of the executable functions say, operation by operation, what is computed, so
//! they hold of rounding arithmetic too. What the results mean (that a solution solves its
//! system, that a vertex is the best one) is stated for arithmetic that does not round, which
//! [`scalar::exact`] describes and [`rational::Rational`] has.
// numbers
pub mod scalar;
pub mod rational;
pub mod sums;
// sparse vectors and matrices
pub mod outside;
pub mod perm;
pub mod sparse;
pub mod scattered;
pub mod triplets;
pub mod convert;
// factors of a matrix
pub mod error;
pub mod reach;
pub mod elim;
pub mod lu;
pub mod tri;
pub mod sweep;
pub mod solve;
pub mod unique;
pub mod invert;
pub mod singular;
pub mod sparsity;
// the simplex method
pub mod eta;
pub mod basis;
pub mod simplex;
pub mod pricing;
pub mod pivot;
pub mod recalc;
pub mod vars;
pub mod phases;
pub mod edits;
pub mod start;
// what holds of it
pub mod vertex;
pub mod steps;
pub mod optimum;
pub mod first;
pub mod blank;
pub mod fixed;
pub mod renewed;
pub mod handover;
pub mod edited;
pub mod norms;
pub mod feasible;
pub mod drift;
pub mod cuts;
pub mod dual;
pub mod limits;
pub mod regular;
pub mod outcome;
pub mod normed;
pub mod program;
pub mod choices;
pub mod verdicts;
pub mod sturdy;
pub mod calls;
