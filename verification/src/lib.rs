//! Arithmetic core for multilinear extension (MLE) polynomials over the
//! boolean hypercube: indicator ("eq") polynomial evaluation, folding of an
//! evaluation table, full-point evaluation, and conversion between the
//! evaluation-table and monomial-coefficient representations.

pub mod eq;
pub mod poly;
pub mod scalar;
pub mod transform;
