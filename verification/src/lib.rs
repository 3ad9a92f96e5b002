//! Exact arithmetic over a prime finite field and dense univariate
//! polynomials with coefficients in that field: modular ring operations,
//! the extended Euclidean algorithm, polynomial long division, Lagrange
//! interpolation, zerofier construction and evaluation.

pub mod big;
pub mod algebra;
pub mod univariate;
