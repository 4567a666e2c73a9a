//! Arithmetic over a fixed prime field together with a ring of univariate
//! polynomials over that field.

pub mod field;
pub mod univariate;
