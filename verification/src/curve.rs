//! The curve, its points and the arithmetic beneath them.

pub mod affine;
pub mod closure;
pub mod extended_edwards;
pub mod field;
pub mod group_law;
pub mod projective_niels;
