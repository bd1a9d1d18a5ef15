//! Arithmetic of the Ed448-Goldilocks elliptic-curve group: the field of
//! integers modulo p = 2^448 - 2^224 - 1, the scalars modulo the group
//! order, points of the curve x^2 + y^2 = 1 - 39081 x^2 y^2 in affine,
//! extended and precomputed form, and multiplication of a point by a scalar.
//!
//! Field elements and scalars are held as least residues, so that equal
//! residues are equal values; points are compared by cross-multiplication.
//! Nothing here fails but decoding: a field element is decoded from any 56
//! bytes, a number not below p standing for its residue; a point is decoded
//! from 224 bytes only if the coordinates are those of a point of the
//! curve; a text is decoded only if it is base64 of 56 bytes.
//!
//! Choices that depend on values are made by masking, not by branching:
//! the sequence of operations of the arithmetic, of the table look-up and
//! of the scalar multiplication is the same for all operands.

pub mod curve;
