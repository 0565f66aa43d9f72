//! The decaf377 prime-order group, built by the Decaf quotient of a twisted
//! Edwards curve over the scalar field of BLS12-377.
//!
//! - `limbs`: fixed-width integers in 64-bit limbs and their byte forms.
//! - `mont`: arithmetic modulo an odd modulus, with Montgomery multiplication.
//! - `fp`, `fr`, `fq`: the 377-bit field, the field of scalars of the group
//!   and the base field of the curve, in Montgomery form.
//! - `invsqrt`: square roots of ratios, with a fixed non-square `zeta`.
//! - `encoding`: group elements, their Decaf encoding and decoding, and the
//!   Elligator map.
//! - `group`: addition, doubling, negation and scalar multiplication.
pub mod limbs;
pub mod mont;
pub mod fp;
pub mod fr;
pub mod fq;
pub mod invsqrt;
pub mod encoding;
pub mod group;
