//! Montgomery-form parameters of a short Weierstrass curve over a small prime
//! field.
//!
//! A curve `y^2 = x^3 + a x + b` over the field of `p` elements is re-expressed
//! as `B y^2 = x^3 + A x^2 + x`. Every root that the construction needs is found
//! by exhaustive search in increasing order, so the field must be small.
//!
//! * [`modular`] holds the field primitives: inverse and square root.
//! * [`cubic`] finds a root of the cubic `z^3 + a z + b`.
//! * [`curve`] composes them into the conversion.
//! * [`number_theory`] holds the definitions and lemmas that the contracts of
//!   the other modules are stated over.

pub mod number_theory;
pub mod modular;
pub mod cubic;
pub mod curve;
