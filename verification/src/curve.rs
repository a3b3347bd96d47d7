//! From the short Weierstrass form `y^2 = x^3 + a x + b` to the Montgomery form
//! `B y^2 = x^3 + A x^2 + x` of a curve over the field of `p` elements.

use crate::cubic::{
    cubic, find_cubic_root, first_cubic_root, is_first_cubic_root, lemma_first_cubic_root,
};
use crate::modular::{
    add_mod, field_inverse, first_square_root, is_first_square_root, is_inverse,
    lemma_field_inverse, lemma_first_square_root, modular_inverse, modular_sqrt, mul_mod,
};
use crate::number_theory::congruent;
use vstd::arithmetic::div_mod::{
    lemma_add_mod_noop_right, lemma_mod_bound, lemma_mul_mod_noop_general, lemma_small_mod,
};
use vstd::prelude::*;

verus! {

/// Why a curve has no Montgomery form by this construction.
#[derive(Debug, Clone, Copy, PartialEq, Eq, Structural)]
pub enum ConversionFailure {
    /// The cubic `z^3 + a z + b` has no root in the field.
    NoCubicRoot,
    /// The cubic has a root `z0`, but `3 z0^2 + a` is not a square in the field.
    NonResidueTerm,
    /// `3 z0^2 + a` is a square, but its least square root has no inverse.
    NonInvertibleRoot,
}

/// The slope term `3 z0^2 + a` of the curve at its point `(z0, 0)`, as a field
/// element.
pub open spec fn slope_term(z0: int, a: int, p: int) -> int {
    (3 * z0 * z0 + a) % p
}

/// The Montgomery parameters `(A, B)` of `y^2 = x^3 + a x + b` over the field of
/// `p` elements, or the step of the construction that has no solution.
///
/// With `z0` the least root of `z^3 + a z + b` and `s` the inverse of the least
/// square root of `3 z0^2 + a`, the parameters are `A = 3 z0 s mod p` and
/// `B = s`.
pub open spec fn conversion(a: int, b: int, p: int) -> Result<(int, int), ConversionFailure> {
    match first_cubic_root(a, b, p) {
        None => Err(ConversionFailure::NoCubicRoot),
        Some(z0) => match first_square_root(slope_term(z0, a, p), p) {
            None => Err(ConversionFailure::NonResidueTerm),
            Some(root) => match field_inverse(root, p) {
                None => Err(ConversionFailure::NonInvertibleRoot),
                Some(s) => Ok(((3 * z0 * s) % p, s)),
            },
        },
    }
}

/// `outcome` is the conversion of `y^2 = x^3 + a x + b` over the field of `p`
/// elements.
pub open spec fn is_conversion_outcome(
    outcome: Result<(i64, i64), ConversionFailure>,
    a: int,
    b: int,
    p: int,
) -> bool {
    match outcome {
        Ok(m) => conversion(a, b, p) == Ok::<(int, int), ConversionFailure>(
            (m.0 as int, m.1 as int),
        ),
        Err(failure) => conversion(a, b, p) == Err::<(int, int), ConversionFailure>(failure),
    }
}

/// `parameters` are the Montgomery parameters of `y^2 = x^3 + a x + b` over the
/// field of `p` elements, or `None` where the conversion fails.
pub open spec fn is_montgomery_parameters(
    parameters: Option<(i64, i64)>,
    a: int,
    b: int,
    p: int,
) -> bool {
    match parameters {
        Some(m) => is_conversion_outcome(Ok(m), a, b, p),
        None => conversion(a, b, p) is Err,
    }
}

/// From the least root `z0` of the cubic, the least square root `root` of the
/// slope term at `z0` and the inverse `s` of `root`, the conversion yields
/// `A = 3 z0 s mod p` and `B = s`.
pub proof fn lemma_conversion_steps(a: int, b: int, p: int, z0: int, root: int, s: int)
    requires
        is_first_cubic_root(z0, a, b, p),
        is_first_square_root(root, slope_term(z0, a, p), p),
        is_inverse(s, root, p),
    ensures
        conversion(a, b, p) == Ok::<(int, int), ConversionFailure>(((3 * z0 * s) % p, s)),
{
    lemma_first_cubic_root(a, b, p);
    lemma_first_square_root(slope_term(z0, a, p), p);
    lemma_field_inverse(root, p);
}

/// `(x, y)` satisfies `y^2 = x^3 + a x + b` in the field of `p` elements.
pub open spec fn on_weierstrass_curve(x: int, y: int, a: int, b: int, p: int) -> bool {
    congruent(y * y, cubic(x, a, b), p)
}

/// A conversion that succeeds over a field of more than one element took a
/// point `(z0, 0)` of the curve for its origin, and yields two field elements
/// `A` and `B` of which `B` is not zero.
pub proof fn lemma_conversion_valid(a: int, b: int, p: int)
    requires
        conversion(a, b, p) is Ok,
        p != 1,
    ensures
        first_cubic_root(a, b, p) matches Some(z0) && on_weierstrass_curve(z0, 0, a, b, p),
        conversion(a, b, p) matches Ok(m) && 0 <= m.0 < p && 0 <= m.1 < p && m.1 % p != 0,
{
    lemma_first_cubic_root(a, b, p);
    let z0 = first_cubic_root(a, b, p)->Some_0;
    let root = first_square_root(slope_term(z0, a, p), p)->Some_0;
    lemma_field_inverse(root, p);
    let s = field_inverse(root, p)->Some_0;
    lemma_small_mod(0, p as nat);
    lemma_small_mod(1, p as nat);
    lemma_small_mod(s as nat, p as nat);
    lemma_mod_bound(3 * z0 * s, p);
    assert(root * 0 == 0);
}

/// The outcome of a conversion is a function of the curve and the field: two
/// outcomes for the same `a`, `b` and `p` are equal.
pub proof fn lemma_outcome_deterministic(
    first: Result<(i64, i64), ConversionFailure>,
    second: Result<(i64, i64), ConversionFailure>,
    a: int,
    b: int,
    p: int,
)
    requires
        is_conversion_outcome(first, a, b, p),
        is_conversion_outcome(second, a, b, p),
    ensures
        first == second,
{
}

/// The parameters that a conversion yields are a function of the curve and the
/// field: two results for the same `a`, `b` and `p` are equal.
pub proof fn lemma_parameters_deterministic(
    first: Option<(i64, i64)>,
    second: Option<(i64, i64)>,
    a: int,
    b: int,
    p: int,
)
    requires
        is_montgomery_parameters(first, a, b, p),
        is_montgomery_parameters(second, a, b, p),
    ensures
        first == second,
{
}

/// The Montgomery parameters `(A, B)` of `y^2 = x^3 + a x + b` over the field of
/// `p` elements, or the reason why there are none.
///
/// Every search takes the first solution in increasing order and none is tried
/// again after a later step has failed.
pub fn convert(a: i64, b: i64, p: i64) -> (outcome: Result<(i64, i64), ConversionFailure>)
    ensures
        is_conversion_outcome(outcome, a as int, b as int, p as int),
{
    proof {
        lemma_first_cubic_root(a as int, b as int, p as int);
    }
    let z0: i64 = match find_cubic_root(a, b, p) {
        Some(z) => z,
        None => {
            return Err(ConversionFailure::NoCubicRoot);
        },
    };
    let term: i64 = add_mod(mul_mod(3, mul_mod(z0, z0, p), p), a, p);
    proof {
        lemma_mul_mod_noop_general(3, z0 * z0, p as int);
        lemma_add_mod_noop_right(a as int, 3 * (z0 * z0), p as int);
        assert(3 * (z0 * z0) == 3 * z0 * z0) by (nonlinear_arith);
        lemma_first_square_root(term as int, p as int);
    }
    let sqrt_term: i64 = match modular_sqrt(term, p) {
        Some(i) => i,
        None => {
            return Err(ConversionFailure::NonResidueTerm);
        },
    };
    proof {
        lemma_field_inverse(sqrt_term as int, p as int);
    }
    let s: i64 = match modular_inverse(sqrt_term, p) {
        Some(x) => x,
        None => {
            return Err(ConversionFailure::NonInvertibleRoot);
        },
    };
    let a_montgomery: i64 = mul_mod(3, mul_mod(z0, s, p), p);
    let b_montgomery: i64 = s;
    proof {
        lemma_mul_mod_noop_general(3, z0 * s, p as int);
        assert(3 * (z0 * s) == 3 * z0 * s) by (nonlinear_arith);
    }
    Ok((a_montgomery, b_montgomery))
}

/// The Montgomery parameters `(A, B)` of `y^2 = x^3 + a x + b` over the field of
/// `p` elements, where the construction yields them.
pub fn short_weierstrass_to_montgomery(a: i64, b: i64, p: i64) -> (parameters: Option<(i64, i64)>)
    ensures
        is_montgomery_parameters(parameters, a as int, b as int, p as int),
{
    match convert(a, b, p) {
        Ok(m) => Some(m),
        Err(_) => None,
    }
}

} // verus!
