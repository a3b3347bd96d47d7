//! Divisibility and congruence over the mathematical integers.

use vstd::arithmetic::div_mod::{
    lemma_add_mod_noop, lemma_fundamental_div_mod, lemma_mod_multiples_basic,
    lemma_mul_mod_noop_right, lemma_small_mod,
};
use vstd::prelude::*;

verus! {

/// `d` divides `n`: the division of `n` by the positive `d` leaves no remainder.
pub open spec fn divides(d: int, n: int) -> bool {
    d > 0 && n % d == 0
}

/// `x` and `y` are congruent modulo `p`: they leave the same remainder.
pub open spec fn congruent(x: int, y: int, p: int) -> bool {
    x % p == y % p
}

/// `a` and `p` have no common divisor but 1, that is `gcd(a, p) = 1`.
pub open spec fn coprime(a: int, p: int) -> bool {
    forall|d: int| #[trigger] divides(d, a) && divides(d, p) ==> d == 1
}

/// A divisor of `x` and of `y` divides `x + k * y`.
pub proof fn lemma_divides_combination(d: int, x: int, y: int, k: int)
    requires
        divides(d, x),
        divides(d, y),
    ensures
        divides(d, x + k * y),
{
    lemma_mul_mod_noop_right(k, y, d);
    assert(k * (y % d) == 0) by (nonlinear_arith)
        requires
            y % d == 0,
    ;
    lemma_small_mod(0, d as nat);
    lemma_add_mod_noop(x, k * y, d);
}

/// A positive number divides each of its multiples.
pub proof fn lemma_divides_multiple(d: int, k: int)
    requires
        d > 0,
    ensures
        divides(d, k * d),
{
    lemma_mod_multiples_basic(k, d);
}

/// A number and its remainder modulo `p` have the same divisors among the
/// divisors of `p`.
pub proof fn lemma_divides_remainder(d: int, a: int, p: int)
    requires
        p > 0,
        divides(d, p),
    ensures
        divides(d, a) <==> divides(d, a % p),
{
    lemma_fundamental_div_mod(a, p);
    let q = a / p;
    assert(p * q == q * p) by (nonlinear_arith);
    if divides(d, a % p) {
        lemma_divides_combination(d, a % p, p, q);
    }
    if divides(d, a) {
        lemma_divides_combination(d, a, p, -q);
        assert(a + (-q) * p == a % p) by (nonlinear_arith)
            requires
                a == q * p + a % p,
        ;
    }
}

} // verus!
