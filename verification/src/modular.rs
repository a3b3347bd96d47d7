//! Arithmetic in the field of `p` elements: residues, products and sums of
//! residues, the modular inverse and the modular square root.

use crate::number_theory::{
    congruent, coprime, divides, lemma_divides_combination, lemma_divides_multiple,
    lemma_divides_remainder,
};
use vstd::arithmetic::div_mod::{
    lemma_fundamental_div_mod, lemma_mod_bound, lemma_mod_multiples_vanish,
    lemma_mul_mod_noop_general, lemma_small_mod,
};
use vstd::prelude::*;

verus! {

/// The residue of `a` in `[0, p)`.
pub fn reduce(a: i64, p: i64) -> (r: i64)
    requires
        p > 0,
    ensures
        r == a as int % p as int,
{
    a.checked_rem_euclid(p).unwrap()
}

/// The residue of the product `x * y`, computed in a type wide enough for the
/// product of any two 64-bit integers.
pub fn mul_mod(x: i64, y: i64, p: i64) -> (r: i64)
    requires
        p > 0,
    ensures
        r == (x * y) % p as int,
{
    let wide_x: i128 = x as i128;
    let wide_y: i128 = y as i128;
    assert(-0x4000_0000_0000_0000_0000_0000_0000_0000 <= wide_x * wide_y
        <= 0x4000_0000_0000_0000_0000_0000_0000_0000) by (nonlinear_arith)
        requires
            -0x8000_0000_0000_0000 <= wide_x <= 0x8000_0000_0000_0000,
            -0x8000_0000_0000_0000 <= wide_y <= 0x8000_0000_0000_0000,
    ;
    let product: i128 = wide_x * wide_y;
    let residue: i128 = product.checked_rem_euclid(p as i128).unwrap();
    proof {
        lemma_mod_bound(product as int, p as int);
    }
    residue as i64
}

/// The residue of the sum `x + y`.
pub fn add_mod(x: i64, y: i64, p: i64) -> (r: i64)
    requires
        p > 0,
    ensures
        r == (x + y) % p as int,
{
    let sum: i128 = x as i128 + y as i128;
    let residue: i128 = sum.checked_rem_euclid(p as i128).unwrap();
    proof {
        lemma_mod_bound(sum as int, p as int);
    }
    residue as i64
}

/// `i` is a square root of `a` in the field of `p` elements.
pub open spec fn is_square_root(i: int, a: int, p: int) -> bool {
    0 <= i < p && congruent(i * i, a, p)
}

/// `i` is the least square root of `a` in the field of `p` elements.
pub open spec fn is_first_square_root(i: int, a: int, p: int) -> bool {
    &&& is_square_root(i, a, p)
    &&& forall|j: int| 0 <= j < i ==> !is_square_root(j, a, p)
}

/// The least square root of `a` in the field of `p` elements, where `a` has
/// one.
pub open spec fn first_square_root(a: int, p: int) -> Option<int> {
    if exists|i: int| is_square_root(i, a, p) {
        Some(choose|i: int| is_first_square_root(i, a, p))
    } else {
        None
    }
}

/// Where there is a square root, there is a least one.
proof fn lemma_least_square_root(i: int, a: int, p: int)
    requires
        is_square_root(i, a, p),
    ensures
        exists|k: int| is_first_square_root(k, a, p),
    decreases i,
{
    if exists|j: int| 0 <= j < i && is_square_root(j, a, p) {
        let j = choose|j: int| 0 <= j < i && is_square_root(j, a, p);
        lemma_least_square_root(j, a, p);
    } else {
        assert(is_first_square_root(i, a, p));
    }
}

/// `first_square_root` is the one least square root, and is `None` only of a
/// number without a square root.
pub proof fn lemma_first_square_root(a: int, p: int)
    ensures
        first_square_root(a, p) matches Some(i) ==> is_first_square_root(i, a, p),
        first_square_root(a, p) is None ==> forall|i: int| !is_square_root(i, a, p),
        forall|i: int| is_first_square_root(i, a, p) ==> first_square_root(a, p) == Some(i),
{
    if exists|i: int| is_square_root(i, a, p) {
        let i = choose|i: int| is_square_root(i, a, p);
        lemma_least_square_root(i, a, p);
    }
}

/// The least `i` in `[0, p)` with `i * i` congruent to `a` modulo `p`, found by
/// trying every field element in increasing order; `None` when `a` has no
/// square root in the field, which is so of every `a` when `p <= 0`.
pub fn modular_sqrt(a: i64, p: i64) -> (r: Option<i64>)
    ensures
        r matches Some(i) ==> is_first_square_root(i as int, a as int, p as int),
        r is None ==> forall|i: int| !is_square_root(i, a as int, p as int),
{
    let mut i: i64 = 0;
    while i < p
        invariant
            0 <= i,
            forall|j: int| 0 <= j < i ==> !is_square_root(j, a as int, p as int),
        decreases p - i,
    {
        if mul_mod(i, i, p) == reduce(a, p) {
            return Some(i);
        }
        i = i + 1;
    }
    None
}

/// `x` is the inverse of `a` in the field of `p` elements.
pub open spec fn is_inverse(x: int, a: int, p: int) -> bool {
    0 <= x < p && congruent(a * x, 1, p)
}

/// The inverse of `a` in the field of `p` elements, where `a` has one.
pub open spec fn field_inverse(a: int, p: int) -> Option<int> {
    if exists|x: int| is_inverse(x, a, p) {
        Some(choose|x: int| is_inverse(x, a, p))
    } else {
        None
    }
}

/// Only a number coprime to the modulus has an inverse.
pub proof fn lemma_inverse_coprime(x: int, a: int, p: int)
    requires
        p > 0,
        congruent(a * x, 1, p),
    ensures
        coprime(a, p),
{
    assert forall|d: int| #[trigger] divides(d, a) && divides(d, p) implies d == 1 by {
        if d > 1 {
            lemma_small_mod(1, d as nat);
            lemma_small_mod(1, p as nat);
            lemma_fundamental_div_mod(a * x, p);
            let k = (a * x) / p;
            lemma_divides_combination(d, 0, a, x);
            lemma_divides_combination(d, x * a, p, -k);
            assert(x * a + (-k) * p == 1) by (nonlinear_arith)
                requires
                    a * x == p * k + 1,
            ;
        }
    }
}

/// A number has at most one inverse in the field.
pub proof fn lemma_inverse_unique(x: int, y: int, a: int, p: int)
    requires
        is_inverse(x, a, p),
        is_inverse(y, a, p),
    ensures
        x == y,
{
    if p > 1 {
        lemma_small_mod(1, p as nat);
        lemma_small_mod(x as nat, p as nat);
        lemma_small_mod(y as nat, p as nat);
        lemma_mul_mod_noop_general(x, a * y, p);
        lemma_mul_mod_noop_general(y, a * x, p);
        assert(x * (a * y) == y * (a * x)) by (nonlinear_arith);
    }
}

/// `field_inverse` is the one inverse.
pub proof fn lemma_field_inverse(a: int, p: int)
    ensures
        field_inverse(a, p) matches Some(x) ==> is_inverse(x, a, p),
        field_inverse(a, p) is None ==> forall|x: int| !is_inverse(x, a, p),
        forall|x: int| is_inverse(x, a, p) ==> field_inverse(a, p) == Some(x),
{
    assert forall|x: int| is_inverse(x, a, p) implies field_inverse(a, p) == Some(x) by {
        lemma_inverse_unique(x, field_inverse(a, p)->Some_0, a, p);
    }
}

/// The rows `(s, t, r)` and `(new_s, new_t, new_r)` are two consecutive rows of
/// the extended Euclidean algorithm on `p` and `a`.
///
/// Each row is a combination `s * p + t * a == r`. The cofactors `t` alternate
/// in sign from row to row, and the two cross products recover `p` and `a`
/// from the remainders, which bounds every cofactor by `p` and shows that the
/// last remainder divides both.
spec fn consecutive_rows(
    p: int,
    a: int,
    s: int,
    t: int,
    r: int,
    new_s: int,
    new_t: int,
    new_r: int,
) -> bool {
    &&& 0 <= new_r < r <= p
    &&& -p <= t <= p
    &&& -p <= new_t <= p
    &&& s * p + t * a == r
    &&& new_s * p + new_t * a == new_r
    &&& ((t <= 0 <= new_t && new_t * r - t * new_r == p) || (new_t <= 0 <= t && t * new_r - new_t
        * r == p))
    &&& (new_s * r - s * new_r == a || s * new_r - new_s * r == a)
}

/// One division step takes two consecutive rows to the next two, and nothing
/// that it computes leaves `[-p, p]`.
proof fn lemma_euclid_step(
    p: int,
    a: int,
    s: int,
    t: int,
    r: int,
    new_s: int,
    new_t: int,
    new_r: int,
)
    requires
        consecutive_rows(p, a, s, t, r, new_s, new_t, new_r),
        new_r != 0,
    ensures
        0 <= r / new_r <= r,
        0 <= (r / new_r) * new_r <= r,
        -p <= (r / new_r) * new_t <= p,
        r - (r / new_r) * new_r == r % new_r,
        consecutive_rows(
            p,
            a,
            new_s,
            new_t,
            new_r,
            s - (r / new_r) * new_s,
            t - (r / new_r) * new_t,
            r - (r / new_r) * new_r,
        ),
{
    let q = r / new_r;
    let next_s = s - q * new_s;
    let next_t = t - q * new_t;
    let next_r = r - q * new_r;
    lemma_fundamental_div_mod(r, new_r);
    lemma_mod_bound(r, new_r);
    assert(q * new_r == new_r * q) by (nonlinear_arith);
    assert(next_r == r % new_r);
    assert(0 <= q <= r) by (nonlinear_arith)
        requires
            r == q * new_r + next_r,
            0 <= next_r < new_r,
            0 < new_r < r,
    ;
    assert(next_s * p + next_t * a == next_r) by (nonlinear_arith)
        requires
            s * p + t * a == r,
            new_s * p + new_t * a == new_r,
            next_s == s - q * new_s,
            next_t == t - q * new_t,
            next_r == r - q * new_r,
    ;
    assert(next_s * new_r - new_s * next_r == s * new_r - new_s * r) by (nonlinear_arith)
        requires
            next_s == s - q * new_s,
            next_r == r - q * new_r,
    ;
    assert(new_t * next_r - next_t * new_r == new_t * r - t * new_r) by (nonlinear_arith)
        requires
            next_t == t - q * new_t,
            next_r == r - q * new_r,
    ;
    if t <= 0 <= new_t && new_t * r - t * new_r == p {
        assert(next_t <= 0 && 0 <= q * new_t) by (nonlinear_arith)
            requires
                next_t == t - q * new_t,
                t <= 0 <= new_t,
                0 <= q,
        ;
        assert(-next_t <= p) by (nonlinear_arith)
            requires
                new_t * next_r - next_t * new_r == p,
                0 <= new_t,
                0 <= next_r,
                next_t <= 0,
                1 <= new_r,
        ;
    } else {
        assert(next_t >= 0 && q * new_t <= 0) by (nonlinear_arith)
            requires
                next_t == t - q * new_t,
                new_t <= 0 <= t,
                0 <= q,
        ;
        assert(next_t <= p) by (nonlinear_arith)
            requires
                next_t * new_r - new_t * next_r == p,
                new_t <= 0,
                0 <= next_r,
                0 <= next_t,
                1 <= new_r,
        ;
    }
}

/// The inverse of `a` in the field of `p` elements, by the extended Euclidean
/// algorithm: `Some` exactly when `a` and `p` are coprime, and then the one
/// `x` in `[0, p)` with `a * x` congruent to 1 modulo `p`.
pub fn modular_inverse(a: i64, p: i64) -> (inverse: Option<i64>)
    requires
        p > 0,
    ensures
        inverse is Some <==> coprime(a as int, p as int),
        inverse matches Some(x) ==> is_inverse(x as int, a as int, p as int),
        inverse is None ==> forall|x: int| !is_inverse(x, a as int, p as int),
{
    let residue: i64 = reduce(a, p);
    let mut t: i64 = 0;
    let mut new_t: i64 = 1;
    let mut r: i64 = p;
    let mut new_r: i64 = residue;
    let ghost mut s: int = 1;
    let ghost mut new_s: int = 0;
    proof {
        lemma_mod_bound(a as int, p as int);
    }
    while new_r != 0
        invariant
            p > 0,
            consecutive_rows(
                p as int,
                residue as int,
                s,
                t as int,
                r as int,
                new_s,
                new_t as int,
                new_r as int,
            ),
        decreases new_r,
    {
        proof {
            lemma_euclid_step(
                p as int,
                residue as int,
                s,
                t as int,
                r as int,
                new_s,
                new_t as int,
                new_r as int,
            );
        }
        let quotient: i64 = r / new_r;
        t = t - quotient * new_t;
        std::mem::swap(&mut t, &mut new_t);
        r = r - quotient * new_r;
        std::mem::swap(&mut r, &mut new_r);
        proof {
            let next_s = s - quotient * new_s;
            s = new_s;
            new_s = next_s;
        }
    }
    if r > 1 {
        proof {
            let cofactor_p = if new_t * r - t * new_r == p { new_t as int } else { -new_t };
            let cofactor_a = if new_s * r - s * new_r == residue { new_s } else { -new_s };
            assert(cofactor_p * r == p) by (nonlinear_arith)
                requires
                    new_r == 0,
                    (new_t * r - t * new_r == p && cofactor_p == new_t) || (t * new_r - new_t * r
                        == p && cofactor_p == -new_t),
            ;
            assert(cofactor_a * r == residue) by (nonlinear_arith)
                requires
                    new_r == 0,
                    (new_s * r - s * new_r == residue && cofactor_a == new_s) || (s * new_r
                        - new_s * r == residue && cofactor_a == -new_s),
            ;
            lemma_divides_multiple(r as int, cofactor_p);
            lemma_divides_multiple(r as int, cofactor_a);
            lemma_divides_remainder(r as int, a as int, p as int);
            assert(divides(r as int, a as int) && divides(r as int, p as int));
            assert forall|x: int| !is_inverse(x, a as int, p as int) by {
                if is_inverse(x, a as int, p as int) {
                    lemma_inverse_coprime(x, a as int, p as int);
                }
            }
        }
        None
    } else {
        let wide: i128 = (t as i128 + p as i128) % (p as i128);
        proof {
            let x = wide as int;
            lemma_mod_bound(t + p, p as int);
            lemma_mul_mod_noop_general(a as int, x, p as int);
            lemma_mul_mod_noop_general(residue as int, t + p, p as int);
            assert(residue * (t + p) == p * (residue - s) + 1) by (nonlinear_arith)
                requires
                    s * p + t * residue == 1,
            ;
            lemma_mod_multiples_vanish(residue - s, 1, p as int);
            lemma_inverse_coprime(x, a as int, p as int);
        }
        Some(wide as i64)
    }
}

} // verus!
