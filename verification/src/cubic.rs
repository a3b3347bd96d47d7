//! Roots of the cubic `z^3 + a z + b` in the field of `p` elements.

use crate::modular::{add_mod, mul_mod};
use vstd::arithmetic::div_mod::{
    lemma_add_mod_noop, lemma_add_mod_noop_right, lemma_mul_mod_noop_general,
};
use vstd::prelude::*;

verus! {

/// The value of the cubic `z^3 + a z + b`, the right-hand side of the short
/// Weierstrass equation `y^2 = x^3 + a x + b` at `x = z`.
pub open spec fn cubic(z: int, a: int, b: int) -> int {
    z * z * z + a * z + b
}

/// `z` is a root of the cubic in the field of `p` elements.
pub open spec fn is_cubic_root(z: int, a: int, b: int, p: int) -> bool {
    0 <= z < p && cubic(z, a, b) % p == 0
}

/// `z` is the least root of the cubic in the field of `p` elements.
pub open spec fn is_first_cubic_root(z: int, a: int, b: int, p: int) -> bool {
    &&& is_cubic_root(z, a, b, p)
    &&& forall|y: int| 0 <= y < z ==> !is_cubic_root(y, a, b, p)
}

/// The least root of the cubic in the field of `p` elements, where it has one.
pub open spec fn first_cubic_root(a: int, b: int, p: int) -> Option<int> {
    if exists|z: int| is_cubic_root(z, a, b, p) {
        Some(choose|z: int| is_first_cubic_root(z, a, b, p))
    } else {
        None
    }
}

/// Where there is a root, there is a least one.
proof fn lemma_least_cubic_root(z: int, a: int, b: int, p: int)
    requires
        is_cubic_root(z, a, b, p),
    ensures
        exists|k: int| is_first_cubic_root(k, a, b, p),
    decreases z,
{
    if exists|y: int| 0 <= y < z && is_cubic_root(y, a, b, p) {
        let y = choose|y: int| 0 <= y < z && is_cubic_root(y, a, b, p);
        lemma_least_cubic_root(y, a, b, p);
    } else {
        assert(is_first_cubic_root(z, a, b, p));
    }
}

/// `first_cubic_root` is the one least root, and is `None` only of a cubic
/// without a root.
pub proof fn lemma_first_cubic_root(a: int, b: int, p: int)
    ensures
        first_cubic_root(a, b, p) matches Some(z) ==> is_first_cubic_root(z, a, b, p),
        first_cubic_root(a, b, p) is None ==> forall|z: int| !is_cubic_root(z, a, b, p),
        forall|z: int| is_first_cubic_root(z, a, b, p) ==> first_cubic_root(a, b, p) == Some(z),
{
    if exists|z: int| is_cubic_root(z, a, b, p) {
        let z = choose|z: int| is_cubic_root(z, a, b, p);
        lemma_least_cubic_root(z, a, b, p);
    }
}

/// The residue of the cubic at `z`, with every intermediate value reduced so
/// that none exceeds the product of two 64-bit integers.
fn cubic_residue(z: i64, a: i64, b: i64, p: i64) -> (r: i64)
    requires
        p > 0,
    ensures
        r == cubic(z as int, a as int, b as int) % p as int,
{
    let square: i64 = mul_mod(z, z, p);
    let cube: i64 = mul_mod(square, z, p);
    let linear: i64 = mul_mod(a, z, p);
    let sum: i64 = add_mod(cube, linear, p);
    proof {
        lemma_mul_mod_noop_general(z * z, z as int, p as int);
        lemma_add_mod_noop(z * z * z, a * z, p as int);
        lemma_add_mod_noop_right(b as int, z * z * z + a * z, p as int);
    }
    add_mod(sum, b, p)
}

/// The least `z` in `[0, p)` with `z^3 + a z + b` congruent to 0 modulo `p`,
/// found by trying every field element in increasing order; `None` when the
/// cubic has no root in the field, which is so of every cubic when `p <= 0`.
pub fn find_cubic_root(a: i64, b: i64, p: i64) -> (root: Option<i64>)
    ensures
        root matches Some(z) ==> is_first_cubic_root(z as int, a as int, b as int, p as int),
        root is None ==> forall|z: int| !is_cubic_root(z, a as int, b as int, p as int),
{
    let mut z: i64 = 0;
    while z < p
        invariant
            0 <= z,
            forall|y: int| 0 <= y < z ==> !is_cubic_root(y, a as int, b as int, p as int),
        decreases p - z,
    {
        if cubic_residue(z, a, b, p) == 0 {
            return Some(z);
        }
        z = z + 1;
    }
    None
}

} // verus!
