//! Equality of integers as elements of a ring: plain equality over the
//! integers, congruence modulo `q` over a remainder class ring.

use crate::poly::{is_zero_in, reduce, valid_modulus, Modulus};
use vstd::arithmetic::div_mod::{
    lemma_fundamental_div_mod, lemma_mod_bound, lemma_mod_decreases, lemma_mod_multiples_basic,
    lemma_small_mod,
};
use vstd::prelude::*;

verus! {

/// Whether `a` is a multiple of `m`.
pub open spec fn is_multiple_of(a: int, m: int) -> bool {
    a % m == 0
}

/// Whether `a` and `b` stand for the same element of the ring `modulus`:
/// over the integers they are equal, and over the integers modulo `q` their
/// difference is a multiple of `q`.
pub open spec fn same_in(a: int, b: int, modulus: Modulus) -> bool {
    match modulus {
        Some(q) => is_multiple_of(a - b, q as int),
        None => a == b,
    }
}

/// A number is a multiple of `m` exactly where it is `m` times some integer.
pub proof fn lemma_multiple_has_factor(a: int, m: int)
    requires
        m > 0,
        is_multiple_of(a, m),
    ensures
        a == m * (a / m),
{
    lemma_fundamental_div_mod(a, m);
}

/// The product of `m` and an integer is a multiple of `m`.
pub proof fn lemma_product_is_multiple(t: int, m: int)
    requires
        m > 0,
    ensures
        is_multiple_of(m * t, m),
        is_multiple_of(t * m, m),
{
    lemma_mod_multiples_basic(t, m);
    assert(m * t == t * m) by (nonlinear_arith);
}

/// Every integer stands for the same element as itself.
pub proof fn lemma_same_reflexive(a: int, modulus: Modulus)
    requires
        valid_modulus(modulus),
    ensures
        same_in(a, a, modulus),
{
    if let Some(q) = modulus {
        lemma_product_is_multiple(0, q as int);
    }
}

/// Standing for the same element does not depend on the order of the two.
pub proof fn lemma_same_symmetric(a: int, b: int, modulus: Modulus)
    requires
        valid_modulus(modulus),
        same_in(a, b, modulus),
    ensures
        same_in(b, a, modulus),
{
    if let Some(q) = modulus {
        let m = q as int;
        lemma_multiple_has_factor(a - b, m);
        let t = (a - b) / m;
        assert(b - a == m * (-t)) by (nonlinear_arith)
            requires
                a - b == m * t,
        ;
        lemma_product_is_multiple(-t, m);
    }
}

/// Two integers that stand for the same element as a third stand for the
/// same element.
pub proof fn lemma_same_transitive(a: int, b: int, c: int, modulus: Modulus)
    requires
        valid_modulus(modulus),
        same_in(a, b, modulus),
        same_in(b, c, modulus),
    ensures
        same_in(a, c, modulus),
{
    if let Some(q) = modulus {
        let m = q as int;
        lemma_multiple_has_factor(a - b, m);
        lemma_multiple_has_factor(b - c, m);
        let s = (a - b) / m;
        let t = (b - c) / m;
        assert(a - c == m * (s + t)) by (nonlinear_arith)
            requires
                a - b == m * s,
                b - c == m * t,
        ;
        lemma_product_is_multiple(s + t, m);
    }
}

/// Sums of integers that stand for the same elements stand for the same
/// element.
pub proof fn lemma_same_sums(a: int, a2: int, b: int, b2: int, modulus: Modulus)
    requires
        valid_modulus(modulus),
        same_in(a, a2, modulus),
        same_in(b, b2, modulus),
    ensures
        same_in(a + b, a2 + b2, modulus),
{
    if let Some(q) = modulus {
        let m = q as int;
        lemma_multiple_has_factor(a - a2, m);
        lemma_multiple_has_factor(b - b2, m);
        let s = (a - a2) / m;
        let t = (b - b2) / m;
        assert((a + b) - (a2 + b2) == m * (s + t)) by (nonlinear_arith)
            requires
                a - a2 == m * s,
                b - b2 == m * t,
        ;
        lemma_product_is_multiple(s + t, m);
    }
}

/// Products of integers that stand for the same elements stand for the same
/// element.
pub proof fn lemma_same_products(a: int, a2: int, b: int, b2: int, modulus: Modulus)
    requires
        valid_modulus(modulus),
        same_in(a, a2, modulus),
        same_in(b, b2, modulus),
    ensures
        same_in(a * b, a2 * b2, modulus),
{
    if let Some(q) = modulus {
        let m = q as int;
        lemma_multiple_has_factor(a - a2, m);
        lemma_multiple_has_factor(b - b2, m);
        let s = (a - a2) / m;
        let t = (b - b2) / m;
        assert(a * b - a2 * b2 == m * (s * b + a2 * t)) by (nonlinear_arith)
            requires
                a - a2 == m * s,
                b - b2 == m * t,
        ;
        lemma_product_is_multiple(s * b + a2 * t, m);
    }
}

/// The representative of an integer stands for the same element as the
/// integer.
pub proof fn lemma_reduce_same(c: int, modulus: Modulus)
    requires
        valid_modulus(modulus),
    ensures
        same_in(reduce(c, modulus), c, modulus),
{
    if let Some(q) = modulus {
        let m = q as int;
        if c >= 0 {
            lemma_fundamental_div_mod(c, m);
            let t = c / m;
            assert(c % m - c == m * (-t)) by (nonlinear_arith)
                requires
                    c == m * t + c % m,
            ;
            lemma_product_is_multiple(-t, m);
        } else {
            lemma_fundamental_div_mod(-c, m);
            let t = (-c) / m;
            assert(-((-c) % m) - c == m * t) by (nonlinear_arith)
                requires
                    -c == m * t + (-c) % m,
            ;
            lemma_product_is_multiple(t, m);
        }
    }
}

/// The zeros of a ring are the integers that stand for the same element as
/// 0.
pub proof fn lemma_zero_same(c: int, modulus: Modulus)
    requires
        valid_modulus(modulus),
    ensures
        is_zero_in(c, modulus) <==> same_in(c, 0, modulus),
{
    lemma_reduce_same(c, modulus);
    lemma_same_reflexive(0, modulus);
    if is_zero_in(c, modulus) {
        lemma_same_symmetric(reduce(c, modulus), c, modulus);
    }
    if same_in(c, 0, modulus) {
        if let Some(q) = modulus {
            let m = q as int;
            // `c` is a multiple of `m`, and so is `-c`.
            lemma_same_symmetric(c, 0, modulus);
            assert(is_multiple_of(-c, m));
        }
    }
}

/// The representative of an integer is not farther from zero than the
/// integer, and it is its own representative.
pub proof fn lemma_reduce_settles(c: int, modulus: Modulus)
    requires
        valid_modulus(modulus),
    ensures
        reduce(reduce(c, modulus), modulus) == reduce(c, modulus),
        c >= 0 ==> 0 <= reduce(c, modulus) <= c,
        c <= 0 ==> c <= reduce(c, modulus) <= 0,
{
    if let Some(q) = modulus {
        let m = q as int;
        if c >= 0 {
            lemma_mod_bound(c, m);
            lemma_mod_decreases(c as nat, m as nat);
            lemma_small_mod((c % m) as nat, m as nat);
        } else {
            lemma_mod_bound(-c, m);
            lemma_mod_decreases((-c) as nat, m as nat);
            lemma_small_mod(((-c) % m) as nat, m as nat);
        }
    }
}

} // verus!
