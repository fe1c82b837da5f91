//! A small computer-algebra toolkit: exact arithmetic over integer
//! polynomials (over the integers or over a remainder class ring),
//! permutations of `{1, ..., n}`, and a handful of classic sorting
//! algorithms. Every executable function carries a machine-checked contract.

use vstd::prelude::*;

pub mod congruence;
pub mod cycle_search;
pub mod decimal;
pub mod poly;
pub mod permutation;
pub mod poly_laws;
pub mod sorting;
pub mod summation;
pub mod vec_helper;

verus! {

/// Whether `d` divides `n`: `n` is `d` times some integer.
pub open spec fn divides(d: int, n: int) -> bool {
    exists|k: int| n == #[trigger] (d * k)
}

/// Whether `g` is the greatest common divisor of `a` and `b`: it is not
/// negative, it divides both, and every number that divides both divides it.
/// The greatest common divisor of 0 and 0 is 0.
pub open spec fn is_gcd(g: int, a: int, b: int) -> bool {
    &&& g >= 0
    &&& divides(g, a)
    &&& divides(g, b)
    &&& forall|d: int| divides(d, a) && divides(d, b) ==> #[trigger] divides(d, g)
}

/// A step of Euclid's algorithm keeps the greatest common divisor: that of
/// `b` and the remainder of `a` by `b` is that of `a` and `b`.
pub proof fn lemma_gcd_step(g: int, a: int, b: int)
    requires
        a >= 0,
        b > 0,
        is_gcd(g, b, a % b),
    ensures
        is_gcd(g, a, b),
{
    let q = a / b;
    let r = a % b;
    vstd::arithmetic::div_mod::lemma_fundamental_div_mod(a, b);
    let kb = choose|k: int| b == #[trigger] (g * k);
    let kr = choose|k: int| r == #[trigger] (g * k);
    assert(a == g * (kb * q + kr)) by (nonlinear_arith)
        requires
            a == b * q + r,
            b == g * kb,
            r == g * kr,
    ;
    assert forall|d: int| divides(d, a) && divides(d, b) implies #[trigger] divides(d, g) by {
        let ka = choose|k: int| a == #[trigger] (d * k);
        let kb = choose|k: int| b == #[trigger] (d * k);
        assert(r == d * (ka - kb * q)) by (nonlinear_arith)
            requires
                a == b * q + r,
                a == d * ka,
                b == d * kb,
        ;
        assert(divides(d, r));
    }
}

/// Two numbers have one greatest common divisor only.
pub proof fn lemma_gcd_unique(g: int, h: int, a: int, b: int)
    requires
        is_gcd(g, a, b),
        is_gcd(h, a, b),
    ensures
        g == h,
{
    assert(divides(g, h));
    assert(divides(h, g));
    let k = choose|k: int| h == #[trigger] (g * k);
    let l = choose|l: int| g == #[trigger] (h * l);
    assert(g == h) by (nonlinear_arith)
        requires
            h == g * k,
            g == h * l,
            g >= 0,
            h >= 0,
    ;
}

/// Computes the greatest common divisor of `a` and `b` by Euclid's
/// algorithm.
pub fn euclid(a: u32, b: u32) -> (g: u32)
    ensures
        is_gcd(g as int, a as int, b as int),
    decreases b,
{
    if b == 0 {
        proof {
            assert(a as int == (a as int) * 1);
            assert(0 == (a as int) * 0);
        }
        a
    } else {
        let r: u32 = a % b;
        let g: u32 = euclid(b, r);
        proof {
            lemma_gcd_step(g as int, a as int, b as int);
        }
        g
    }
}

} // verus!
