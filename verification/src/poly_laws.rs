//! Algebraic laws of the polynomial operations, proved of their mathematical
//! models.

use crate::congruence::{
    lemma_reduce_same, lemma_reduce_settles, lemma_same_products, lemma_same_reflexive,
    lemma_same_sums, lemma_same_symmetric, lemma_same_transitive, lemma_zero_same, same_in,
};
use crate::poly::{
    fits_i32, fold_sum, fold_sum_fits, is_zero_in, normal_form, one_model, partial_product,
    partial_products, poly_product, poly_sum, product_fits, reduce, sum_coeffs, sum_fits,
    valid_modulus, zero_model, Modulus, PolyModel, PolynomialError,
};
use crate::summation::{lemma_sum_reversed, lemma_sum_zero_tail, sum_to};
use crate::vec_helper::{
    is_trimmed, lemma_trimmed_extension, lemma_trimmed_fixed, lemma_trimmed_properties,
    lemma_trimmed_zeros, scaled, shifted, trimmed, trimmed_len,
};
use vstd::prelude::*;

verus! {

/// Bringing a polynomial into normal form a second time changes nothing:
/// building a polynomial from the coefficients of a polynomial built from
/// `coeffs` over the same ring gives that polynomial again.
pub proof fn lemma_normal_form_idempotent(coeffs: Seq<int>, modulus: Modulus)
    ensures
        normal_form(normal_form(coeffs, modulus).coeffs, modulus) == normal_form(coeffs, modulus),
{
    lemma_trimmed_properties(coeffs, modulus);
    lemma_trimmed_fixed(trimmed(coeffs, modulus), modulus);
}

/// A polynomial in normal form is the normal form of its own coefficients.
pub proof fn lemma_normal_form_of_normal(p: PolyModel)
    requires
        p.is_normal(),
    ensures
        normal_form(p.coeffs, p.modulus) == p,
{
    lemma_trimmed_fixed(p.coeffs, p.modulus);
}

/// The zero polynomial is the neutral element of addition: adding the zero
/// polynomial of its ring to a polynomial with reduced coefficients can be
/// done in `i32` and gives that polynomial.
pub proof fn lemma_add_zero(p: PolyModel)
    requires
        p.is_normal(),
        p.is_reduced(),
    ensures
        sum_fits(p, zero_model(p.modulus)),
        poly_sum(p, zero_model(p.modulus)) == Ok::<PolyModel, PolynomialError>(p),
{
    let zero = zero_model(p.modulus);
    assert(zero.coeffs =~= Seq::<int>::empty());
    assert(sum_coeffs(p, zero) =~= p.coeffs);
    lemma_normal_form_of_normal(p);
}

/// A polynomial in normal form stays in normal form when its coefficients
/// are replaced by their representatives, and it has reduced coefficients
/// then. It stays the same exactly where its coefficients were reduced
/// before.
pub proof fn lemma_reduced_is_normal(p: PolyModel)
    requires
        p.is_normal(),
    ensures
        p.reduced().is_normal(),
        p.reduced().is_reduced(),
        p.reduced() == p <==> p.is_reduced(),
        forall|k: int| #[trigger] p.reduced().coefficient(k) == p.coefficient(k),
{
    let r = p.reduced();
    assert forall|i: int| 0 <= i < r.coeffs.len() implies fits_i32(#[trigger] r.coeffs[i])
        && reduce(r.coeffs[i], r.modulus) == r.coeffs[i] by {
        lemma_reduce_settles(p.coeffs[i], p.modulus);
        assert(fits_i32(p.coeffs[i]));
    }
    if p.coeffs.len() > 0 {
        lemma_reduce_settles(p.coeffs.last(), p.modulus);
    }
    if p.is_reduced() {
        assert(r.coeffs =~= p.coeffs);
    }
    if r == p {
        assert forall|i: int| 0 <= i < p.coeffs.len() implies reduce(
            #[trigger] p.coeffs[i],
            p.modulus,
        ) == p.coeffs[i] by {
            assert(r.coeffs[i] == p.coeffs[i]);
        }
    }
    assert forall|k: int| #[trigger] r.coefficient(k) == p.coefficient(k) by {
        if 0 <= k < p.coeffs.len() {
            lemma_reduce_settles(p.coeffs[k], p.modulus);
        }
    }
}

/// Adding the zero polynomial of its ring to a polynomial replaces every
/// stored coefficient by its representative in the ring. So the sum is the
/// polynomial itself exactly where its coefficients are reduced.
pub proof fn lemma_add_zero_reduces(p: PolyModel)
    requires
        p.is_normal(),
    ensures
        sum_fits(p, zero_model(p.modulus)),
        poly_sum(p, zero_model(p.modulus)) == Ok::<PolyModel, PolynomialError>(p.reduced()),
        poly_sum(p, zero_model(p.modulus)) == Ok::<PolyModel, PolynomialError>(p)
            <==> p.is_reduced(),
{
    let zero = zero_model(p.modulus);
    lemma_reduced_is_normal(p);
    assert(zero.coeffs =~= Seq::<int>::empty());
    assert(sum_coeffs(p, zero) =~= p.reduced().coeffs);
    lemma_normal_form_of_normal(p.reduced());
}

/// Over a ring other than the integers modulo 1, the polynomial 1 has the
/// single coefficient 1.
proof fn lemma_one_coeffs(modulus: Modulus)
    requires
        !is_zero_in(1, modulus),
    ensures
        one_model(modulus).coeffs == seq![1int],
{
    lemma_trimmed_fixed(seq![1int], modulus);
}

/// One step of the summation that multiplies `p` by the polynomial 1: adding
/// the monomial `p_i X^i` to the first `i` terms of `p` gives the first
/// `i + 1` terms.
proof fn lemma_multiply_by_one_step(p: PolyModel, i: int)
    requires
        p.is_normal(),
        p.is_reduced(),
        0 <= i < p.coeffs.len(),
        !is_zero_in(1, p.modulus),
    ensures
        sum_fits(
            normal_form(p.coeffs.take(i), p.modulus),
            partial_product(p, one_model(p.modulus), i),
        ),
        poly_sum(
            normal_form(p.coeffs.take(i), p.modulus),
            partial_product(p, one_model(p.modulus), i),
        ) == Ok::<PolyModel, PolynomialError>(normal_form(p.coeffs.take(i + 1), p.modulus)),
{
    let m = p.modulus;
    let one = one_model(m);
    lemma_one_coeffs(m);
    let acc = normal_form(p.coeffs.take(i), m);
    let c = p.coefficient(i);
    assert(c == p.coeffs[i]);
    let raw = scaled(shifted(one.coeffs, i as nat), c);
    let part = partial_product(p, one, i);
    assert(part == normal_form(raw, m));
    assert(raw.len() == i + 1);
    assert(reduce(0, m) == 0);
    assert forall|k: int| 0 <= k < i implies raw[k] == 0 by {
        assert(shifted(one.coeffs, i as nat)[k] == 0);
    }
    assert(raw[i] == c) by {
        assert(shifted(one.coeffs, i as nat)[i] == 1);
    }
    lemma_trimmed_properties(p.coeffs.take(i), m);
    lemma_trimmed_properties(raw, m);
    if is_zero_in(c, m) {
        assert forall|k: int| 0 <= k < raw.len() implies is_zero_in(#[trigger] raw[k], m) by {
            if k < i {
                assert(raw[k] == 0);
            }
        }
        lemma_trimmed_zeros(raw, m);
    } else {
        lemma_trimmed_fixed(raw, m);
    }
    let sums = sum_coeffs(acc, part);
    let target = p.coeffs.take(i + 1);
    assert forall|k: int| 0 <= k < sums.len() implies sums[k] == target[k] by {
        assert(sums[k] == acc.coefficient(k) + part.coefficient(k));
        assert(reduce(p.coeffs[k], m) == p.coeffs[k]);
        if k < acc.coeffs.len() {
            assert(acc.coeffs[k] == p.coeffs[k]);
        } else if k < i {
            assert(is_zero_in(p.coeffs.take(i)[k], m));
        }
        if k < part.coeffs.len() {
            assert(part.coeffs[k] == raw[k]);
        }
    }
    assert forall|k: int| sums.len() <= k < target.len() implies is_zero_in(
        #[trigger] target[k],
        m,
    ) by {
        if k < i {
            assert(is_zero_in(p.coeffs.take(i)[k], m));
        }
    }
    lemma_trimmed_extension(sums, target, m);
}

/// The summation that multiplies `p` by the polynomial 1 has, after `n`
/// partial products, collected the first `n` terms of `p`.
proof fn lemma_multiply_by_one_fold(p: PolyModel, n: int)
    requires
        p.is_normal(),
        p.is_reduced(),
        0 <= n <= p.coeffs.len(),
        !is_zero_in(1, p.modulus),
    ensures
        fold_sum_fits(zero_model(p.modulus), partial_products(p, one_model(p.modulus)).take(n)),
        fold_sum(zero_model(p.modulus), partial_products(p, one_model(p.modulus)).take(n)) == Ok::<
            PolyModel,
            PolynomialError,
        >(normal_form(p.coeffs.take(n), p.modulus)),
    decreases n,
{
    let parts = partial_products(p, one_model(p.modulus));
    if n == 0 {
        assert(p.coeffs.take(0) =~= Seq::<int>::empty());
    } else {
        lemma_multiply_by_one_fold(p, n - 1);
        assert(parts.take(n).drop_last() =~= parts.take(n - 1));
        lemma_multiply_by_one_step(p, n - 1);
    }
}

/// The polynomial 1 is the neutral element of multiplication: multiplying a
/// polynomial with reduced coefficients by the polynomial 1 of its ring can
/// be done in `i32` and gives that polynomial. The zero polynomial of a
/// remainder class ring is left out: its product with anything is the zero
/// polynomial over the integers.
pub proof fn lemma_multiply_by_one(p: PolyModel)
    requires
        p.is_normal(),
        p.is_reduced(),
        p.coeffs.len() > 0 || p.modulus is None,
    ensures
        product_fits(p, one_model(p.modulus)),
        poly_product(p, one_model(p.modulus)) == Ok::<PolyModel, PolynomialError>(p),
{
    let one = one_model(p.modulus);
    let parts = partial_products(p, one);
    assert forall|i: int, j: int|
        0 <= i < p.coeffs.len() && 0 <= j < one.coeffs.len() implies fits_i32(
        #[trigger] p.coefficient(i) * #[trigger] one.coeffs[j],
    ) by {
        lemma_trimmed_properties(seq![1int], p.modulus);
        assert(one.coeffs[j] == 1);
        assert(p.coefficient(i) == p.coeffs[i]);
    }
    if p.coeffs.len() == 0 {
        assert(zero_model(None).coeffs =~= p.coeffs);
    } else {
        let top = p.coeffs.last();
        assert(!is_zero_in(top, p.modulus));
        assert(reduce(top, p.modulus) == top);
        assert(!is_zero_in(1, p.modulus)) by {
            if let Some(q) = p.modulus {
                if q == 1 {
                    assert(reduce(top, p.modulus) == 0);
                } else {
                    vstd::arithmetic::div_mod::lemma_small_mod(1, q as nat);
                }
            }
        }
        lemma_multiply_by_one_fold(p, p.coeffs.len() as int);
        assert(parts.take(p.coeffs.len() as int) =~= parts);
        assert(p.coeffs.take(p.coeffs.len() as int) =~= p.coeffs);
        lemma_normal_form_of_normal(p);
    }
}

/// Multiplying a polynomial by the polynomial 1 of its ring replaces every
/// stored coefficient by its representative in the ring. So the product is
/// the polynomial itself exactly where its coefficients are reduced. The zero
/// polynomial of a remainder class ring is left out.
pub proof fn lemma_multiply_by_one_reduces(p: PolyModel)
    requires
        p.is_normal(),
        p.coeffs.len() > 0 || p.modulus is None,
    ensures
        product_fits(p, one_model(p.modulus)),
        poly_product(p, one_model(p.modulus)) == Ok::<PolyModel, PolynomialError>(p.reduced()),
        poly_product(p, one_model(p.modulus)) == Ok::<PolyModel, PolynomialError>(p)
            <==> p.is_reduced(),
{
    let r = p.reduced();
    let one = one_model(p.modulus);
    lemma_reduced_is_normal(p);
    lemma_multiply_by_one(r);
    assert(partial_products(p, one) =~= partial_products(r, one)) by {
        assert forall|i: int| 0 <= i < p.coeffs.len() implies partial_product(p, one, i)
            == partial_product(r, one, i) by {
            assert(r.coefficient(i) == p.coefficient(i));
        }
    }
    assert forall|i: int, j: int|
        0 <= i < p.coeffs.len() && 0 <= j < one.coeffs.len() implies fits_i32(
        #[trigger] p.coefficient(i) * #[trigger] one.coeffs[j],
    ) by {
        assert(r.coefficient(i) == p.coefficient(i));
        assert(fits_i32(r.coefficient(i) * one.coeffs[j]));
    }
}

/// The element of `s` at the place `i`, and zero outside `s`: the
/// coefficient of `X^i` of a polynomial over the integers.
pub open spec fn coeff_at(s: Seq<int>, i: int) -> int {
    if 0 <= i < s.len() {
        s[i]
    } else {
        0
    }
}

/// The coefficient of `X^k` in the product of the polynomials with the
/// coefficients `p` and `q` over the integers: the sum of `p_i * q_(k - i)`.
pub open spec fn convolution(p: Seq<int>, q: Seq<int>, k: int) -> int {
    sum_to(|i: int| coeff_at(p, i) * coeff_at(q, k - i), p.len() as int)
}

/// Trimming cuts zeros of the ring only, so every coefficient stays the same
/// element of the ring.
proof fn lemma_trimmed_coeff_at(s: Seq<int>, modulus: Modulus)
    requires
        valid_modulus(modulus),
    ensures
        is_trimmed(trimmed(s, modulus), modulus),
        forall|k: int|
            same_in(#[trigger] coeff_at(trimmed(s, modulus), k), coeff_at(s, k), modulus),
{
    lemma_trimmed_properties(s, modulus);
    assert forall|k: int|
        same_in(#[trigger] coeff_at(trimmed(s, modulus), k), coeff_at(s, k), modulus) by {
        if trimmed_len(s, modulus) <= k < s.len() {
            assert(is_zero_in(s[k], modulus));
            lemma_zero_same(s[k], modulus);
            lemma_same_symmetric(s[k], 0, modulus);
        } else {
            lemma_same_reflexive(coeff_at(s, k), modulus);
        }
    }
}

/// The reduced coefficient of a polynomial is the same element of the ring
/// as the stored one.
proof fn lemma_coefficient_same(p: PolyModel, k: int)
    requires
        valid_modulus(p.modulus),
    ensures
        same_in(p.coefficient(k), coeff_at(p.coeffs, k), p.modulus),
{
    if 0 <= k < p.coeffs.len() {
        lemma_reduce_same(p.coeffs[k], p.modulus);
    } else {
        lemma_same_reflexive(0, p.modulus);
    }
}

/// The coefficients of a sum are, as elements of the ring, the sums of the
/// coefficients.
proof fn lemma_sum_coeffs(a: PolyModel, b: PolyModel)
    requires
        valid_modulus(a.modulus),
        a.modulus == b.modulus,
    ensures
        poly_sum(a, b) matches Ok(sum) && sum.modulus == a.modulus && is_trimmed(
            sum.coeffs,
            a.modulus,
        ) && forall|k: int|
            same_in(
                #[trigger] coeff_at(sum.coeffs, k),
                coeff_at(a.coeffs, k) + coeff_at(b.coeffs, k),
                a.modulus,
            ),
{
    let m = a.modulus;
    let sums = sum_coeffs(a, b);
    lemma_trimmed_coeff_at(sums, m);
    let sum = poly_sum(a, b)->Ok_0;
    assert forall|k: int|
        same_in(
            #[trigger] coeff_at(sum.coeffs, k),
            coeff_at(a.coeffs, k) + coeff_at(b.coeffs, k),
            m,
        ) by {
        let target = coeff_at(a.coeffs, k) + coeff_at(b.coeffs, k);
        assert(same_in(coeff_at(trimmed(sums, m), k), coeff_at(sums, k), m));
        lemma_coefficient_same(a, k);
        lemma_coefficient_same(b, k);
        lemma_same_sums(
            a.coefficient(k),
            coeff_at(a.coeffs, k),
            b.coefficient(k),
            coeff_at(b.coeffs, k),
            m,
        );
        assert(coeff_at(sums, k) == a.coefficient(k) + b.coefficient(k));
        lemma_same_transitive(coeff_at(sum.coeffs, k), coeff_at(sums, k), target, m);
    }
}

/// The product of `q` and the monomial `p_i X^i` has, as elements of the
/// ring, the coefficients `p_i * q_(k - i)`.
proof fn lemma_partial_coeffs(p: PolyModel, q: PolyModel, i: int)
    requires
        valid_modulus(p.modulus),
        0 <= i < p.coeffs.len(),
    ensures
        partial_product(p, q, i).modulus == p.modulus,
        forall|k: int|
            same_in(
                #[trigger] coeff_at(partial_product(p, q, i).coeffs, k),
                coeff_at(p.coeffs, i) * coeff_at(q.coeffs, k - i),
                p.modulus,
            ),
{
    let m = p.modulus;
    let c = p.coefficient(i);
    let moved = shifted(q.coeffs, i as nat);
    let raw = scaled(moved, c);
    lemma_trimmed_coeff_at(raw, m);
    lemma_coefficient_same(p, i);
    assert forall|k: int|
        same_in(
            #[trigger] coeff_at(partial_product(p, q, i).coeffs, k),
            coeff_at(p.coeffs, i) * coeff_at(q.coeffs, k - i),
            m,
        ) by {
        let shifted_k = coeff_at(q.coeffs, k - i);
        let target = coeff_at(p.coeffs, i) * shifted_k;
        assert(same_in(coeff_at(trimmed(raw, m), k), coeff_at(raw, k), m));
        assert(coeff_at(raw, k) == c * shifted_k) by {
            if 0 <= k < raw.len() {
                assert(raw[k] == c * moved[k]);
                if k < i {
                    assert(moved[k] == 0);
                } else {
                    assert(moved[k] == q.coeffs[k - i]);
                }
            }
        }
        lemma_same_reflexive(shifted_k, m);
        lemma_same_products(c, coeff_at(p.coeffs, i), shifted_k, shifted_k, m);
        lemma_same_transitive(coeff_at(trimmed(raw, m), k), coeff_at(raw, k), target, m);
    }
}

/// The sum of the first `n` partial products of `p` and `q` has, as elements
/// of the ring, the coefficients `p_0 * q_k + ... + p_(n - 1) * q_(k - n + 1)`.
proof fn lemma_partial_sums(p: PolyModel, q: PolyModel, n: int)
    requires
        valid_modulus(p.modulus),
        0 <= n <= p.coeffs.len(),
    ensures
        fold_sum(zero_model(p.modulus), partial_products(p, q).take(n)) matches Ok(sum)
            && sum.modulus == p.modulus && is_trimmed(sum.coeffs, p.modulus) && forall|k: int|
            same_in(
                #[trigger] coeff_at(sum.coeffs, k),
                sum_to(|i: int| coeff_at(p.coeffs, i) * coeff_at(q.coeffs, k - i), n),
                p.modulus,
            ),
    decreases n,
{
    let m = p.modulus;
    let parts = partial_products(p, q);
    if n == 0 {
        assert(zero_model(m).coeffs =~= Seq::<int>::empty());
        lemma_same_reflexive(0, m);
    } else {
        lemma_partial_sums(p, q, n - 1);
        assert(parts.take(n).drop_last() =~= parts.take(n - 1));
        let before = fold_sum(zero_model(m), parts.take(n - 1))->Ok_0;
        let part = partial_product(p, q, n - 1);
        assert(parts.take(n).last() == part);
        lemma_partial_coeffs(p, q, n - 1);
        lemma_sum_coeffs(before, part);
        let sum = poly_sum(before, part)->Ok_0;
        assert forall|k: int|
            same_in(
                #[trigger] coeff_at(sum.coeffs, k),
                sum_to(|i: int| coeff_at(p.coeffs, i) * coeff_at(q.coeffs, k - i), n),
                m,
            ) by {
            let terms = |i: int| coeff_at(p.coeffs, i) * coeff_at(q.coeffs, k - i);
            let so_far = coeff_at(before.coeffs, k);
            let added = coeff_at(part.coeffs, k);
            assert(same_in(coeff_at(sum.coeffs, k), so_far + added, m));
            assert(same_in(so_far, sum_to(terms, n - 1), m));
            assert(same_in(added, terms(n - 1), m));
            lemma_same_sums(so_far, sum_to(terms, n - 1), added, terms(n - 1), m);
            lemma_same_transitive(coeff_at(sum.coeffs, k), so_far + added, sum_to(terms, n), m);
        }
    }
}

/// The product of two polynomials of a ring is in normal form and has, as
/// elements of the ring, the convolution of their coefficients as its
/// coefficients; over the integers these are its coefficients. The zero
/// polynomial of a remainder class ring is left out as the left factor: its
/// product with anything is the zero polynomial over the integers.
pub proof fn lemma_product_coeffs(p: PolyModel, q: PolyModel)
    requires
        valid_modulus(p.modulus),
        p.modulus == q.modulus,
        p.coeffs.len() > 0 || p.modulus is None,
    ensures
        poly_product(p, q) matches Ok(product) && product.modulus == p.modulus && is_trimmed(
            product.coeffs,
            p.modulus,
        ) && forall|k: int|
            same_in(
                #[trigger] coeff_at(product.coeffs, k),
                convolution(p.coeffs, q.coeffs, k),
                p.modulus,
            ),
{
    let parts = partial_products(p, q);
    let n = p.coeffs.len() as int;
    lemma_partial_sums(p, q, n);
    assert(parts.take(n) =~= parts);
    if n == 0 {
        assert(zero_model(None).coeffs =~= Seq::<int>::empty());
    }
}

/// The convolution does not depend on the order of the two factors.
pub proof fn lemma_convolution_symmetric(p: Seq<int>, q: Seq<int>, k: int)
    ensures
        convolution(p, q, k) == convolution(q, p, k),
{
    let f = |i: int| coeff_at(p, i) * coeff_at(q, k - i);
    let g = |j: int| coeff_at(q, j) * coeff_at(p, k - j);
    let lp = p.len() as int;
    let lq = q.len() as int;
    if k < 0 {
        assert forall|i: int| 0 <= i < lp implies #[trigger] f(i) == 0 by {
            assert(coeff_at(q, k - i) == 0);
        }
        assert forall|j: int| 0 <= j < lq implies #[trigger] g(j) == 0 by {
            assert(coeff_at(p, k - j) == 0);
        }
        lemma_sum_zero_tail(f, 0, lp);
        lemma_sum_zero_tail(g, 0, lq);
    } else {
        // Both sums can be taken over the places 0..=k.
        if lp <= k + 1 {
            assert forall|i: int| lp <= i < k + 1 implies #[trigger] f(i) == 0 by {
                assert(coeff_at(p, i) == 0);
            }
            lemma_sum_zero_tail(f, lp, k + 1);
        } else {
            assert forall|i: int| k + 1 <= i < lp implies #[trigger] f(i) == 0 by {
                assert(coeff_at(q, k - i) == 0);
            }
            lemma_sum_zero_tail(f, k + 1, lp);
        }
        if lq <= k + 1 {
            assert forall|j: int| lq <= j < k + 1 implies #[trigger] g(j) == 0 by {
                assert(coeff_at(q, j) == 0);
            }
            lemma_sum_zero_tail(g, lq, k + 1);
        } else {
            assert forall|j: int| k + 1 <= j < lq implies #[trigger] g(j) == 0 by {
                assert(coeff_at(p, k - j) == 0);
            }
            lemma_sum_zero_tail(g, k + 1, lq);
        }
        assert forall|j: int| 0 <= j < k + 1 implies #[trigger] g(j) == f(k + 1 - 1 - j) by {
            assert(coeff_at(q, j) * coeff_at(p, k - j) == coeff_at(p, k - j) * coeff_at(q, j))
                by (nonlinear_arith);
        }
        lemma_sum_reversed(f, g, k + 1);
    }
}

/// Two coefficient sequences in trimmed form whose coefficients are the same
/// elements of the ring have the same length, and over the integers they are
/// the same sequence.
proof fn lemma_trimmed_unique(a: Seq<int>, b: Seq<int>, modulus: Modulus)
    requires
        valid_modulus(modulus),
        is_trimmed(a, modulus),
        is_trimmed(b, modulus),
        forall|k: int| same_in(coeff_at(a, k), coeff_at(b, k), modulus),
    ensures
        a.len() == b.len(),
        modulus is None ==> a == b,
{
    if a.len() < b.len() {
        let top = b.len() - 1;
        assert(same_in(coeff_at(a, top), coeff_at(b, top), modulus));
        lemma_same_symmetric(0, b[top], modulus);
        lemma_zero_same(b[top], modulus);
    } else if b.len() < a.len() {
        let top = a.len() - 1;
        assert(same_in(coeff_at(a, top), coeff_at(b, top), modulus));
        lemma_zero_same(a[top], modulus);
    }
    if modulus is None {
        assert forall|k: int| 0 <= k < a.len() implies a[k] == b[k] by {
            assert(same_in(coeff_at(a, k), coeff_at(b, k), modulus));
        }
        assert(a =~= b);
    }
}

/// Whether `a` and `b` stand for the same polynomial of the same ring: they
/// have the same degree, and their coefficients are the same elements of the
/// ring.
pub open spec fn same_polynomial(a: PolyModel, b: PolyModel) -> bool {
    &&& a.modulus == b.modulus
    &&& a.degree() == b.degree()
    &&& forall|k: int| same_in(#[trigger] a.coefficient(k), b.coefficient(k), a.modulus)
}

/// Multiplication of polynomials over the integers is commutative.
pub proof fn lemma_multiply_commutes(p: PolyModel, q: PolyModel)
    requires
        p.modulus is None,
        q.modulus is None,
    ensures
        poly_product(p, q) == poly_product(q, p),
{
    lemma_multiply_commutes_in_ring(p, q);
}

/// In every ring the two products of two polynomials, taken in either order,
/// stand for the same polynomial. Over a remainder class ring their stored
/// coefficients can differ by multiples of the modulus, and the zero
/// polynomial is left out: as the left factor it gives the zero polynomial
/// over the integers.
pub proof fn lemma_multiply_commutes_in_ring(p: PolyModel, q: PolyModel)
    requires
        valid_modulus(p.modulus),
        p.modulus == q.modulus,
        p.modulus is None || (p.coeffs.len() > 0 && q.coeffs.len() > 0),
    ensures
        poly_product(p, q) matches Ok(pq) && poly_product(q, p) matches Ok(qp) && pq.modulus
            == p.modulus && same_polynomial(pq, qp),
        p.modulus is None ==> poly_product(p, q) == poly_product(q, p),
{
    let m = p.modulus;
    lemma_product_coeffs(p, q);
    lemma_product_coeffs(q, p);
    let pq = poly_product(p, q)->Ok_0;
    let qp = poly_product(q, p)->Ok_0;
    assert forall|k: int| same_in(coeff_at(pq.coeffs, k), coeff_at(qp.coeffs, k), m) by {
        let both = convolution(p.coeffs, q.coeffs, k);
        lemma_convolution_symmetric(p.coeffs, q.coeffs, k);
        assert(same_in(coeff_at(pq.coeffs, k), both, m));
        assert(same_in(coeff_at(qp.coeffs, k), both, m));
        lemma_same_symmetric(coeff_at(qp.coeffs, k), both, m);
        lemma_same_transitive(coeff_at(pq.coeffs, k), both, coeff_at(qp.coeffs, k), m);
    }
    lemma_trimmed_unique(pq.coeffs, qp.coeffs, m);
    assert forall|k: int| same_in(#[trigger] pq.coefficient(k), qp.coefficient(k), m) by {
        lemma_coefficient_same(pq, k);
        lemma_coefficient_same(qp, k);
        lemma_same_symmetric(qp.coefficient(k), coeff_at(qp.coeffs, k), m);
        assert(same_in(coeff_at(pq.coeffs, k), coeff_at(qp.coeffs, k), m));
        let stored = coeff_at(qp.coeffs, k);
        lemma_same_transitive(pq.coefficient(k), coeff_at(pq.coeffs, k), stored, m);
        lemma_same_transitive(pq.coefficient(k), stored, qp.coefficient(k), m);
    }
}

} // verus!
