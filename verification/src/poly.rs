//! Arithmetic on polynomials with integer coefficients, over the integers or
//! over a remainder class ring.

use crate::decimal::{append_decimal, append_decimal_nat, decimal};
use crate::vec_helper::{
    as_ints, is_trimmed, lemma_trimmed_properties, lemma_trimmed_zeros, remove_trailing_zeros,
    scale_vector, scaled, shift_vector, shifted, trimmed, trimmed_len,
};
use vstd::prelude::*;
use vstd::std_specs::cmp::PartialEqSpec;
use vstd::std_specs::ops::MulSpec;

verus! {

/// The ring a polynomial lives in: the integers (`None`) or the remainder
/// class ring of the integers modulo `q` (`Some(q)`).
pub type Modulus = Option<i32>;

/// A modulus, where present, is a positive integer.
pub open spec fn valid_modulus(modulus: Modulus) -> bool {
    match modulus {
        Some(q) => q > 0,
        None => true,
    }
}

/// The remainder of the division of `a` by `q` that rounds towards zero; it
/// has the sign of `a`.
pub open spec fn trunc_rem(a: int, q: int) -> int {
    if a >= 0 {
        a % q
    } else {
        -((-a) % q)
    }
}

/// The representative that stands for `c` in the ring `modulus`: `c` itself
/// over the integers, and over the integers modulo `q` the remainder of the
/// division of `c` by `q` that rounds towards zero. The remainder has the
/// sign of `c`.
pub open spec fn reduce(c: int, modulus: Modulus) -> int {
    match modulus {
        Some(q) => trunc_rem(c, q as int),
        None => c,
    }
}

/// Whether `c` is the zero of the ring `modulus`.
pub open spec fn is_zero_in(c: int, modulus: Modulus) -> bool {
    reduce(c, modulus) == 0
}

/// The polynomial `a_0 + a_1 X + ... + a_n X^n` as a mathematical value: the
/// coefficients, `coeffs[i]` belonging to `X^i`, and the ring they are read in.
pub struct PolyModel {
    pub coeffs: Seq<int>,
    pub modulus: Modulus,
}

impl PolyModel {
    /// The normal form that every polynomial of this library is kept in: the
    /// modulus is valid, the highest stored coefficient is not zero in the
    /// ring, and every stored coefficient is the value of an `i32`. The empty
    /// coefficient sequence stands for the zero polynomial.
    pub open spec fn is_normal(self) -> bool {
        &&& valid_modulus(self.modulus)
        &&& is_trimmed(self.coeffs, self.modulus)
        &&& forall|i: int| 0 <= i < self.coeffs.len() ==> fits_i32(#[trigger] self.coeffs[i])
    }

    /// The coefficient of `X^exponent`, reduced in the ring; zero beyond the
    /// stored coefficients.
    pub open spec fn coefficient(self, exponent: int) -> int {
        if 0 <= exponent < self.coeffs.len() {
            reduce(self.coeffs[exponent], self.modulus)
        } else {
            0
        }
    }

    /// The degree; by convention the zero polynomial has degree -1.
    pub open spec fn degree(self) -> int {
        self.coeffs.len() - 1
    }

    /// The polynomial with every stored coefficient multiplied by `factor`,
    /// in normal form.
    pub open spec fn scaled(self, factor: int) -> PolyModel {
        normal_form(scaled(self.coeffs, factor), self.modulus)
    }

    /// Whether every product of `factor` and a stored coefficient is the
    /// value of an `i32`.
    pub open spec fn scale_fits(self, factor: int) -> bool {
        forall|i: int| 0 <= i < self.coeffs.len() ==> fits_i32(factor * #[trigger] self.coeffs[i])
    }

    /// The textual form: `0` for the zero polynomial, and otherwise the
    /// stored coefficients, each followed by `X^` and its exponent, joined by
    /// ` + ` from the constant term up. A coefficient that is zero below the
    /// highest one is written like any other.
    pub open spec fn text(self) -> Seq<char> {
        if self.coeffs.len() == 0 {
            seq!['0']
        } else {
            terms_text(self.coeffs)
        }
    }

    /// The polynomial with every stored coefficient replaced by its
    /// representative in the ring.
    pub open spec fn reduced(self) -> PolyModel {
        PolyModel { coeffs: self.coeffs.map_values(|c: int| reduce(c, self.modulus)), ..self }
    }

    /// Whether every stored coefficient is its own representative in the
    /// ring. Over the integers this always holds.
    pub open spec fn is_reduced(self) -> bool {
        forall|i: int|
            0 <= i < self.coeffs.len() ==> reduce(#[trigger] self.coeffs[i], self.modulus)
                == self.coeffs[i]
    }
}

/// The text of the monomial with the coefficient `c` and the exponent `e`.
pub open spec fn term_text(c: int, e: int) -> Seq<char> {
    decimal(c) + seq!['X', '^'] + decimal(e)
}

/// The texts of the monomials of `coeffs`, from the constant term up, joined
/// by ` + `.
pub open spec fn terms_text(coeffs: Seq<int>) -> Seq<char>
    decreases coeffs.len(),
{
    if coeffs.len() == 0 {
        Seq::empty()
    } else if coeffs.len() == 1 {
        term_text(coeffs[0], 0)
    } else {
        terms_text(coeffs.drop_last()) + seq![' ', '+', ' '] + term_text(
            coeffs.last(),
            coeffs.len() - 1,
        )
    }
}

/// The polynomial over `modulus` that the raw coefficient sequence `coeffs`
/// denotes: the trailing zeros of the ring are cut.
pub open spec fn normal_form(coeffs: Seq<int>, modulus: Modulus) -> PolyModel {
    PolyModel { coeffs: trimmed(coeffs, modulus), modulus }
}

/// Whether `x` is the value of some `i32`.
pub open spec fn fits_i32(x: int) -> bool {
    i32::MIN <= x <= i32::MAX
}

/// A polynomial `a_0 + a_1 X + ... + a_n X^n` with integer coefficients, or
/// with coefficients from a remainder class ring.
///
/// The coefficients are stored in a vector whose last element, the
/// coefficient of the highest power, is never zero in the polynomial's ring.
#[derive(Debug)]
pub struct IntPoly {
    coefficients: Vec<i32>,
    modulus: Modulus,
}

impl View for IntPoly {
    type V = PolyModel;

    closed spec fn view(&self) -> PolyModel {
        PolyModel { coeffs: as_ints(self.coefficients@), modulus: self.modulus }
    }
}

impl DeepView for IntPoly {
    type V = PolyModel;

    open spec fn deep_view(&self) -> PolyModel {
        self@
    }
}

impl IntPoly {
    /// Every polynomial is in normal form, at all times.
    #[verifier::type_invariant]
    pub open spec fn well_formed(&self) -> bool {
        self@.is_normal()
    }

    /// Creates the polynomial with the given coefficients over the given
    /// ring. Trailing zeros of the ring are cut from `coeff` first, so
    /// `1 + X + 0X^2 + 4X^3 + 0X^4` becomes `1 + X + 0X^2 + 4X^3`, and over
    /// the integers modulo `q` the polynomial `1 + qX + 3qX^2` becomes `1`.
    pub fn new(coeff: &mut Vec<i32>, md: Modulus) -> (poly: IntPoly)
        requires
            valid_modulus(md),
        ensures
            final(coeff)@ == old(coeff)@.take(trimmed_len(as_ints(old(coeff)@), md) as int),
            poly@ == normal_form(as_ints(old(coeff)@), md),
            poly@.is_normal(),
    {
        remove_trailing_zeros(coeff, md);
        proof {
            lemma_trimmed_properties(as_ints(old(coeff)@), md);
        }
        IntPoly { coefficients: coeff.clone(), modulus: md }
    }

    /// Returns the coefficient of `X^exponent`. Over the integers modulo `q`
    /// the stored coefficient is reduced by `q`, with the sign of the stored
    /// coefficient. Beyond the degree every coefficient is 0.
    pub fn coefficient(&self, exponent: usize) -> (c: i32)
        ensures
            c == self@.coefficient(exponent as int),
    {
        proof {
            use_type_invariant(self);
        }
        if self.coefficients.len() == 0 {
            return 0;
        }
        if exponent > self.coefficients.len() - 1 {
            return 0;
        }
        match self.modulus {
            Some(q) => self.coefficients[exponent] % q,
            None => self.coefficients[exponent],
        }
    }

    /// Returns the degree of the polynomial, which is -1 for the zero
    /// polynomial.
    pub fn deg(&self) -> (d: i32)
        requires
            self@.degree() <= i32::MAX,
        ensures
            d == self@.degree(),
    {
        if self.coefficients.len() == 0 {
            -1
        } else {
            (self.coefficients.len() - 1) as i32
        }
    }

    /// Returns the polynomial with every coefficient multiplied by
    /// `scale_factor`. Scaling by 0 gives the zero polynomial.
    pub fn scale(&self, scale_factor: i32) -> (product: IntPoly)
        requires
            self@.scale_fits(scale_factor as int),
        ensures
            product@ == self@.scaled(scale_factor as int),
            scale_factor == 0 ==> product@ == zero_model(self@.modulus),
            product@.is_normal(),
    {
        proof {
            use_type_invariant(self);
            assert forall|i: int|
                0 <= i < self.coefficients@.len() implies #[trigger] scale_factor.mul_req(
                self.coefficients@[i],
            ) by {
                assert(fits_i32(scale_factor * self@.coeffs[i]));
            }
        }
        let mut coefficients: Vec<i32> = scale_vector(&self.coefficients, scale_factor);
        proof {
            assert forall|i: int| 0 <= i < coefficients@.len() implies as_ints(coefficients@)[i]
                == scaled(self@.coeffs, scale_factor as int)[i] by {
                assert(coefficients@[i] == scale_factor.mul_spec(self.coefficients@[i]));
                assert(fits_i32(scale_factor * self@.coeffs[i]));
            }
            assert(as_ints(coefficients@) =~= scaled(self@.coeffs, scale_factor as int));
            if scale_factor == 0 {
                lemma_trimmed_zeros(scaled(self@.coeffs, 0), self.modulus);
                assert(trimmed(Seq::<int>::empty(), self.modulus) =~= Seq::<int>::empty());
            }
        }
        IntPoly::new(&mut coefficients, self.modulus)
    }

    /// Returns the additive inverse of the polynomial: the polynomial scaled
    /// by -1.
    pub fn additive_inverse(&self) -> (inverse: IntPoly)
        requires
            self@.scale_fits(-1),
        ensures
            inverse@ == self@.scaled(-1),
            inverse@.is_normal(),
    {
        self.scale(-1)
    }

    /// Returns the textual form of the polynomial, such as
    /// `1X^0 + 2X^1 + 1X^2`, and `0` for the zero polynomial. Every stored
    /// coefficient is written, also one that is zero.
    pub fn to_string(&self) -> (text: String)
        ensures
            text@ == self@.text(),
    {
        if self.coefficients.len() == 0 {
            proof {
                reveal_strlit("0");
                assert("0"@ =~= seq!['0']);
            }
            return String::from_str("0");
        }
        let mut string_representation: String = String::new();
        for i in 0..self.coefficients.len()
            invariant
                self.coefficients@.len() > 0,
                string_representation@ == terms_text(self@.coeffs.take(i as int)),
        {
            let ghost before = string_representation@;
            let ghost prefix = self@.coeffs.take(i + 1);
            proof {
                assert(prefix.drop_last() =~= self@.coeffs.take(i as int));
                assert(prefix.last() == self.coefficients@[i as int]);
            }
            if i > 0 {
                string_representation.append(" + ");
                proof {
                    reveal_strlit(" + ");
                    assert(" + "@ =~= seq![' ', '+', ' ']);
                }
            }
            append_decimal(&mut string_representation, self.coefficients[i]);
            string_representation.append("X^");
            proof {
                reveal_strlit("X^");
                assert("X^"@ =~= seq!['X', '^']);
            }
            append_decimal_nat(&mut string_representation, i as u64);
            proof {
                let term = term_text(prefix.last(), i as int);
                if i > 0 {
                    assert(string_representation@ =~= before + seq![' ', '+', ' '] + term);
                } else {
                    assert(before =~= Seq::<char>::empty());
                    assert(string_representation@ =~= term);
                }
            }
        }
        proof {
            assert(self@.coeffs.take(self.coefficients@.len() as int) =~= self@.coeffs);
        }
        string_representation
    }
}

impl Clone for IntPoly {
    fn clone(&self) -> (copy: IntPoly)
        ensures
            copy@ == self@,
    {
        proof {
            use_type_invariant(self);
        }
        IntPoly { coefficients: self.coefficients.clone(), modulus: self.modulus }
    }
}

impl PartialEq for IntPoly {
    fn eq(&self, other: &IntPoly) -> (equal: bool) {
        let same_ring: bool = self.modulus == other.modulus;
        let same_coefficients: bool = self.coefficients == other.coefficients;
        proof {
            let a = self.coefficients@;
            let b = other.coefficients@;
            if as_ints(a) == as_ints(b) {
                assert(a.len() == as_ints(a).len());
                assert forall|i: int| 0 <= i < a.len() implies a[i] == b[i] by {
                    assert(as_ints(a)[i] == as_ints(b)[i]);
                }
                assert(a =~= b);
            }
            assert(same_coefficients == self.coefficients.eq_spec(&other.coefficients));
            if same_coefficients {
                assert forall|i: int| 0 <= i < a.len() implies a[i] == b[i] by {
                    assert(a[i].eq_spec(&b[i]));
                }
                assert(a =~= b);
            }
        }
        same_ring && same_coefficients
    }
}

impl vstd::std_specs::cmp::PartialEqSpecImpl for IntPoly {
    open spec fn obeys_eq_spec() -> bool {
        true
    }

    open spec fn eq_spec(&self, other: &IntPoly) -> bool {
        self@ == other@
    }
}

/// What can go wrong when polynomials are combined.
#[derive(Debug, PartialEq)]
pub enum PolynomialError {
    /// The two operands of a binary operation live in different rings; the
    /// error carries the modulus of the left and of the right operand.
    ModulusMismatchError(Modulus, Modulus),
}

/// What an operation on polynomials returned, with the polynomial taken as
/// its mathematical value.
pub open spec fn result_view(result: Result<IntPoly, PolynomialError>) -> Result<
    PolyModel,
    PolynomialError,
> {
    match result {
        Ok(poly) => Ok(poly@),
        Err(error) => Err(error),
    }
}

/// The zero polynomial of the ring `modulus`.
pub open spec fn zero_model(modulus: Modulus) -> PolyModel {
    normal_form(Seq::empty(), modulus)
}

/// The polynomial 1 of the ring `modulus`. Modulo 1 it is the zero
/// polynomial, since 1 is zero there.
pub open spec fn one_model(modulus: Modulus) -> PolyModel {
    normal_form(seq![1int], modulus)
}

/// The coefficients of `p + q` before trailing zeros are cut: position by
/// position the sum of the reduced coefficients.
pub open spec fn sum_coeffs(p: PolyModel, q: PolyModel) -> Seq<int> {
    Seq::new(
        if p.coeffs.len() >= q.coeffs.len() {
            p.coeffs.len()
        } else {
            q.coeffs.len()
        },
        |i: int| p.coefficient(i) + q.coefficient(i),
    )
}

/// The sum of two polynomials: an error where their rings differ, and
/// otherwise the normal form of the coefficient sums.
pub open spec fn poly_sum(p: PolyModel, q: PolyModel) -> Result<PolyModel, PolynomialError> {
    if p.modulus != q.modulus {
        Err(PolynomialError::ModulusMismatchError(p.modulus, q.modulus))
    } else {
        Ok(normal_form(sum_coeffs(p, q), p.modulus))
    }
}

/// Whether the sum of `p` and `q` can be computed in `i32`: where the rings
/// agree, every coefficient sum is the value of an `i32`.
pub open spec fn sum_fits(p: PolyModel, q: PolyModel) -> bool {
    p.modulus == q.modulus ==> forall|i: int|
        0 <= i < sum_coeffs(p, q).len() ==> fits_i32(#[trigger] sum_coeffs(p, q)[i])
}

/// The difference `p - q`: the sum of `p` and the additive inverse of `q`.
pub open spec fn poly_difference(p: PolyModel, q: PolyModel) -> Result<
    PolyModel,
    PolynomialError,
> {
    poly_sum(p, q.scaled(-1))
}

/// `start` with the polynomials of `polys` added to it one after the other,
/// from the first to the last. The first sum that fails ends the folding, and
/// its error is the result.
pub open spec fn fold_sum(start: PolyModel, polys: Seq<PolyModel>) -> Result<
    PolyModel,
    PolynomialError,
>
    decreases polys.len(),
{
    if polys.len() == 0 {
        Ok(start)
    } else {
        match fold_sum(start, polys.drop_last()) {
            Ok(partial) => poly_sum(partial, polys.last()),
            Err(error) => Err(error),
        }
    }
}

/// Whether every sum that `fold_sum` takes can be computed in `i32`.
pub open spec fn fold_sum_fits(start: PolyModel, polys: Seq<PolyModel>) -> bool
    decreases polys.len(),
{
    polys.len() == 0 || (fold_sum_fits(start, polys.drop_last()) && match fold_sum(
        start,
        polys.drop_last(),
    ) {
        Ok(partial) => sum_fits(partial, polys.last()),
        Err(_) => true,
    })
}

/// The sum of a list of polynomials. The empty sum is the zero polynomial
/// over the integers; a sum with terms starts from the zero polynomial of the
/// ring of the first term.
pub open spec fn sum_of(polys: Seq<PolyModel>) -> Result<PolyModel, PolynomialError> {
    if polys.len() == 0 {
        Ok(zero_model(None))
    } else {
        fold_sum(zero_model(polys[0].modulus), polys)
    }
}

/// Whether all polynomials of the list live in the ring of the first.
pub open spec fn same_ring(polys: Seq<PolyModel>) -> bool {
    forall|i: int| 0 <= i < polys.len() ==> (#[trigger] polys[i]).modulus == polys[0].modulus
}

/// Whether the sum of the list can be computed in `i32`.
pub open spec fn sum_of_fits(polys: Seq<PolyModel>) -> bool {
    polys.len() > 0 ==> fold_sum_fits(zero_model(polys[0].modulus), polys)
}

/// The product of the monomial `p_i X^i` of `p` and the polynomial `q`: the
/// coefficients of `q`, moved up by `i` places and multiplied by the reduced
/// coefficient `p_i`, in normal form.
pub open spec fn partial_product(p: PolyModel, q: PolyModel, i: int) -> PolyModel {
    normal_form(scaled(shifted(q.coeffs, i as nat), p.coefficient(i)), p.modulus)
}

/// The products of `q` and each monomial of `p`, from the constant term up.
pub open spec fn partial_products(p: PolyModel, q: PolyModel) -> Seq<PolyModel> {
    Seq::new(p.coeffs.len(), |i: int| partial_product(p, q, i))
}

/// The product of two polynomials: an error where their rings differ, and
/// otherwise, by the distributive law, the sum of the products of `q` and
/// each monomial of `p`. The zero polynomial has no monomials, so with it on
/// the left the product is the empty sum: the zero polynomial over the
/// integers, whatever the ring of the factors.
pub open spec fn poly_product(p: PolyModel, q: PolyModel) -> Result<PolyModel, PolynomialError> {
    if p.modulus != q.modulus {
        Err(PolynomialError::ModulusMismatchError(p.modulus, q.modulus))
    } else {
        sum_of(partial_products(p, q))
    }
}

/// Whether the product of `p` and `q` can be computed in `i32`: where the
/// rings agree, every product of a reduced coefficient of `p` and a stored
/// coefficient of `q` is the value of an `i32`, and so is every coefficient
/// met while the partial products are summed.
pub open spec fn product_fits(p: PolyModel, q: PolyModel) -> bool {
    p.modulus == q.modulus ==> {
        &&& forall|i: int, j: int|
            0 <= i < p.coeffs.len() && 0 <= j < q.coeffs.len() ==> fits_i32(
                #[trigger] p.coefficient(i) * #[trigger] q.coeffs[j],
            )
        &&& sum_of_fits(partial_products(p, q))
    }
}

/// `start` multiplied by the polynomials of `polys` one after the other, from
/// the first to the last. The first product that fails ends the folding, and
/// its error is the result.
pub open spec fn fold_product(start: PolyModel, polys: Seq<PolyModel>) -> Result<
    PolyModel,
    PolynomialError,
>
    decreases polys.len(),
{
    if polys.len() == 0 {
        Ok(start)
    } else {
        match fold_product(start, polys.drop_last()) {
            Ok(partial) => poly_product(partial, polys.last()),
            Err(error) => Err(error),
        }
    }
}

/// Whether every product that `fold_product` takes can be computed in `i32`.
pub open spec fn fold_product_fits(start: PolyModel, polys: Seq<PolyModel>) -> bool
    decreases polys.len(),
{
    polys.len() == 0 || (fold_product_fits(start, polys.drop_last()) && match fold_product(
        start,
        polys.drop_last(),
    ) {
        Ok(partial) => product_fits(partial, polys.last()),
        Err(_) => true,
    })
}

/// The product of a list of polynomials. The empty product is the polynomial
/// 1 over the integers; a product with factors starts from the polynomial 1
/// of the ring of the first factor.
pub open spec fn product_of(polys: Seq<PolyModel>) -> Result<PolyModel, PolynomialError> {
    if polys.len() == 0 {
        Ok(one_model(None))
    } else {
        fold_product(one_model(polys[0].modulus), polys)
    }
}

/// Whether the product of the list can be computed in `i32`.
pub open spec fn product_of_fits(polys: Seq<PolyModel>) -> bool {
    polys.len() > 0 ==> fold_product_fits(one_model(polys[0].modulus), polys)
}

/// The power `p^exponent`: the polynomial 1 of the ring of `p` for the
/// exponent 0, and otherwise the product of `exponent` copies of `p`.
pub open spec fn power_of(p: PolyModel, exponent: nat) -> Result<PolyModel, PolynomialError> {
    if exponent == 0 {
        Ok(one_model(p.modulus))
    } else {
        product_of(Seq::new(exponent, |i: int| p))
    }
}

/// Whether `p^exponent` can be computed in `i32`.
pub open spec fn power_fits(p: PolyModel, exponent: nat) -> bool {
    exponent > 0 ==> product_of_fits(Seq::new(exponent, |i: int| p))
}

/// Returns the zero polynomial of the ring `md`.
pub fn zero_polynomial(md: Modulus) -> (zero: IntPoly)
    requires
        valid_modulus(md),
    ensures
        zero@ == zero_model(md),
        zero@.is_normal(),
{
    let mut coefficients: Vec<i32> = Vec::new();
    proof {
        assert(as_ints(coefficients@) =~= Seq::<int>::empty());
    }
    IntPoly::new(&mut coefficients, md)
}

/// Returns the polynomial 1 of the ring `md`.
pub fn one_polynomial(md: Modulus) -> (one: IntPoly)
    requires
        valid_modulus(md),
    ensures
        one@ == one_model(md),
        one@.is_normal(),
{
    let mut coefficients: Vec<i32> = Vec::new();
    coefficients.push(1);
    proof {
        assert(as_ints(coefficients@) =~= seq![1int]);
    }
    IntPoly::new(&mut coefficients, md)
}

/// Returns the sum of the two polynomials, or an error if they live in
/// different rings. The degree of the sum can be lower than that of the
/// summands: `X^2 + 1` and `-X^2 + 1` add up to `2`.
pub fn add_poly(poly1: &IntPoly, poly2: &IntPoly) -> (sum: Result<IntPoly, PolynomialError>)
    requires
        sum_fits(poly1@, poly2@),
    ensures
        result_view(sum) == poly_sum(poly1@, poly2@),
        sum is Ok <==> poly1@.modulus == poly2@.modulus,
        sum matches Ok(s) ==> s@.is_normal(),
{
    proof {
        use_type_invariant(poly1);
        use_type_invariant(poly2);
    }
    if poly1.modulus != poly2.modulus {
        return Err(PolynomialError::ModulusMismatchError(poly1.modulus, poly2.modulus));
    }
    let result_len: usize = if poly1.coefficients.len() >= poly2.coefficients.len() {
        poly1.coefficients.len()
    } else {
        poly2.coefficients.len()
    };
    let ghost target = sum_coeffs(poly1@, poly2@);
    let mut result_coeffs: Vec<i32> = Vec::new();
    for i in 0..result_len
        invariant
            result_len == target.len(),
            target == sum_coeffs(poly1@, poly2@),
            forall|k: int| 0 <= k < target.len() ==> fits_i32(#[trigger] target[k]),
            result_coeffs@.len() == i,
            as_ints(result_coeffs@) == target.take(i as int),
    {
        let a: i32 = poly1.coefficient(i);
        let b: i32 = poly2.coefficient(i);
        let ghost before = result_coeffs@;
        proof {
            assert(target[i as int] == a + b);
        }
        result_coeffs.push(a + b);
        proof {
            assert forall|k: int| 0 <= k < i + 1 implies as_ints(result_coeffs@)[k]
                == target[k] by {
                if k < i {
                    assert(as_ints(before)[k] == target.take(i as int)[k]);
                }
            }
            assert(as_ints(result_coeffs@) =~= target.take(i + 1));
        }
    }
    proof {
        assert(target.take(result_len as int) =~= target);
    }
    Ok(IntPoly::new(&mut result_coeffs, poly1.modulus))
}

/// Returns the sum of the polynomials of `poly_vec`, added up from the first
/// to the last, or the error of the first sum that fails. The sum of no
/// polynomials is the zero polynomial over the integers.
pub fn sum_of_polys(poly_vec: &Vec<IntPoly>) -> (sum: Result<IntPoly, PolynomialError>)
    requires
        sum_of_fits(poly_vec.deep_view()),
    ensures
        result_view(sum) == sum_of(poly_vec.deep_view()),
        poly_vec@.len() == 0 ==> result_view(sum) == Ok::<PolyModel, PolynomialError>(
            zero_model(None),
        ),
        sum is Ok <==> same_ring(poly_vec.deep_view()),
        sum matches Ok(s) ==> s@.is_normal(),
{
    if poly_vec.len() == 0 {
        return Ok(zero_polynomial(None));
    }
    let ghost polys = poly_vec.deep_view();
    let first: &IntPoly = &poly_vec[0];
    proof {
        use_type_invariant(first);
    }
    let mut result: IntPoly = zero_polynomial(first.modulus);
    let ghost start = result@;
    for i in 0..poly_vec.len()
        invariant
            polys == poly_vec.deep_view(),
            polys.len() > 0,
            start == zero_model(polys[0].modulus),
            fold_sum_fits(start, polys),
            fold_sum(start, polys.take(i as int)) == Ok::<PolyModel, PolynomialError>(result@),
            result@.is_normal(),
    {
        proof {
            lemma_fold_sum_fits_prefix(start, polys, i + 1);
            assert(polys.take(i + 1).drop_last() =~= polys.take(i as int));
            assert(polys.take(i + 1).last() == poly_vec@[i as int]@);
        }
        match add_poly(&result, &poly_vec[i]) {
            Ok(next) => {
                result = next;
            },
            Err(error) => {
                proof {
                    assert(fold_sum(start, polys.take(i + 1)) == Err::<PolyModel, PolynomialError>(
                        error,
                    ));
                    lemma_fold_sum_error_stays(start, polys, i + 1);
                    lemma_fold_sum_outcome(start, polys);
                }
                return Err(error);
            },
        }
    }
    proof {
        assert(polys.take(polys.len() as int) =~= polys);
        lemma_fold_sum_outcome(start, polys);
    }
    Ok(result)
}

/// Folding sums succeeds exactly where every polynomial lives in the ring of
/// the start, and then the sum lives there too.
pub proof fn lemma_fold_sum_outcome(start: PolyModel, polys: Seq<PolyModel>)
    ensures
        fold_sum(start, polys) is Ok <==> forall|i: int|
            0 <= i < polys.len() ==> (#[trigger] polys[i]).modulus == start.modulus,
        fold_sum(start, polys) matches Ok(sum) ==> sum.modulus == start.modulus,
    decreases polys.len(),
{
    if polys.len() > 0 {
        let front = polys.drop_last();
        lemma_fold_sum_outcome(start, front);
        if fold_sum(start, polys) is Ok {
            assert forall|i: int| 0 <= i < polys.len() implies (#[trigger] polys[i]).modulus
                == start.modulus by {
                if i < front.len() {
                    assert(front[i] == polys[i]);
                }
            }
        }
        if forall|i: int| 0 <= i < polys.len() ==> (#[trigger] polys[i]).modulus == start.modulus {
            assert forall|i: int| 0 <= i < front.len() implies (#[trigger] front[i]).modulus
                == start.modulus by {
                assert(front[i] == polys[i]);
            }
            assert(polys[polys.len() - 1].modulus == start.modulus);
        }
    }
}

/// Where every sum of the folding fits, so does every sum of the folding of
/// a prefix.
pub proof fn lemma_fold_sum_fits_prefix(start: PolyModel, polys: Seq<PolyModel>, n: int)
    requires
        0 <= n <= polys.len(),
        fold_sum_fits(start, polys),
    ensures
        fold_sum_fits(start, polys.take(n)),
    decreases polys.len(),
{
    if n == polys.len() {
        assert(polys.take(n) =~= polys);
    } else {
        lemma_fold_sum_fits_prefix(start, polys.drop_last(), n);
        assert(polys.drop_last().take(n) =~= polys.take(n));
    }
}

/// An error met while a prefix is folded is the result of the whole folding.
pub proof fn lemma_fold_sum_error_stays(start: PolyModel, polys: Seq<PolyModel>, n: int)
    requires
        0 <= n <= polys.len(),
        fold_sum(start, polys.take(n)) is Err,
    ensures
        fold_sum(start, polys) == fold_sum(start, polys.take(n)),
    decreases polys.len(),
{
    if n == polys.len() {
        assert(polys.take(n) =~= polys);
    } else {
        assert(polys.drop_last().take(n) =~= polys.take(n));
        lemma_fold_sum_error_stays(start, polys.drop_last(), n);
    }
}

/// Returns the difference `poly1 - poly2`, or an error if the polynomials
/// live in different rings.
pub fn subtract_poly(poly1: &IntPoly, poly2: &IntPoly) -> (difference: Result<
    IntPoly,
    PolynomialError,
>)
    requires
        poly2@.scale_fits(-1),
        sum_fits(poly1@, poly2@.scaled(-1)),
    ensures
        result_view(difference) == poly_difference(poly1@, poly2@),
        difference matches Ok(d) ==> d@.is_normal(),
{
    add_poly(poly1, &poly2.additive_inverse())
}

/// Returns the product of the two polynomials, or an error if they live in
/// different rings.
///
/// The product is computed by the distributive law: for each monomial
/// `a X^i` of `poly1` the coefficients of `poly2` are moved up by `i` places
/// and multiplied by `a`, and these partial products are summed. Where
/// `poly1` is the zero polynomial there is nothing to sum, and the product is
/// the zero polynomial over the integers.
pub fn multiply_poly(poly1: &IntPoly, poly2: &IntPoly) -> (product: Result<
    IntPoly,
    PolynomialError,
>)
    requires
        product_fits(poly1@, poly2@),
    ensures
        result_view(product) == poly_product(poly1@, poly2@),
        product is Ok <==> poly1@.modulus == poly2@.modulus,
        product matches Ok(p) ==> p@.is_normal(),
{
    proof {
        use_type_invariant(poly1);
        use_type_invariant(poly2);
    }
    if poly1.modulus != poly2.modulus {
        return Err(PolynomialError::ModulusMismatchError(poly1.modulus, poly2.modulus));
    }
    let the_modulus: Modulus = poly1.modulus;
    let ghost partials = partial_products(poly1@, poly2@);
    let mut poly_vec: Vec<IntPoly> = Vec::new();
    for i in 0..poly1.coefficients.len()
        invariant
            valid_modulus(the_modulus),
            the_modulus == poly1@.modulus,
            poly1@.coeffs.len() == poly1.coefficients@.len(),
            poly2@.coeffs == as_ints(poly2.coefficients@),
            partials == partial_products(poly1@, poly2@),
            forall|i: int, j: int|
                0 <= i < poly1@.coeffs.len() && 0 <= j < poly2@.coeffs.len() ==> fits_i32(
                    #[trigger] poly1@.coefficient(i) * #[trigger] poly2@.coeffs[j],
                ),
            poly_vec.deep_view() == partials.take(i as int),
    {
        let shifted_coeffs: Vec<i32> = shift_vector(&poly2.coefficients, i);
        let factor: i32 = poly1.coefficient(i);
        proof {
            assert forall|j: int| 0 <= j < shifted_coeffs@.len() implies #[trigger] factor.mul_req(
                shifted_coeffs@[j],
            ) by {
                if j >= i {
                    assert(shifted_coeffs@[j] == poly2@.coeffs[j - i]);
                    assert(fits_i32(poly1@.coefficient(i as int) * poly2@.coeffs[j - i]));
                } else {
                    assert(factor * shifted_coeffs@[j] == 0) by (nonlinear_arith)
                        requires
                            shifted_coeffs@[j] == 0,
                    ;
                }
            }
        }
        let mut scaled_coeffs: Vec<i32> = scale_vector(&shifted_coeffs, factor);
        proof {
            let target = scaled(shifted(poly2@.coeffs, i as nat), factor as int);
            assert forall|j: int| 0 <= j < scaled_coeffs@.len() implies as_ints(scaled_coeffs@)[j]
                == target[j] by {
                assert(scaled_coeffs@[j] == factor.mul_spec(shifted_coeffs@[j]));
                assert(factor.mul_req(shifted_coeffs@[j]));
                assert(as_ints(shifted_coeffs@)[j] == shifted_coeffs@[j]);
            }
            assert(as_ints(scaled_coeffs@) =~= target);
        }
        let ghost before = poly_vec.deep_view();
        let partial: IntPoly = IntPoly::new(&mut scaled_coeffs, the_modulus);
        poly_vec.push(partial);
        proof {
            assert(partial@ == partials[i as int]);
            assert(poly_vec.deep_view() =~= before.push(partial@));
            assert(poly_vec.deep_view() =~= partials.take(i + 1));
        }
    }
    proof {
        assert(partials.take(partials.len() as int) =~= partials);
    }
    sum_of_polys(&poly_vec)
}

/// Returns the product of the polynomials of `poly_vec`, multiplied from the
/// first to the last, or the error of the first product that fails. The
/// product of no polynomials is the polynomial 1 over the integers.
pub fn product_of_polys(poly_vec: &Vec<IntPoly>) -> (product: Result<IntPoly, PolynomialError>)
    requires
        product_of_fits(poly_vec.deep_view()),
    ensures
        result_view(product) == product_of(poly_vec.deep_view()),
        poly_vec@.len() == 0 ==> result_view(product) == Ok::<PolyModel, PolynomialError>(
            one_model(None),
        ),
        product matches Ok(p) ==> p@.is_normal(),
{
    if poly_vec.len() == 0 {
        return Ok(one_polynomial(None));
    }
    let ghost polys = poly_vec.deep_view();
    let first: &IntPoly = &poly_vec[0];
    proof {
        use_type_invariant(first);
    }
    let mut result: IntPoly = one_polynomial(first.modulus);
    let ghost start = result@;
    for i in 0..poly_vec.len()
        invariant
            polys == poly_vec.deep_view(),
            polys.len() > 0,
            start == one_model(polys[0].modulus),
            fold_product_fits(start, polys),
            fold_product(start, polys.take(i as int)) == Ok::<PolyModel, PolynomialError>(
                result@,
            ),
            result@.is_normal(),
    {
        proof {
            lemma_fold_product_fits_prefix(start, polys, i + 1);
            assert(polys.take(i + 1).drop_last() =~= polys.take(i as int));
            assert(polys.take(i + 1).last() == poly_vec@[i as int]@);
        }
        match multiply_poly(&result, &poly_vec[i]) {
            Ok(next) => {
                result = next;
            },
            Err(error) => {
                proof {
                    assert(fold_product(start, polys.take(i + 1)) == Err::<
                        PolyModel,
                        PolynomialError,
                    >(error));
                    lemma_fold_product_error_stays(start, polys, i + 1);
                }
                return Err(error);
            },
        }
    }
    proof {
        assert(polys.take(polys.len() as int) =~= polys);
    }
    Ok(result)
}

/// Where every product of the folding fits, so does every product of the
/// folding of a prefix.
pub proof fn lemma_fold_product_fits_prefix(start: PolyModel, polys: Seq<PolyModel>, n: int)
    requires
        0 <= n <= polys.len(),
        fold_product_fits(start, polys),
    ensures
        fold_product_fits(start, polys.take(n)),
    decreases polys.len(),
{
    if n == polys.len() {
        assert(polys.take(n) =~= polys);
    } else {
        lemma_fold_product_fits_prefix(start, polys.drop_last(), n);
        assert(polys.drop_last().take(n) =~= polys.take(n));
    }
}

/// An error met while a prefix is folded is the result of the whole folding.
pub proof fn lemma_fold_product_error_stays(start: PolyModel, polys: Seq<PolyModel>, n: int)
    requires
        0 <= n <= polys.len(),
        fold_product(start, polys.take(n)) is Err,
    ensures
        fold_product(start, polys) == fold_product(start, polys.take(n)),
    decreases polys.len(),
{
    if n == polys.len() {
        assert(polys.take(n) =~= polys);
    } else {
        assert(polys.drop_last().take(n) =~= polys.take(n));
        lemma_fold_product_error_stays(start, polys.drop_last(), n);
    }
}

/// Returns `poly` to the power `exponent`. The power 0 is the polynomial 1 of
/// the ring of `poly`.
pub fn poly_power(poly: &IntPoly, exponent: usize) -> (power: Result<IntPoly, PolynomialError>)
    requires
        power_fits(poly@, exponent as nat),
    ensures
        result_view(power) == power_of(poly@, exponent as nat),
        exponent == 0 ==> result_view(power) == Ok::<PolyModel, PolynomialError>(
            one_model(poly@.modulus),
        ),
        power matches Ok(p) ==> p@.is_normal(),
{
    proof {
        use_type_invariant(poly);
    }
    if exponent == 0 {
        return Ok(one_polynomial(poly.modulus));
    }
    let mut poly_vec: Vec<IntPoly> = Vec::new();
    for k in 0..exponent
        invariant
            poly_vec.deep_view() == Seq::new(k as nat, |i: int| poly@),
    {
        let ghost before = poly_vec.deep_view();
        poly_vec.push(poly.clone());
        proof {
            assert(poly_vec.deep_view() =~= before.push(poly@));
            assert(poly_vec.deep_view() =~= Seq::new((k + 1) as nat, |i: int| poly@));
        }
    }
    product_of_polys(&poly_vec)
}

} // verus!
