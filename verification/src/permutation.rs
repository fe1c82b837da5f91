//! Permutations, the bijective mappings of `{1, ..., n}` onto itself, in
//! table form and in cycle form.

use crate::cycle_search::{
    found_so_far, is_new_path, lemma_cycle_form_unique, lemma_cycle_found, lemma_number_skipped,
    lemma_path_grows, lemma_path_starts, lemma_search_ends, lemma_search_starts, placed,
};
use crate::decimal::{append_decimal_nat, decimal_nat};
use crate::vec_helper::{check_unique_in_1_to_n, unique_in_1_to_n};
use std::collections::HashSet;
use vstd::prelude::*;
use vstd::set_lib::{lemma_int_range, lemma_len_subset, lemma_subset_equality, set_int_range};
use vstd::std_specs::cmp::PartialEqSpec;

verus! {

broadcast use vstd::std_specs::hash::group_hash_axioms;

/// What can go wrong when permutations and cycles are built or used.
#[derive(Debug, PartialEq, Eq, Structural)]
pub enum PermutationError {
    /// A permutation was evaluated at a number outside `{1, ..., n}`.
    ArgOutOfRangeError,
    /// A permutation would map a number to one outside `{1, ..., n}`.
    ImageOutOfRangeError,
    /// The table of images does not describe a bijective mapping.
    NotBijectiveError,
    /// The numbers do not form a cycle: one lies outside `{1, ..., n}` or
    /// occurs twice.
    NoValidCycleError,
    /// The table of images is empty.
    EmptyImageVectorError,
    /// Two permutations of sets of different sizes were to be composed.
    DomainRangeSizeMismatchError,
}

/// Whether `images` is the table of a permutation of `{1, ..., n}`, where
/// `n > 0` is its length: `images[i - 1]` is the image of `i`, every image
/// lies in `{1, ..., n}`, and no image occurs twice.
pub open spec fn is_permutation(images: Seq<usize>) -> bool {
    images.len() > 0 && unique_in_1_to_n(images, images.len())
}

/// What becomes of a table of images that is offered as a permutation: an
/// empty table and a table that is not bijective are refused.
pub open spec fn checked_images(images: Seq<usize>) -> Result<Seq<usize>, PermutationError> {
    if images.len() == 0 {
        Err(PermutationError::EmptyImageVectorError)
    } else if !unique_in_1_to_n(images, images.len()) {
        Err(PermutationError::NotBijectiveError)
    } else {
        Ok(images)
    }
}

/// The table of the identity on `{1, ..., n}`.
pub open spec fn identity_images(n: nat) -> Seq<usize> {
    Seq::new(n, |k: int| (k + 1) as usize)
}

/// The image of `x` under the exchange of `i` and `j`.
pub open spec fn exchanged(x: usize, i: usize, j: usize) -> usize {
    if x == i {
        j
    } else if x == j {
        i
    } else {
        x
    }
}

/// The table, of length `n`, of the mapping that exchanges `i` and `j` and
/// leaves every other number where it is.
pub open spec fn transposition_images(n: nat, i: usize, j: usize) -> Seq<usize> {
    Seq::new(n, |k: int| exchanged((k + 1) as usize, i, j))
}

/// The table of `sigma` after `tau`: the image of `k` is the image under
/// `sigma` of the image of `k` under `tau`.
pub open spec fn composed(sigma: Seq<usize>, tau: Seq<usize>) -> Seq<usize> {
    Seq::new(tau.len(), |k: int| sigma[tau[k] - 1])
}

/// The table of the inverse of the permutation with the table `images`: the
/// image of `k` is the number that `images` maps to `k`.
pub open spec fn inverse_images(images: Seq<usize>) -> Seq<usize> {
    Seq::new(images.len(), |k: int| (images.index_of((k + 1) as usize) + 1) as usize)
}

/// The inversions of the table `images`: the pairs of places `i < j` whose
/// images stand in the opposite order.
pub open spec fn inversion_set(images: Seq<usize>) -> Set<(int, int)> {
    Set::new(|p: (int, int)| 0 <= p.0 < p.1 < images.len() && images[p.0] > images[p.1])
}

/// The sign of the permutation with the table `images`: 1 where the number
/// of its inversions is even, and -1 where it is odd.
pub open spec fn sign_of(images: Seq<usize>) -> int {
    if inversion_set(images).len() % 2 == 0 {
        1
    } else {
        -1
    }
}

/// The inversions `(i, j)` of the table with `j < upto`.
spec fn inversions_in_row(images: Seq<usize>, i: int, upto: int) -> Set<(int, int)> {
    Set::new(|p: (int, int)| p.0 == i && i < p.1 < upto && images[i] > images[p.1])
}

/// The inversions `(i, j)` of the table with `i < rows`.
spec fn inversions_above(images: Seq<usize>, rows: int) -> Set<(int, int)> {
    Set::new(
        |p: (int, int)| 0 <= p.0 < rows && p.0 < p.1 < images.len() && images[p.0] > images[p.1],
    )
}

/// Whether `cycle` is a cycle of the permutation with the table `images`:
/// it is not empty, each of its numbers is mapped to the next one and the
/// last one to the first, and no number occurs twice.
pub open spec fn is_cycle_of(cycle: Seq<usize>, images: Seq<usize>) -> bool {
    &&& cycle.len() > 0
    &&& forall|k: int| 0 <= k < cycle.len() ==> 1 <= #[trigger] cycle[k] <= images.len()
    &&& forall|k: int| 0 <= k < cycle.len() - 1 ==> images[#[trigger] cycle[k] - 1] == cycle[k + 1]
    &&& images[cycle.last() - 1] == cycle[0]
    &&& cycle.no_duplicates()
}

/// Whether the number `x` stands in one of the `cycles`.
pub open spec fn stands_in(x: usize, cycles: Seq<Seq<usize>>) -> bool {
    exists|a: int, k: int|
        0 <= a < cycles.len() && 0 <= k < cycles[a].len() && #[trigger] cycles[a][k] == x
}

/// Whether `cycles` is the cycle form of the permutation with the table
/// `images`: every entry is a cycle of the permutation, every number of
/// `{1, ..., n}` stands in exactly one place of exactly one cycle, every
/// cycle starts with its least number, and the cycles are ordered by their
/// least numbers.
pub open spec fn is_cycle_form_of(cycles: Seq<Seq<usize>>, images: Seq<usize>) -> bool {
    &&& forall|a: int| 0 <= a < cycles.len() ==> is_cycle_of(#[trigger] cycles[a], images)
    &&& forall|x: usize| 1 <= x <= images.len() ==> #[trigger] stands_in(x, cycles)
    &&& forall|a: int, k: int, b: int, l: int|
        0 <= a < cycles.len() && 0 <= k < cycles[a].len() && 0 <= b < cycles.len() && 0 <= l
            < cycles[b].len() && #[trigger] cycles[a][k] == #[trigger] cycles[b][l] ==> a == b
            && k == l
    &&& forall|a: int, k: int|
        0 <= a < cycles.len() && 0 < k < cycles[a].len() ==> cycles[a][0] < #[trigger] cycles[a][k]
    &&& forall|a: int, b: int|
        0 <= a < b < cycles.len() ==> #[trigger] cycles[a][0] < #[trigger] cycles[b][0]
}

/// The cycle form of the permutation with the table `images`. A permutation
/// has exactly one.
pub open spec fn cycle_form(images: Seq<usize>) -> Seq<Seq<usize>> {
    choose|cycles: Seq<Seq<usize>>| is_cycle_form_of(cycles, images)
}

/// The decimal notations of the numbers of `numbers`, separated by blanks.
pub open spec fn numbers_text(numbers: Seq<usize>) -> Seq<char>
    decreases numbers.len(),
{
    if numbers.len() == 0 {
        Seq::empty()
    } else if numbers.len() == 1 {
        decimal_nat(numbers[0] as nat)
    } else {
        numbers_text(numbers.drop_last()) + seq![' '] + decimal_nat(numbers.last() as nat)
    }
}

/// The text of a cycle in cycle notation, such as `(1 4 2 3)`; the text of
/// the empty cycle is `()`.
pub open spec fn cycle_text(cycle: Seq<usize>) -> Seq<char> {
    seq!['('] + numbers_text(cycle) + seq![')']
}

/// The texts of those of the `cycles` that hold more than one number, one
/// behind the other.
pub open spec fn cycles_text(cycles: Seq<Seq<usize>>) -> Seq<char>
    decreases cycles.len(),
{
    if cycles.len() == 0 {
        Seq::empty()
    } else if cycles.last().len() > 1 {
        cycles_text(cycles.drop_last()) + cycle_text(cycles.last())
    } else {
        cycles_text(cycles.drop_last())
    }
}

/// A permutation of `{1, ..., n}`.
#[derive(Debug)]
pub struct Permutation {
    images: Vec<usize>,
}

/// A cycle of a permutation `sigma`: numbers `i_1, ..., i_r` with
/// `sigma(i_k) = i_(k + 1)` and `sigma(i_r) = i_1`.
#[derive(Debug)]
pub struct Cycle {
    elements: Vec<usize>,
}

impl View for Permutation {
    type V = Seq<usize>;

    closed spec fn view(&self) -> Seq<usize> {
        self.images@
    }
}

impl View for Cycle {
    type V = Seq<usize>;

    closed spec fn view(&self) -> Seq<usize> {
        self.elements@
    }
}

impl DeepView for Cycle {
    type V = Seq<usize>;

    open spec fn deep_view(&self) -> Seq<usize> {
        self@
    }
}

/// What a fallible operation on permutations returned, with the permutation
/// taken as its table of images.
pub open spec fn images_of(result: Result<Permutation, PermutationError>) -> Result<
    Seq<usize>,
    PermutationError,
> {
    match result {
        Ok(permutation) => Ok(permutation@),
        Err(error) => Err(error),
    }
}

impl Permutation {
    /// Every permutation maps `{1, ..., n}` onto itself, at all times.
    #[verifier::type_invariant]
    pub open spec fn well_formed(&self) -> bool {
        is_permutation(self@)
    }

    /// Creates the permutation with the given table of images: `vec[i - 1]`
    /// is the image of `i`. An empty table is refused, and so is a table that
    /// does not describe a bijective mapping of `{1, ..., n}`, where `n` is
    /// its length.
    pub fn new(vec: Vec<usize>) -> (permutation: Result<Permutation, PermutationError>)
        ensures
            images_of(permutation) == checked_images(vec@),
    {
        let n: usize = vec.len();
        if n == 0 {
            return Err(PermutationError::EmptyImageVectorError);
        }
        if !check_unique_in_1_to_n(&vec, n) {
            return Err(PermutationError::NotBijectiveError);
        }
        Ok(Permutation { images: vec })
    }

    /// Returns the size `n` of the set `{1, ..., n}` that is permuted.
    pub fn n(&self) -> (n: usize)
        ensures
            n == self@.len(),
            is_permutation(self@),
    {
        proof {
            use_type_invariant(self);
        }
        self.images.len()
    }

    /// Returns the image of `i`, or an error where `i` lies outside
    /// `{1, ..., n}`.
    pub fn eval(&self, i: usize) -> (image: Result<usize, PermutationError>)
        ensures
            image == if 1 <= i <= self@.len() {
                Ok::<usize, PermutationError>(self@[i - 1])
            } else {
                Err::<usize, PermutationError>(PermutationError::ArgOutOfRangeError)
            },
            image matches Ok(value) ==> 1 <= value <= self@.len(),
    {
        if i > self.n() || i <= 0 {
            Err(PermutationError::ArgOutOfRangeError)
        } else {
            Ok(self.images[i - 1])
        }
    }

    /// Returns the inverse of the permutation.
    pub fn inverse(&self) -> (inverse: Permutation)
        ensures
            inverse@ == inverse_images(self@),
            is_permutation(inverse@),
    {
        let n: usize = self.n();
        let mut table: Vec<usize> = Vec::new();
        proof {
            lemma_permutation_is_onto(self@);
        }
        for v in 0..n
            invariant
                n == self.images@.len(),
                is_permutation(self.images@),
                forall|x: usize| 1 <= x <= n ==> self.images@.contains(x),
                table@.len() == v,
                forall|k: int|
                    0 <= k < v ==> 1 <= #[trigger] table@[k] <= n && self.images@[
                        table@[k] - 1
                    ] == k + 1,
        {
            let i: usize = v + 1;
            let ghost place = self.images@.index_of(i);
            proof {
                assert(self.images@.contains(i));
            }
            let mut j: usize = 0;
            while self.images[j] != i
                invariant
                    n == self.images@.len(),
                    0 <= j <= place < n,
                    self.images@[place] == i,
                decreases n - j,
            {
                j += 1;
            }
            table.push(j + 1);
        }
        proof {
            assert forall|k: int| 0 <= k < n implies table@[k] == inverse_images(self@)[k] by {
                assert(self.images@.contains((k + 1) as usize));
                assert(self.images@[table@[k] - 1] == k + 1);
            }
            assert(table@ =~= inverse_images(self@));
            lemma_inverse_is_permutation(self@);
        }
        Permutation::new(table).unwrap()
    }

    /// Returns the sign of the permutation: 1 where the number of its
    /// inversions is even, and -1 where it is odd. An inversion is a pair
    /// `i < j` with `sigma(i) > sigma(j)`.
    pub fn sign(&self) -> (sign: i32)
        ensures
            sign == sign_of(self@),
    {
        let n: usize = self.n();
        let mut odd: bool = false;
        proof {
            assert(inversions_above(self@, 0) =~= Set::<(int, int)>::empty());
        }
        for i in 0..n
            invariant
                n == self@.len(),
                inversions_above(self@, i as int).finite(),
                odd == (inversions_above(self@, i as int).len() % 2 == 1),
        {
            proof {
                assert(inversions_in_row(self@, i as int, i as int) =~= Set::<
                    (int, int),
                >::empty());
            }
            for j in i..n
                invariant
                    n == self@.len(),
                    i < n,
                    inversions_above(self@, i as int).finite(),
                    inversions_in_row(self@, i as int, j as int).finite(),
                    odd == ((inversions_above(self@, i as int).len() + inversions_in_row(
                        self@,
                        i as int,
                        j as int,
                    ).len()) % 2 == 1),
            {
                proof {
                    lemma_row_grows(self@, i as int, j as int);
                }
                if self.eval(i + 1).unwrap() > self.eval(j + 1).unwrap() {
                    odd = !odd;
                }
            }
            proof {
                lemma_rows_grow(self@, i as int);
            }
        }
        proof {
            assert(inversions_above(self@, n as int) =~= inversion_set(self@));
        }
        if odd {
            -1
        } else {
            1
        }
    }

    /// Returns the cycle form of the permutation: the cycles that the
    /// numbers `1, ..., n` fall into, each number in exactly one cycle. The
    /// cycle of 1 comes first, then the cycle of the least number that is
    /// not in it, and so on; each cycle starts with its least number.
    pub fn to_cycle_form(&self) -> (cycles: Vec<Cycle>)
        ensures
            is_cycle_form_of(cycles.deep_view(), self@),
            cycles.deep_view() == cycle_form(self@),
    {
        let n: usize = self.n();
        let mut cycles: Vec<Cycle> = Vec::new();
        let mut nums_in_cycles: HashSet<usize> = HashSet::new();
        let ghost s = self.images@;
        let ghost mut form: Seq<Seq<usize>> = Seq::empty();
        let ghost mut place: Map<usize, (int, int)> = Map::empty();
        proof {
            lemma_search_starts(s);
            assert(cycles.deep_view() =~= form);
        }
        for v in 0..n
            invariant
                n == s.len(),
                s == self.images@,
                is_permutation(s),
                form == cycles.deep_view(),
                found_so_far(form, place, nums_in_cycles@, s, v as nat),
        {
            let i: usize = v + 1;
            if !nums_in_cycles.contains(&i) {
                let ghost seen = nums_in_cycles@;
                let mut current_cycle_elements: Vec<usize> = Vec::new();
                current_cycle_elements.push(i);
                nums_in_cycles.insert(i);
                let mut current: usize = self.eval(i).unwrap();
                proof {
                    assert(current_cycle_elements@ =~= seq![i]);
                    lemma_path_starts(form, place, seen, s, v as nat, i);
                }
                while current != i
                    invariant
                        n == s.len(),
                        s == self.images@,
                        is_permutation(s),
                        is_new_path(current_cycle_elements@, s, seen),
                        nums_in_cycles@ == seen.union(current_cycle_elements@.to_set()),
                        1 <= current_cycle_elements@.len() <= n,
                        current_cycle_elements@[0] == i,
                        current == s[current_cycle_elements@.last() - 1],
                        1 <= current <= n,
                    decreases n - current_cycle_elements@.len(),
                {
                    proof {
                        lemma_path_grows(current_cycle_elements@, s, seen, current);
                    }
                    current_cycle_elements.push(current);
                    nums_in_cycles.insert(current);
                    current = self.eval(current).unwrap();
                }
                proof {
                    lemma_cycle_found(form, place, seen, s, v as nat, current_cycle_elements@);
                    place = placed(form, place, current_cycle_elements@);
                    form = form.push(current_cycle_elements@);
                }
                let finished: Cycle = Cycle::new(current_cycle_elements, n).unwrap();
                cycles.push(finished);
                proof {
                    assert(cycles.deep_view() =~= form);
                }
            } else {
                proof {
                    lemma_number_skipped(form, place, nums_in_cycles@, s, v as nat);
                }
            }
        }
        proof {
            lemma_search_ends(form, place, nums_in_cycles@, s);
            lemma_cycle_form_unique(form, cycle_form(s), s);
        }
        cycles
    }

    /// Returns the permutation in cycle notation, such as `(1 5 4)(2 6)`:
    /// the texts of the cycles of its cycle form, those of length 1 left
    /// out. The text of the identity is empty.
    pub fn to_string(&self) -> (text: String)
        ensures
            text@ == cycles_text(cycle_form(self@)),
    {
        let cycle_form: Vec<Cycle> = self.to_cycle_form();
        let ghost form = cycle_form.deep_view();
        let mut result: String = String::new();
        for k in 0..cycle_form.len()
            invariant
                form == cycle_form.deep_view(),
                result@ == cycles_text(form.take(k as int)),
        {
            proof {
                assert(form.take(k + 1).drop_last() =~= form.take(k as int));
                assert(form.take(k + 1).last() == cycle_form@[k as int]@);
            }
            let cycle: &Cycle = &cycle_form[k];
            if cycle.len() > 1 {
                let text: String = cycle.to_string();
                result.append(text.as_str());
            }
        }
        proof {
            assert(form.take(form.len() as int) =~= form);
        }
        result
    }
}

impl PartialEq for Permutation {
    fn eq(&self, other: &Permutation) -> (equal: bool) {
        let equal: bool = self.images == other.images;
        proof {
            let a = self.images@;
            let b = other.images@;
            assert(equal == self.images.eq_spec(&other.images));
            if equal {
                assert forall|i: int| 0 <= i < a.len() implies a[i] == b[i] by {
                    assert(a[i].eq_spec(&b[i]));
                }
                assert(a =~= b);
            }
        }
        equal
    }
}

impl vstd::std_specs::cmp::PartialEqSpecImpl for Permutation {
    open spec fn obeys_eq_spec() -> bool {
        true
    }

    open spec fn eq_spec(&self, other: &Permutation) -> bool {
        self@ == other@
    }
}

impl PartialEq for Cycle {
    fn eq(&self, other: &Cycle) -> (equal: bool) {
        let equal: bool = self.elements == other.elements;
        proof {
            let a = self.elements@;
            let b = other.elements@;
            assert(equal == self.elements.eq_spec(&other.elements));
            if equal {
                assert forall|i: int| 0 <= i < a.len() implies a[i] == b[i] by {
                    assert(a[i].eq_spec(&b[i]));
                }
                assert(a =~= b);
            }
        }
        equal
    }
}

impl vstd::std_specs::cmp::PartialEqSpecImpl for Cycle {
    open spec fn obeys_eq_spec() -> bool {
        true
    }

    open spec fn eq_spec(&self, other: &Cycle) -> bool {
        self@ == other@
    }
}

impl Cycle {
    /// Every cycle holds positive numbers, none of them twice, at all times.
    #[verifier::type_invariant]
    pub open spec fn well_formed(&self) -> bool {
        &&& self@.no_duplicates()
        &&& forall|k: int| 0 <= k < self@.len() ==> self@[k] >= 1
    }

    /// Creates the cycle of the given numbers in the symmetric group of
    /// `{1, ..., n}`, or returns an error where a number lies outside that
    /// set or occurs twice.
    pub fn new(vec: Vec<usize>, n: usize) -> (cycle: Result<Cycle, PermutationError>)
        ensures
            match cycle {
                Ok(c) => c@ == vec@ && unique_in_1_to_n(vec@, n as nat),
                Err(error) => error == PermutationError::NoValidCycleError && !unique_in_1_to_n(
                    vec@,
                    n as nat,
                ),
            },
    {
        if check_unique_in_1_to_n(&vec, n) {
            Ok(Cycle { elements: vec })
        } else {
            Err(PermutationError::NoValidCycleError)
        }
    }

    /// Returns the length of the cycle: how many numbers it holds.
    pub fn len(&self) -> (length: usize)
        ensures
            length == self@.len(),
    {
        self.elements.len()
    }
}

impl Cycle {
    /// Returns the cycle in cycle notation, such as `(1 4 2 3)`; the empty
    /// cycle is written `()`.
    pub fn to_string(&self) -> (text: String)
        ensures
            text@ == cycle_text(self@),
    {
        if self.elements.len() == 0 {
            proof {
                reveal_strlit("()");
                assert("()"@ =~= cycle_text(self@));
            }
            return String::from_str("()");
        }
        let mut result: String = String::from_str("(");
        proof {
            reveal_strlit("(");
            assert("("@ =~= seq!['(']);
        }
        for i in 0..self.elements.len()
            invariant
                self.elements@.len() > 0,
                result@ == seq!['('] + numbers_text(self@.take(i as int)),
        {
            let ghost before = result@;
            let ghost prefix = self@.take(i + 1);
            proof {
                assert(prefix.drop_last() =~= self@.take(i as int));
                assert(prefix.last() == self.elements@[i as int]);
            }
            if i > 0 {
                result.append(" ");
                proof {
                    reveal_strlit(" ");
                    assert(" "@ =~= seq![' ']);
                }
            }
            append_decimal_nat(&mut result, self.elements[i] as u64);
            proof {
                let number = decimal_nat(prefix.last() as nat);
                if i > 0 {
                    assert(result@ =~= seq!['('] + (numbers_text(prefix.drop_last()) + seq![' ']
                        + number));
                } else {
                    assert(numbers_text(self@.take(0)) =~= Seq::<char>::empty());
                    assert(result@ =~= seq!['('] + number);
                }
            }
        }
        result.append(")");
        proof {
            reveal_strlit(")");
            assert(")"@ =~= seq![')']);
            assert(self@.take(self.elements@.len() as int) =~= self@);
        }
        result
    }
}

/// Returns the identity on `{1, ..., n}`, the neutral element of the
/// symmetric group, or an error for `n == 0`.
pub fn identity(n: usize) -> (permutation: Result<Permutation, PermutationError>)
    ensures
        images_of(permutation) == checked_images(identity_images(n as nat)),
        permutation is Ok <==> n > 0,
{
    if n == 0 {
        return Err(PermutationError::EmptyImageVectorError);
    }
    let mut images: Vec<usize> = Vec::new();
    for k in 0..n
        invariant
            images@ == identity_images(k as nat),
    {
        images.push(k + 1);
        assert(images@ =~= identity_images((k + 1) as nat));
    }
    Permutation::new(images)
}

/// Returns the permutation of `{1, ..., n}` that exchanges `i` and `j` and
/// leaves every other number where it is. With `i == j` this is the
/// identity. Where exactly one of two different numbers `i` and `j` lies in
/// `{1, ..., n}`, the mapping is not bijective and an error is returned.
pub fn transposition(n: usize, i: usize, j: usize) -> (permutation: Result<
    Permutation,
    PermutationError,
>)
    ensures
        images_of(permutation) == checked_images(transposition_images(n as nat, i, j)),
        permutation is Ok <==> n > 0 && (i == j || (1 <= i <= n) == (1 <= j <= n)),
{
    if i == j {
        proof {
            assert(transposition_images(n as nat, i, j) =~= identity_images(n as nat));
        }
        return identity(n);
    }
    let mut images: Vec<usize> = Vec::new();
    for k in 0..n
        invariant
            images@ == transposition_images(k as nat, i, j),
    {
        let x: usize = k + 1;
        images.push(
            if x == i {
                j
            } else if x == j {
                i
            } else {
                x
            },
        );
        assert(images@ =~= transposition_images((k + 1) as nat, i, j));
    }
    proof {
        let table = images@;
        if n > 0 {
            let i_inside = 1 <= i <= n;
            let j_inside = 1 <= j <= n;
            if i_inside != j_inside {
                if i_inside {
                    assert(table[i - 1] == j);
                } else {
                    assert(table[j - 1] == i);
                }
            } else {
                assert forall|a: int, b: int|
                    0 <= a < table.len() && 0 <= b < table.len() && a != b implies table[a]
                    != table[b] by {
                    assert(table[a] == exchanged((a + 1) as usize, i, j));
                    assert(table[b] == exchanged((b + 1) as usize, i, j));
                }
                assert forall|a: int| 0 <= a < table.len() implies 1 <= #[trigger] table[a]
                    <= n by {
                    assert(table[a] == exchanged((a + 1) as usize, i, j));
                }
            }
        }
    }
    Permutation::new(images)
}

/// Returns the composition `sigma` after `tau`, or an error where the two
/// permute sets of different sizes.
pub fn compose(sigma: &Permutation, tau: &Permutation) -> (composition: Result<
    Permutation,
    PermutationError,
>)
    ensures
        images_of(composition) == if sigma@.len() == tau@.len() {
            Ok::<Seq<usize>, PermutationError>(composed(sigma@, tau@))
        } else {
            Err::<Seq<usize>, PermutationError>(PermutationError::DomainRangeSizeMismatchError)
        },
{
    let n: usize = sigma.n();
    if n != tau.n() {
        return Err(PermutationError::DomainRangeSizeMismatchError);
    }
    let mut images: Vec<usize> = Vec::new();
    for k in 0..n
        invariant
            n == sigma@.len(),
            n == tau@.len(),
            is_permutation(sigma@),
            is_permutation(tau@),
            images@ == composed(sigma@, tau@).take(k as int),
    {
        let inner: usize = tau.eval(k + 1).unwrap();
        images.push(sigma.eval(inner).unwrap());
        assert(images@ =~= composed(sigma@, tau@).take(k + 1));
    }
    proof {
        let table = composed(sigma@, tau@);
        assert(images@ =~= table);
        lemma_composed_is_permutation(sigma@, tau@);
    }
    Permutation::new(images)
}

/// Returns the conjugate of `sigma` by `tau`: `tau` after `sigma` after the
/// inverse of `tau`. Both permute the same set.
pub fn conjugate(sigma: &Permutation, tau: &Permutation) -> (conjugate: Result<
    Permutation,
    PermutationError,
>)
    requires
        sigma@.len() == tau@.len(),
    ensures
        images_of(conjugate) == Ok::<Seq<usize>, PermutationError>(
            composed(composed(tau@, sigma@), inverse_images(tau@)),
        ),
{
    compose(&(compose(tau, sigma).unwrap()), &tau.inverse())
}

/// The composition of two permutations of the same set is a permutation of
/// that set.
pub proof fn lemma_composed_is_permutation(sigma: Seq<usize>, tau: Seq<usize>)
    requires
        is_permutation(sigma),
        is_permutation(tau),
        sigma.len() == tau.len(),
    ensures
        is_permutation(composed(sigma, tau)),
{
    let table = composed(sigma, tau);
    assert forall|a: int| 0 <= a < table.len() implies 1 <= #[trigger] table[a]
        <= table.len() by {
        assert(1 <= tau[a] <= tau.len());
        assert(1 <= sigma[tau[a] - 1] <= sigma.len());
    }
    assert forall|a: int, b: int|
        0 <= a < table.len() && 0 <= b < table.len() && a != b implies table[a] != table[b] by {
        assert(1 <= tau[a] <= tau.len());
        assert(1 <= tau[b] <= tau.len());
        assert(tau[a] != tau[b]);
    }
}

/// A permutation of `{1, ..., n}` takes every number of that set as a value:
/// a mapping of a finite set into itself that takes no value twice takes
/// every value.
pub proof fn lemma_permutation_is_onto(images: Seq<usize>)
    requires
        is_permutation(images),
    ensures
        images.len() <= usize::MAX,
        forall|v: usize| 1 <= v <= images.len() ==> images.contains(v),
{
    let n = images.len() as int;
    let values = images.map_values(|x: usize| x as int);
    assert forall|a: int, b: int|
        0 <= a < values.len() && 0 <= b < values.len() && a != b implies values[a]
        != values[b] by {
        assert(images[a] != images[b]);
    }
    values.unique_seq_to_set();
    lemma_int_range(1, n + 1);
    let range = set_int_range(1, n + 1);
    assert forall|x: int| values.to_set().contains(x) implies range.contains(x) by {
        let a = choose|a: int| 0 <= a < values.len() && values[a] == x;
        assert(1 <= images[a] <= n);
    }
    lemma_len_subset(values.to_set(), range);
    lemma_subset_equality(values.to_set(), range);
    assert(n <= usize::MAX) by {
        assert(range.contains(n));
        assert(values.to_set().contains(n));
        let a = choose|a: int| 0 <= a < values.len() && values[a] == n;
        assert(images[a] == n);
    }
    assert forall|v: usize| 1 <= v <= images.len() implies images.contains(v) by {
        assert(range.contains(v as int));
        assert(values.to_set().contains(v as int));
        let a = choose|a: int| 0 <= a < values.len() && values[a] == v as int;
        assert(images[a] == v);
    }
}

/// The inverse of a permutation is a permutation of the same set, and it
/// takes every image back to where it came from.
pub proof fn lemma_inverse_is_permutation(images: Seq<usize>)
    requires
        is_permutation(images),
    ensures
        is_permutation(inverse_images(images)),
        forall|k: int|
            0 <= k < images.len() ==> inverse_images(images)[#[trigger] images[k] - 1] == k + 1,
        forall|k: int|
            0 <= k < images.len() ==> images[#[trigger] inverse_images(images)[k] - 1] == k + 1,
{
    let n = images.len();
    let back = inverse_images(images);
    lemma_permutation_is_onto(images);
    assert forall|k: int| 0 <= k < n implies 1 <= #[trigger] back[k] <= n && images[back[k] - 1]
        == k + 1 by {
        assert(images.contains((k + 1) as usize));
    }
    assert forall|a: int, b: int| 0 <= a < n && 0 <= b < n && a != b implies back[a]
        != back[b] by {
        assert(images[back[a] - 1] == a + 1);
        assert(images[back[b] - 1] == b + 1);
    }
    assert forall|k: int| 0 <= k < n implies back[#[trigger] images[k] - 1] == k + 1 by {
        let v = images[k];
        assert(1 <= v <= n);
        assert(images[back[v - 1] - 1] == v);
    }
}

/// Looking one place further along a row finds one more inversion where the
/// image at that place is smaller than the image at the start of the row, and
/// no more otherwise.
proof fn lemma_row_grows(images: Seq<usize>, i: int, j: int)
    requires
        0 <= i <= j < images.len(),
        inversions_in_row(images, i, j).finite(),
    ensures
        inversions_in_row(images, i, j + 1).finite(),
        inversions_in_row(images, i, j + 1).len() == inversions_in_row(images, i, j).len()
            + if images[i] > images[j] {
            1nat
        } else {
            0nat
        },
{
    let before = inversions_in_row(images, i, j);
    let after = inversions_in_row(images, i, j + 1);
    if images[i] > images[j] {
        assert(i < j);
        assert(after =~= before.insert((i, j)));
        assert(!before.contains((i, j)));
    } else {
        assert(after =~= before);
    }
}

/// The inversions of the first `i + 1` rows are those of the first `i` rows
/// and those of the row `i`.
proof fn lemma_rows_grow(images: Seq<usize>, i: int)
    requires
        0 <= i < images.len(),
        inversions_above(images, i).finite(),
        inversions_in_row(images, i, images.len() as int).finite(),
    ensures
        inversions_above(images, i + 1).finite(),
        inversions_above(images, i + 1).len() == inversions_above(images, i).len()
            + inversions_in_row(images, i, images.len() as int).len(),
{
    let above = inversions_above(images, i);
    let row = inversions_in_row(images, i, images.len() as int);
    assert(inversions_above(images, i + 1) =~= above + row);
    assert(above.disjoint(row));
    vstd::set_lib::lemma_set_disjoint_lens(above, row);
}

} // verus!
