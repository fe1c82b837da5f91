//! Helper functions on coefficient vectors, shared by the polynomial and the
//! permutation modules.

use crate::poly::{is_zero_in, valid_modulus, Modulus};
use std::collections::HashSet;
use std::ops::Mul;
use vstd::prelude::*;
use vstd::std_specs::ops::MulSpec;

verus! {

broadcast use vstd::std_specs::hash::group_hash_axioms;

/// The mathematical integers that a sequence of machine integers holds.
pub open spec fn as_ints(s: Seq<i32>) -> Seq<int> {
    s.map_values(|c: i32| c as int)
}

/// The length of `s` once every trailing element that is zero in the ring
/// `modulus` has been cut.
pub open spec fn trimmed_len(s: Seq<int>, modulus: Modulus) -> nat
    decreases s.len(),
{
    if s.len() > 0 && is_zero_in(s.last(), modulus) {
        trimmed_len(s.drop_last(), modulus)
    } else {
        s.len()
    }
}

/// `s` without its trailing zeros of the ring `modulus`.
pub open spec fn trimmed(s: Seq<int>, modulus: Modulus) -> Seq<int> {
    s.take(trimmed_len(s, modulus) as int)
}

/// Whether `s` ends in an element that is not zero in the ring `modulus`, or
/// is empty.
pub open spec fn is_trimmed(s: Seq<int>, modulus: Modulus) -> bool {
    s.len() > 0 ==> !is_zero_in(s.last(), modulus)
}

/// `s` with `amount` zeros in front.
pub open spec fn shifted(s: Seq<int>, amount: nat) -> Seq<int> {
    Seq::new(amount, |k: int| 0int) + s
}

/// `s` with every element multiplied by `factor`.
pub open spec fn scaled(s: Seq<int>, factor: int) -> Seq<int> {
    s.map_values(|c: int| factor * c)
}

/// Whether every element of `s` lies in `1..=n` and none occurs twice.
pub open spec fn unique_in_1_to_n(s: Seq<usize>, n: nat) -> bool {
    &&& forall|i: int| 0 <= i < s.len() ==> 1 <= #[trigger] s[i] <= n
    &&& s.no_duplicates()
}

/// The trimmed length never exceeds the length.
pub proof fn lemma_trimmed_len_bound(s: Seq<int>, modulus: Modulus)
    ensures
        trimmed_len(s, modulus) <= s.len(),
    decreases s.len(),
{
    if s.len() > 0 && is_zero_in(s.last(), modulus) {
        lemma_trimmed_len_bound(s.drop_last(), modulus);
    }
}

/// A trimmed sequence is in trimmed form, and every element that was cut is
/// zero in the ring.
pub proof fn lemma_trimmed_properties(s: Seq<int>, modulus: Modulus)
    ensures
        trimmed_len(s, modulus) <= s.len(),
        is_trimmed(trimmed(s, modulus), modulus),
        forall|i: int|
            trimmed_len(s, modulus) <= i < s.len() ==> is_zero_in(#[trigger] s[i], modulus),
    decreases s.len(),
{
    if s.len() > 0 && is_zero_in(s.last(), modulus) {
        let t = s.drop_last();
        lemma_trimmed_properties(t, modulus);
        assert(trimmed(t, modulus) =~= trimmed(s, modulus));
        assert forall|i: int| trimmed_len(s, modulus) <= i < s.len() implies is_zero_in(
            #[trigger] s[i],
            modulus,
        ) by {
            if i < t.len() {
                assert(s[i] == t[i]);
            }
        }
    } else {
        assert(trimmed(s, modulus) =~= s);
    }
}

/// A sequence in trimmed form is left as it is.
pub proof fn lemma_trimmed_fixed(s: Seq<int>, modulus: Modulus)
    requires
        is_trimmed(s, modulus),
    ensures
        trimmed(s, modulus) == s,
{
    assert(s.take(s.len() as int) =~= s);
}

/// Trailing elements that are zero in the ring do not change what remains
/// after trimming.
pub proof fn lemma_trimmed_extension(short: Seq<int>, long: Seq<int>, modulus: Modulus)
    requires
        short.len() <= long.len(),
        forall|k: int| 0 <= k < short.len() ==> short[k] == long[k],
        forall|k: int| short.len() <= k < long.len() ==> is_zero_in(#[trigger] long[k], modulus),
    ensures
        trimmed(short, modulus) == trimmed(long, modulus),
    decreases long.len() - short.len(),
{
    if short.len() == long.len() {
        assert(short =~= long);
    } else {
        let rest = long.drop_last();
        assert(is_zero_in(long[long.len() - 1], modulus));
        lemma_trimmed_extension(short, rest, modulus);
        lemma_trimmed_len_bound(rest, modulus);
        assert(trimmed(rest, modulus) =~= trimmed(long, modulus));
    }
}

/// A sequence of zeros of the ring is trimmed to the empty sequence.
pub proof fn lemma_trimmed_zeros(s: Seq<int>, modulus: Modulus)
    requires
        forall|k: int| 0 <= k < s.len() ==> is_zero_in(#[trigger] s[k], modulus),
    ensures
        trimmed(s, modulus) == Seq::<int>::empty(),
{
    lemma_trimmed_extension(Seq::<int>::empty(), s, modulus);
    assert(trimmed(Seq::<int>::empty(), modulus) =~= Seq::<int>::empty());
}

/// The elements of a sequence with one more element are those of the
/// sequence and the new element.
pub proof fn lemma_push_to_set<A>(s: Seq<A>, x: A)
    ensures
        s.push(x).to_set() == s.to_set().insert(x),
{
    let longer = s.push(x);
    assert forall|y: A| longer.to_set().contains(y) <==> s.to_set().insert(x).contains(y) by {
        if s.contains(y) {
            let k = choose|k: int| 0 <= k < s.len() && s[k] == y;
            assert(longer[k] == y);
        }
        if longer.contains(y) {
            let k = choose|k: int| 0 <= k < longer.len() && longer[k] == y;
            if k < s.len() {
                assert(s[k] == y);
            }
        }
        assert(longer[s.len() as int] == x);
    }
    assert(longer.to_set() =~= s.to_set().insert(x));
}

/// Removes the trailing zeros of the ring `modulus` from `vec`: over the
/// integers the trailing zeros, over the integers modulo `q` the trailing
/// multiples of `q`. What is left is the longest front part of `vec` that is
/// empty or ends in an element that is not zero in the ring.
pub fn remove_trailing_zeros(vec: &mut Vec<i32>, modulus: Modulus)
    requires
        valid_modulus(modulus),
    ensures
        final(vec)@ == old(vec)@.take(trimmed_len(as_ints(old(vec)@), modulus) as int),
        as_ints(final(vec)@) == trimmed(as_ints(old(vec)@), modulus),
        final(vec)@.len() <= old(vec)@.len(),
        is_trimmed(as_ints(final(vec)@), modulus),
        forall|i: int|
            final(vec)@.len() <= i < old(vec)@.len() ==> is_zero_in(
                #[trigger] old(vec)@[i] as int,
                modulus,
            ),
{
    let ghost full = as_ints(vec@);
    let mut n: usize = vec.len();
    loop
        invariant
            valid_modulus(modulus),
            full == as_ints(old(vec)@),
            n == vec@.len(),
            n <= old(vec)@.len(),
            vec@ == old(vec)@.take(n as int),
            trimmed_len(full, modulus) == trimmed_len(as_ints(vec@), modulus),
        ensures
            vec@ == old(vec)@.take(n as int),
            n == trimmed_len(full, modulus),
        decreases n,
    {
        if n == 0 {
            break;
        }
        let last: i32 = vec[n - 1];
        let vanishes: bool = match modulus {
            None => last == 0,
            Some(q) => last % q == 0,
        };
        proof {
            assert(as_ints(vec@).last() == last as int);
            assert(vanishes == is_zero_in(last as int, modulus));
        }
        if !vanishes {
            break;
        }
        proof {
            assert(as_ints(vec@).drop_last() =~= as_ints(vec@.drop_last()));
            assert(vec@.drop_last() =~= old(vec)@.take(n - 1));
        }
        vec.pop();
        n = vec.len();
    }
    proof {
        lemma_trimmed_properties(full, modulus);
        assert(as_ints(vec@) =~= trimmed(full, modulus));
        assert forall|i: int| vec@.len() <= i < old(vec)@.len() implies is_zero_in(
            #[trigger] old(vec)@[i] as int,
            modulus,
        ) by {
            assert(full[i] == old(vec)@[i] as int);
        }
    }
}

/// Returns `vec` with `amt` zeros in front: the coefficients of the
/// polynomial multiplied by `X^amt`.
pub fn shift_vector(vec: &Vec<i32>, amt: usize) -> (result: Vec<i32>)
    ensures
        result@ == Seq::new(amt as nat, |k: int| 0i32) + vec@,
        as_ints(result@) == shifted(as_ints(vec@), amt as nat),
{
    let mut result: Vec<i32> = Vec::new();
    for k in 0..amt
        invariant
            result@ == Seq::new(k as nat, |k: int| 0i32),
    {
        result.push(0);
        assert(result@ =~= Seq::new((k + 1) as nat, |k: int| 0i32));
    }
    for i in 0..vec.len()
        invariant
            result@ == Seq::new(amt as nat, |k: int| 0i32) + vec@.take(i as int),
    {
        result.push(vec[i]);
        assert(result@ =~= Seq::new(amt as nat, |k: int| 0i32) + vec@.take(i + 1));
    }
    assert(vec@.take(vec@.len() as int) =~= vec@);
    assert(as_ints(result@) =~= shifted(as_ints(vec@), amt as nat));
    result
}

/// Multiplies every element of `vec` by `amt`, on the left. The element type
/// is any copyable type with a multiplication that stays within the type.
pub fn scale_vector<T>(vec: &Vec<T>, amt: T) -> (result: Vec<T>) where T: Mul<Output = T> + Copy
    requires
        forall|i: int| 0 <= i < vec@.len() ==> #[trigger] amt.mul_req(vec@[i]),
    ensures
        result@.len() == vec@.len(),
        T::obeys_mul_spec() ==> forall|i: int|
            0 <= i < vec@.len() ==> #[trigger] result@[i] == amt.mul_spec(vec@[i]),
{
    let mut result: Vec<T> = Vec::new();
    for i in 0..vec.len()
        invariant
            forall|j: int| 0 <= j < vec@.len() ==> #[trigger] amt.mul_req(vec@[j]),
            result@.len() == i,
            T::obeys_mul_spec() ==> forall|j: int|
                0 <= j < i ==> #[trigger] result@[j] == amt.mul_spec(vec@[j]),
    {
        let x: T = vec[i];
        result.push(amt * x);
    }
    result
}

/// Tells whether every number of `vec` lies in `1..=n` and none occurs twice.
pub fn check_unique_in_1_to_n(vec: &Vec<usize>, n: usize) -> (unique: bool)
    ensures
        unique == unique_in_1_to_n(vec@, n as nat),
{
    let mut occured_numbers: HashSet<usize> = HashSet::new();
    for k in 0..vec.len()
        invariant
            occured_numbers@ == vec@.take(k as int).to_set(),
            unique_in_1_to_n(vec@.take(k as int), n as nat),
    {
        let num: usize = vec[k];
        proof {
            assert(vec@.take(k + 1) =~= vec@.take(k as int).push(num));
        }
        if occured_numbers.contains(&num) {
            proof {
                let j = choose|j: int| 0 <= j < k && vec@.take(k as int)[j] == num;
                assert(vec@[j] == vec@[k as int] && j != k);
            }
            return false;
        } else if 1 <= num && num <= n {
            occured_numbers.insert(num);
            proof {
                let before = vec@.take(k as int);
                let now = vec@.take(k + 1);
                lemma_push_to_set(before, num);
                assert forall|i: int, j: int|
                    0 <= i < now.len() && 0 <= j < now.len() && i != j implies now[i]
                    != now[j] by {
                    if i < k && j < k {
                        assert(before[i] != before[j]);
                    } else if i < k {
                        assert(before.contains(before[i]));
                    } else {
                        assert(before.contains(before[j]));
                    }
                }
            }
        } else {
            assert(vec@[k as int] == num);
            return false;
        }
    }
    assert(vec@.take(vec@.len() as int) =~= vec@);
    true
}

} // verus!
