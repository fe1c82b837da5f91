//! Classic sorting algorithms on vectors of unsigned integers. Each returns,
//! or leaves behind, the elements it was given in ascending order.

use std::collections::HashMap;
use vstd::prelude::*;
use vstd::seq_lib::lemma_multiset_commutative;

verus! {

broadcast use {
    vstd::seq_lib::group_to_multiset_ensures,
    vstd::multiset::group_multiset_axioms,
    vstd::std_specs::hash::group_hash_axioms,
};

/// Whether the elements of `s` stand in ascending order.
pub open spec fn is_sorted(s: Seq<u32>) -> bool {
    forall|i: int, j: int| 0 <= i <= j < s.len() ==> s[i] <= s[j]
}

/// Whether `sorted` holds the elements of `unsorted`, each as often as
/// `unsorted` does, in ascending order.
pub open spec fn is_sorting_of(sorted: Seq<u32>, unsorted: Seq<u32>) -> bool {
    is_sorted(sorted) && sorted.to_multiset() == unsorted.to_multiset()
}

/// Returns the elements of `a` from the place `from` up to, but without, the
/// place `to`.
fn copy_range(a: &Vec<u32>, from: usize, to: usize) -> (part: Vec<u32>)
    requires
        from <= to <= a@.len(),
    ensures
        part@ == a@.subrange(from as int, to as int),
{
    let mut part: Vec<u32> = Vec::new();
    for k in from..to
        invariant
            from <= to <= a@.len(),
            part@ == a@.subrange(from as int, k as int),
    {
        part.push(a[k]);
        assert(part@ =~= a@.subrange(from as int, k + 1));
    }
    part
}

/// Merges two sorted vectors into one sorted vector: two cursors walk through
/// `left` and `right`, and the smaller of the two current elements is taken.
fn merge(left: &Vec<u32>, right: &Vec<u32>) -> (result: Vec<u32>)
    requires
        is_sorted(left@),
        is_sorted(right@),
    ensures
        is_sorting_of(result@, left@ + right@),
{
    let mut left_current: usize = 0;
    let mut right_current: usize = 0;
    let mut result: Vec<u32> = Vec::new();
    proof {
        lemma_multiset_commutative(left@.take(0), right@.take(0));
        assert((left@.take(0) + right@.take(0)) =~= Seq::<u32>::empty());
    }
    while left_current < left.len() && right_current < right.len()
        invariant
            is_sorted(left@),
            is_sorted(right@),
            left_current <= left@.len(),
            right_current <= right@.len(),
            is_sorted(result@),
            result@.to_multiset() == left@.take(left_current as int).to_multiset().add(
                right@.take(right_current as int).to_multiset(),
            ),
            forall|k: int|
                0 <= k < result@.len() && left_current < left@.len() ==> result@[k]
                    <= left@[left_current as int],
            forall|k: int|
                0 <= k < result@.len() && right_current < right@.len() ==> result@[k]
                    <= right@[right_current as int],
        decreases left@.len() - left_current + right@.len() - right_current,
    {
        if left[left_current] <= right[right_current] {
            proof {
                assert(left@.take(left_current + 1) =~= left@.take(left_current as int).push(
                    left@[left_current as int],
                ));
            }
            result.push(left[left_current]);
            left_current += 1;
        } else {
            proof {
                assert(right@.take(right_current + 1) =~= right@.take(right_current as int).push(
                    right@[right_current as int],
                ));
            }
            result.push(right[right_current]);
            right_current += 1;
        }
    }
    for i in left_current..left.len()
        invariant
            is_sorted(left@),
            left_current <= left@.len(),
            right_current <= right@.len(),
            left_current < left@.len() ==> right_current == right@.len(),
            is_sorted(result@),
            result@.to_multiset() == left@.take(i as int).to_multiset().add(
                right@.take(right_current as int).to_multiset(),
            ),
            forall|k: int|
                0 <= k < result@.len() && i < left@.len() ==> result@[k] <= left@[i as int],
            forall|k: int|
                0 <= k < result@.len() && right_current < right@.len() ==> result@[k]
                    <= right@[right_current as int],
    {
        proof {
            assert(left@.take(i + 1) =~= left@.take(i as int).push(left@[i as int]));
        }
        result.push(left[i]);
    }
    proof {
        assert(left@.take(left@.len() as int) =~= left@);
    }
    for j in right_current..right.len()
        invariant
            is_sorted(right@),
            right_current <= right@.len(),
            is_sorted(result@),
            result@.to_multiset() == left@.to_multiset().add(right@.take(j as int).to_multiset()),
            forall|k: int|
                0 <= k < result@.len() && j < right@.len() ==> result@[k] <= right@[j as int],
    {
        proof {
            assert(right@.take(j + 1) =~= right@.take(j as int).push(right@[j as int]));
        }
        result.push(right[j]);
    }
    proof {
        assert(right@.take(right@.len() as int) =~= right@);
        lemma_multiset_commutative(left@, right@);
    }
    result
}

/// Sorts by merge sort: the vector is split in two halves, the halves are
/// sorted recursively, and the two sorted halves are merged.
pub fn merge_sort(a: &Vec<u32>) -> (sorted: Vec<u32>)
    ensures
        is_sorting_of(sorted@, a@),
    decreases a@.len(),
{
    if a.len() <= 1 {
        return a.clone();
    }
    let m: usize = a.len() / 2;
    let left: Vec<u32> = copy_range(a, 0, m);
    let right: Vec<u32> = copy_range(a, m, a.len());
    let left_sorted: Vec<u32> = merge_sort(&left);
    let right_sorted: Vec<u32> = merge_sort(&right);
    proof {
        assert(a@ =~= left@ + right@);
        lemma_multiset_commutative(left@, right@);
        lemma_multiset_commutative(left_sorted@, right_sorted@);
    }
    merge(&left_sorted, &right_sorted)
}

/// Sorts `a` in place by insertion: one after the other, each element is
/// moved to its place among the elements before it, which are sorted
/// already.
pub fn insertion_sort(a: &mut Vec<u32>)
    ensures
        is_sorting_of(final(a)@, old(a)@),
{
    let n: usize = a.len();
    let mut j: usize = 1;
    while j < n
        invariant
            n == a@.len(),
            1 <= j,
            a@.to_multiset() == old(a)@.to_multiset(),
            forall|x: int, y: int| 0 <= x <= y < j && y < n ==> a@[x] <= a@[y],
        decreases n - j,
    {
        let key: u32 = a[j];
        let ghost start = a@;
        let mut i: usize = j;
        while i > 0 && a[i - 1] > key
            invariant
                n == a@.len(),
                i <= j < n,
                a@.update(i as int, key).to_multiset() == start.to_multiset(),
                forall|x: int, y: int| 0 <= x <= y < i ==> a@[x] <= a@[y],
                forall|x: int, y: int| i < x <= y <= j ==> a@[x] <= a@[y],
                forall|x: int, y: int| 0 <= x < i && i < y <= j ==> a@[x] <= a@[y],
                forall|y: int| i < y <= j ==> key < a@[y],
            decreases i,
        {
            let ghost before = a@;
            let moved: u32 = a[i - 1];
            a[i] = moved;
            proof {
                let filled = before.update(i as int, key);
                let swapped = filled.update(i as int, moved).update(i - 1, key);
                assert(swapped =~= a@.update(i - 1, key));
                assert(swapped.to_multiset() =~= filled.to_multiset());
            }
            i -= 1;
        }
        a[i] = key;
        j += 1;
    }
    proof {
        assert(is_sorted(a@));
    }
}

/// Sorts by quicksort: the elements after the first are split into those
/// that are at most the first element, the pivot, and those that are
/// greater; both parts are sorted recursively and put left and right of the
/// pivot.
pub fn quicksort(a: &Vec<u32>) -> (sorted: Vec<u32>)
    ensures
        is_sorting_of(sorted@, a@),
    decreases a@.len(),
{
    if a.len() <= 1 {
        return a.clone();
    }
    let pivot: u32 = a[0];
    let mut left: Vec<u32> = Vec::new();
    let mut right: Vec<u32> = Vec::new();
    proof {
        assert(a@.take(1) =~= Seq::<u32>::empty().push(pivot));
    }
    for k in 1..a.len()
        invariant
            pivot == a@[0],
            left@.len() + right@.len() == k - 1,
            forall|i: int| 0 <= i < left@.len() ==> left@[i] <= pivot,
            forall|i: int| 0 <= i < right@.len() ==> right@[i] > pivot,
            a@.take(k as int).to_multiset() == left@.to_multiset().add(
                right@.to_multiset(),
            ).insert(pivot),
    {
        proof {
            assert(a@.take(k + 1) =~= a@.take(k as int).push(a@[k as int]));
        }
        if a[k] <= pivot {
            left.push(a[k]);
        } else {
            right.push(a[k]);
        }
    }
    let mut left_sorted: Vec<u32> = quicksort(&left);
    let mut right_sorted: Vec<u32> = quicksort(&right);
    let ghost low = left_sorted@;
    let ghost high = right_sorted@;
    let mut result: Vec<u32> = Vec::new();
    result.append(&mut left_sorted);
    result.push(pivot);
    result.append(&mut right_sorted);
    proof {
        assert(a@.take(a@.len() as int) =~= a@);
        assert(result@ =~= low.push(pivot) + high);
        lemma_multiset_commutative(low.push(pivot), high);
        assert forall|i: int| 0 <= i < low.len() implies low[i] <= pivot by {
            assert(low.contains(low[i]));
            assert(left@.to_multiset().count(low[i]) > 0);
            assert(left@.contains(low[i]));
        }
        assert forall|i: int| 0 <= i < high.len() implies high[i] > pivot by {
            assert(high.contains(high[i]));
            assert(right@.to_multiset().count(high[i]) > 0);
            assert(right@.contains(high[i]));
        }
        assert(result@.to_multiset() =~= a@.to_multiset());
        assert(is_sorted(result@));
    }
    result
}

/// The error of a sorting algorithm that was handed an input it cannot
/// sort.
#[derive(Debug, PartialEq)]
pub struct SortingInstanceError;

/// How often `counts` has counted the number `x`.
pub open spec fn counted(counts: Map<u32, usize>, x: u32) -> nat {
    if counts.contains_key(x) {
        counts[x] as nat
    } else {
        0
    }
}

/// Sorts by counting sort, given an upper bound `s` on the elements of `a`:
/// it is counted how often each number occurs, and then each number from 0
/// up to `s` is written as often as it was counted. Where an element of `a`
/// is greater than `s`, an error is returned.
pub fn counting_sort(a: &Vec<u32>, s: u32) -> (sorted: Result<Vec<u32>, SortingInstanceError>)
    ensures
        match sorted {
            Ok(result) => is_sorting_of(result@, a@) && forall|k: int|
                0 <= k < a@.len() ==> a@[k] <= s,
            Err(_) => exists|k: int| 0 <= k < a@.len() && a@[k] > s,
        },
{
    for k in 0..a.len()
        invariant
            forall|i: int| 0 <= i < k ==> a@[i] <= s,
    {
        if a[k] > s {
            return Err(SortingInstanceError);
        }
    }
    let ghost all = a@.to_multiset();
    let mut counts: HashMap<u32, usize> = HashMap::new();
    let mut result: Vec<u32> = Vec::new();
    for k in 0..a.len()
        invariant
            forall|x: u32| counted(counts@, x) == a@.take(k as int).to_multiset().count(x),
    {
        let x: u32 = a[k];
        proof {
            assert(a@.take(k + 1) =~= a@.take(k as int).push(x));
            assert(a@.take(k as int).to_multiset().len() == k);
            assert(a@.take(k as int).to_multiset().count(x) <= a@.take(
                k as int,
            ).to_multiset().len());
        }
        let ghost before = counts@;
        let count = counts.entry(x).or_insert(0);
        proof {
            assert(*count == counted(before, x));
        }
        *count += 1;
        proof {
            assert(counts@ == before.insert(x, (counted(before, x) + 1) as usize));
            assert forall|y: u32| counted(counts@, y) == a@.take(k + 1).to_multiset().count(
                y,
            ) by {
                assert(counted(before, y) == a@.take(k as int).to_multiset().count(y));
            }
        }
    }
    proof {
        assert(a@.take(a@.len() as int) =~= a@);
        assert forall|x: u32| x > s implies all.count(x) == 0 by {
            if all.count(x) > 0 {
                assert(a@.contains(x));
            }
        }
    }
    let mut i: u32 = 0;
    loop
        invariant_except_break
            i <= s,
            is_sorted(result@),
            forall|k: int| 0 <= k < result@.len() ==> result@[k] < i,
            forall|x: u32| result@.to_multiset().count(x) == if x < i { all.count(x) } else { 0 },
        invariant
            all == a@.to_multiset(),
            forall|x: u32| counted(counts@, x) == all.count(x),
            forall|x: u32| x > s ==> all.count(x) == 0,
        ensures
            is_sorted(result@),
            forall|x: u32| result@.to_multiset().count(x) == all.count(x),
        decreases s - i,
    {
        let times: usize = match counts.get(&i) {
            Some(c) => *c,
            None => 0,
        };
        proof {
            assert(times == counted(counts@, i));
        }
        for j in 0..times
            invariant
                is_sorted(result@),
                forall|k: int| 0 <= k < result@.len() ==> result@[k] <= i,
                forall|x: u32|
                    result@.to_multiset().count(x) == if x < i {
                        all.count(x)
                    } else if x == i {
                        j as nat
                    } else {
                        0
                    },
        {
            result.push(i);
        }
        if i == s {
            break;
        }
        i += 1;
    }
    proof {
        assert(result@.to_multiset() =~= all);
    }
    Ok(result)
}

} // verus!
