//! Finite sums of integer-valued functions, and the facts about them that
//! the laws of polynomial multiplication rest on.

use vstd::prelude::*;

verus! {

/// The sum `f(0) + f(1) + ... + f(n - 1)`; zero where `n` is not positive.
pub open spec fn sum_to(f: spec_fn(int) -> int, n: int) -> int
    decreases n,
{
    if n <= 0 {
        0
    } else {
        sum_to(f, n - 1) + f(n - 1)
    }
}

/// Terms that are zero can be left off the end of a sum.
pub proof fn lemma_sum_zero_tail(f: spec_fn(int) -> int, short: int, long: int)
    requires
        0 <= short <= long,
        forall|i: int| short <= i < long ==> #[trigger] f(i) == 0,
    ensures
        sum_to(f, short) == sum_to(f, long),
    decreases long - short,
{
    if short < long {
        lemma_sum_zero_tail(f, short, long - 1);
    }
}

/// A sum can be split into its first term and the sum of the others.
pub proof fn lemma_sum_first(f: spec_fn(int) -> int, rest: spec_fn(int) -> int, n: int)
    requires
        n >= 1,
        forall|i: int| 0 <= i < n - 1 ==> #[trigger] rest(i) == f(i + 1),
    ensures
        sum_to(f, n) == f(0) + sum_to(rest, n - 1),
    decreases n,
{
    if n > 1 {
        lemma_sum_first(f, rest, n - 1);
        assert(rest(n - 2) == f(n - 1));
        assert(sum_to(rest, n - 1) == sum_to(rest, n - 2) + rest(n - 2));
    } else {
        assert(sum_to(f, 0) == 0);
        assert(sum_to(rest, 0) == 0);
    }
}

/// A sum does not depend on the direction in which its terms are taken.
pub proof fn lemma_sum_reversed(f: spec_fn(int) -> int, backwards: spec_fn(int) -> int, n: int)
    requires
        forall|j: int| 0 <= j < n ==> #[trigger] backwards(j) == f(n - 1 - j),
    ensures
        sum_to(f, n) == sum_to(backwards, n),
    decreases n,
{
    if n > 0 {
        let rest = |i: int| f(i + 1);
        lemma_sum_first(f, rest, n);
        assert forall|j: int| 0 <= j < n - 1 implies #[trigger] backwards(j) == rest(n - 2 - j) by {
            assert(backwards(j) == f(n - 1 - j));
        }
        lemma_sum_reversed(rest, backwards, n - 1);
        assert(backwards(n - 1) == f(0));
    }
}

} // verus!
