//! The reasoning behind the search for the cycles of a permutation: what
//! holds of the cycles found so far, and why a path through the permutation
//! comes back to its start.

use crate::permutation::{is_cycle_form_of, is_cycle_of, is_permutation, stands_in};
use crate::vec_helper::{lemma_push_to_set, unique_in_1_to_n};
use vstd::prelude::*;
use vstd::set_lib::{lemma_int_range, lemma_len_subset, set_int_range};

verus! {

/// Whether `place` tells of each number of `seen`, and of no other, where in
/// `form` it stands, and whether every place of `form` is told of.
spec fn covers(
    form: Seq<Seq<usize>>,
    place: Map<usize, (int, int)>,
    seen: Set<usize>,
) -> bool {
    &&& place.dom() == seen
    &&& forall|x: usize| #[trigger]
        seen.contains(x) ==> 0 <= place[x].0 < form.len() && 0 <= place[x].1
            < form[place[x].0].len() && form[place[x].0][place[x].1] == x
    &&& forall|a: int, k: int|
        0 <= a < form.len() && 0 <= k < form[a].len() ==> seen.contains(#[trigger] form[a][k])
            && place[form[a][k]] == (a, k)
}

/// `place`, extended by the places of the numbers of `cycle`, which is put
/// behind the cycles of `form`.
pub(crate) closed spec fn placed(
    form: Seq<Seq<usize>>,
    place: Map<usize, (int, int)>,
    cycle: Seq<usize>,
) -> Map<usize, (int, int)> {
    Map::new(
        |x: usize| place.dom().contains(x) || cycle.contains(x),
        |x: usize|
            if cycle.contains(x) {
                (form.len() as int, cycle.index_of(x))
            } else {
                place[x]
            },
    )
}

/// Whether the set `seen` of numbers of `{1, ..., n}` holds, with each
/// number, its image and the number that is mapped to it.
spec fn closed_under(seen: Set<usize>, images: Seq<usize>) -> bool {
    &&& forall|x: usize| #[trigger] seen.contains(x) ==> 1 <= x <= images.len()
    &&& forall|x: usize| #[trigger] seen.contains(x) ==> seen.contains(images[x - 1])
    &&& forall|k: int|
        0 <= k < images.len() && seen.contains(#[trigger] images[k]) ==> seen.contains(
            (k + 1) as usize,
        )
}

/// Whether the cycles of `form` are cycles of the permutation, each starting
/// with its least number, a number that is at most `bound`, and ordered by
/// their least numbers.
spec fn ordered_cycles(form: Seq<Seq<usize>>, images: Seq<usize>, bound: nat) -> bool {
    &&& forall|a: int| 0 <= a < form.len() ==> is_cycle_of(#[trigger] form[a], images)
    &&& forall|a: int, k: int|
        0 <= a < form.len() && 0 < k < form[a].len() ==> form[a][0] < #[trigger] form[a][k]
    &&& forall|a: int| 0 <= a < form.len() ==> (#[trigger] form[a])[0] <= bound
    &&& forall|a: int, b: int|
        0 <= a < b < form.len() ==> #[trigger] form[a][0] < #[trigger] form[b][0]
}

/// What holds of the search once the numbers `1, ..., bound` have been
/// looked at: the cycles found are `form`, their numbers are the set `seen`,
/// which holds every number up to `bound`, and `place` tells where each
/// stands.
pub(crate) closed spec fn found_so_far(
    form: Seq<Seq<usize>>,
    place: Map<usize, (int, int)>,
    seen: Set<usize>,
    images: Seq<usize>,
    bound: nat,
) -> bool {
    &&& covers(form, place, seen)
    &&& closed_under(seen, images)
    &&& ordered_cycles(form, images, bound)
    &&& forall|x: usize| 1 <= x <= bound ==> seen.contains(x)
}

/// Whether `path` is the start of a cycle of the permutation with the table
/// `images` that holds no number of `seen`: it is not empty, each of its
/// numbers is mapped to the next one, and no number occurs twice.
pub(crate) closed spec fn is_new_path(
    path: Seq<usize>,
    images: Seq<usize>,
    seen: Set<usize>,
) -> bool {
    &&& path.len() > 0
    &&& closed_under(seen, images)
    &&& forall|k: int| 0 <= k < path.len() ==> 1 <= #[trigger] path[k] <= images.len()
    &&& forall|k: int| 0 <= k < path.len() - 1 ==> images[#[trigger] path[k] - 1] == path[k + 1]
    &&& forall|k: int| 0 <= k < path.len() ==> !seen.contains(#[trigger] path[k])
    &&& path.no_duplicates()
}

/// A sequence of numbers of `{1, ..., n}`, none of them twice, has at most
/// `n` elements.
pub(crate) proof fn lemma_unique_length_bound(s: Seq<usize>, n: nat)
    requires
        unique_in_1_to_n(s, n),
    ensures
        s.len() <= n,
{
    let values = s.map_values(|x: usize| x as int);
    assert forall|a: int, b: int|
        0 <= a < values.len() && 0 <= b < values.len() && a != b implies values[a]
        != values[b] by {
        assert(s[a] != s[b]);
    }
    values.unique_seq_to_set();
    lemma_int_range(1, n as int + 1);
    let range = set_int_range(1, n as int + 1);
    assert forall|x: int| values.to_set().contains(x) implies range.contains(x) by {
        let a = choose|a: int| 0 <= a < values.len() && values[a] == x;
        assert(1 <= s[a] <= n);
    }
    lemma_len_subset(values.to_set(), range);
}

/// Before any number has been looked at, nothing has been found.
pub(crate) proof fn lemma_search_starts(images: Seq<usize>)
    ensures
        found_so_far(Seq::empty(), Map::empty(), Set::empty(), images, 0),
{
    assert(Map::<usize, (int, int)>::empty().dom() =~= Set::<usize>::empty());
}

/// A number that stands in a cycle found before needs no cycle of its own.
pub(crate) proof fn lemma_number_skipped(
    form: Seq<Seq<usize>>,
    place: Map<usize, (int, int)>,
    seen: Set<usize>,
    images: Seq<usize>,
    bound: nat,
)
    requires
        found_so_far(form, place, seen, images, bound),
        bound + 1 <= usize::MAX,
        seen.contains((bound + 1) as usize),
    ensures
        found_so_far(form, place, seen, images, bound + 1),
{
}

/// A number that stands in no cycle found before starts a path.
pub(crate) proof fn lemma_path_starts(
    form: Seq<Seq<usize>>,
    place: Map<usize, (int, int)>,
    seen: Set<usize>,
    images: Seq<usize>,
    bound: nat,
    start: usize,
)
    requires
        is_permutation(images),
        found_so_far(form, place, seen, images, bound),
        1 <= start <= images.len(),
        !seen.contains(start),
    ensures
        is_new_path(seq![start], images, seen),
        seen.insert(start) == seen.union(seq![start].to_set()),
        1 <= images[start - 1] <= images.len(),
{
    let path = seq![start];
    assert(path[0] == start);
    assert(seen.insert(start) =~= seen.union(path.to_set())) by {
        assert forall|y: usize| path.to_set().contains(y) <==> y == start by {
            if path.contains(y) {
                let k = choose|k: int| 0 <= k < path.len() && path[k] == y;
            }
            assert(path[0] == start);
        }
    }
}

/// A path that has not come back to its start goes on with a number that is
/// new: it stands neither in the path nor in a cycle found before.
pub(crate) proof fn lemma_path_grows(
    path: Seq<usize>,
    images: Seq<usize>,
    seen: Set<usize>,
    next: usize,
)
    requires
        is_permutation(images),
        is_new_path(path, images, seen),
        next == images[path.last() - 1],
        next != path[0],
    ensures
        is_new_path(path.push(next), images, seen),
        path.push(next).len() <= images.len(),
        seen.union(path.to_set()).insert(next) == seen.union(path.push(next).to_set()),
        1 <= images[next - 1] <= images.len(),
{
    let longer = path.push(next);
    let last = path.last();
    assert(1 <= path[path.len() - 1] <= images.len());
    assert(1 <= next <= images.len());
    if seen.contains(next) {
        assert(seen.contains(images[last - 1]));
        assert(seen.contains(((last - 1) + 1) as usize));
        assert(!seen.contains(path[path.len() - 1]));
    }
    assert forall|k: int| 0 <= k < path.len() implies path[k] != next by {
        if path[k] == next {
            assert(k > 0);
            assert(images[path[k - 1] - 1] == path[k]);
            assert(1 <= path[k - 1] <= images.len());
            assert(path[k - 1] == last);
        }
    }
    assert forall|k: int| 0 <= k < longer.len() implies 1 <= #[trigger] longer[k]
        <= images.len() && !seen.contains(longer[k]) by {
        if k < path.len() {
            assert(longer[k] == path[k]);
        }
    }
    assert forall|k: int| 0 <= k < longer.len() - 1 implies images[#[trigger] longer[k] - 1]
        == longer[k + 1] by {
        assert(longer[k] == path[k]);
    }
    assert forall|a: int, b: int|
        0 <= a < longer.len() && 0 <= b < longer.len() && a != b implies longer[a]
        != longer[b] by {
        if a < path.len() {
            assert(longer[a] == path[a]);
        }
        if b < path.len() {
            assert(longer[b] == path[b]);
        }
    }
    lemma_unique_length_bound(longer, images.len());
    lemma_push_to_set(path, next);
    assert(seen.union(path.to_set()).insert(next) =~= seen.union(longer.to_set()));
}

/// A path that has come back to its start is a cycle, and with its numbers
/// the set of the numbers found so far is closed again.
proof fn lemma_cycle_closes(cycle: Seq<usize>, images: Seq<usize>, seen: Set<usize>)
    requires
        is_permutation(images),
        is_new_path(cycle, images, seen),
        images[cycle.last() - 1] == cycle[0],
    ensures
        is_cycle_of(cycle, images),
        unique_in_1_to_n(cycle, images.len()),
        closed_under(seen.union(cycle.to_set()), images),
{
    let all = seen.union(cycle.to_set());
    let n = images.len();
    assert forall|x: usize| #[trigger] all.contains(x) implies 1 <= x <= n && all.contains(
        images[x - 1],
    ) by {
        if !seen.contains(x) {
            let k = choose|k: int| 0 <= k < cycle.len() && cycle[k] == x;
            assert(1 <= cycle[k] <= n);
            if k < cycle.len() - 1 {
                assert(images[cycle[k] - 1] == cycle[k + 1]);
                assert(cycle.contains(cycle[k + 1]));
            } else {
                assert(cycle.contains(cycle[0]));
            }
        }
    }
    assert forall|j: int| 0 <= j < n && all.contains(#[trigger] images[j]) implies all.contains(
        (j + 1) as usize,
    ) by {
        if !seen.contains(images[j]) {
            let k = choose|k: int| 0 <= k < cycle.len() && cycle[k] == images[j];
            let before = if k > 0 {
                k - 1
            } else {
                cycle.len() - 1
            };
            assert(images[cycle[before] - 1] == cycle[k]);
            assert(1 <= cycle[before] <= n);
            assert(cycle[before] - 1 == j);
            assert(cycle.contains(cycle[before]));
        }
    }
}

/// Where a new cycle is put behind the cycles found so far, every number
/// found so far has its place.
proof fn lemma_covers_more(
    form: Seq<Seq<usize>>,
    place: Map<usize, (int, int)>,
    seen: Set<usize>,
    cycle: Seq<usize>,
)
    requires
        covers(form, place, seen),
        cycle.no_duplicates(),
        forall|k: int| 0 <= k < cycle.len() ==> !seen.contains(#[trigger] cycle[k]),
    ensures
        covers(form.push(cycle), placed(form, place, cycle), seen.union(cycle.to_set())),
{
    let longer = form.push(cycle);
    let places = placed(form, place, cycle);
    let all = seen.union(cycle.to_set());
    assert(places.dom() =~= all);
    assert forall|x: usize| #[trigger] all.contains(x) implies 0 <= places[x].0 < longer.len()
        && 0 <= places[x].1 < longer[places[x].0].len() && longer[places[x].0][places[x].1]
        == x by {
        if cycle.contains(x) {
            assert(longer[form.len() as int] == cycle);
        } else {
            assert(seen.contains(x));
            assert(longer[place[x].0] == form[place[x].0]);
        }
    }
    assert forall|a: int, k: int|
        0 <= a < longer.len() && 0 <= k < longer[a].len() implies all.contains(
        #[trigger] longer[a][k],
    ) && places[longer[a][k]] == (a, k) by {
        if a < form.len() {
            assert(longer[a] == form[a]);
            assert(seen.contains(form[a][k]));
            if cycle.contains(form[a][k]) {
                let l = choose|l: int| 0 <= l < cycle.len() && cycle[l] == form[a][k];
                assert(!seen.contains(cycle[l]));
            }
        } else {
            assert(longer[a] == cycle);
            assert(cycle.contains(cycle[k]));
            let l = cycle.index_of(cycle[k]);
            assert(l == k);
        }
    }
}

/// A cycle that starts with the number behind `bound` takes its place behind
/// the cycles found before.
proof fn lemma_ordered_more(
    form: Seq<Seq<usize>>,
    images: Seq<usize>,
    bound: nat,
    cycle: Seq<usize>,
)
    requires
        ordered_cycles(form, images, bound),
        is_cycle_of(cycle, images),
        cycle[0] == bound + 1,
        forall|k: int| 0 < k < cycle.len() ==> cycle[0] < #[trigger] cycle[k],
    ensures
        ordered_cycles(form.push(cycle), images, bound + 1),
{
    let longer = form.push(cycle);
    assert forall|a: int| 0 <= a < longer.len() implies is_cycle_of(
        #[trigger] longer[a],
        images,
    ) && longer[a][0] <= bound + 1 by {
        if a < form.len() {
            assert(longer[a] == form[a]);
        }
    }
    assert forall|a: int, k: int|
        0 <= a < longer.len() && 0 < k < longer[a].len() implies longer[a][0]
        < #[trigger] longer[a][k] by {
        if a < form.len() {
            assert(longer[a] == form[a]);
        }
    }
    assert forall|a: int, b: int| 0 <= a < b < longer.len() implies #[trigger] longer[a][0]
        < #[trigger] longer[b][0] by {
        assert(longer[a] == form[a]);
        if b < form.len() {
            assert(longer[b] == form[b]);
        }
    }
}

/// A path from the number behind `bound` that has come back to its start is
/// the next cycle of the cycle form.
pub(crate) proof fn lemma_cycle_found(
    form: Seq<Seq<usize>>,
    place: Map<usize, (int, int)>,
    seen: Set<usize>,
    images: Seq<usize>,
    bound: nat,
    cycle: Seq<usize>,
)
    requires
        is_permutation(images),
        found_so_far(form, place, seen, images, bound),
        is_new_path(cycle, images, seen),
        cycle[0] == bound + 1,
        images[cycle.last() - 1] == cycle[0],
    ensures
        unique_in_1_to_n(cycle, images.len()),
        found_so_far(
            form.push(cycle),
            placed(form, place, cycle),
            seen.union(cycle.to_set()),
            images,
            bound + 1,
        ),
{
    lemma_cycle_closes(cycle, images, seen);
    assert(cycle.no_duplicates() && forall|k: int|
        0 <= k < cycle.len() ==> !seen.contains(#[trigger] cycle[k]));
    lemma_covers_more(form, place, seen, cycle);
    assert forall|k: int| 0 < k < cycle.len() implies cycle[0] < #[trigger] cycle[k] by {
        assert(!seen.contains(cycle[k]));
        assert(1 <= cycle[k]);
    }
    lemma_ordered_more(form, images, bound, cycle);
    let all = seen.union(cycle.to_set());
    assert forall|x: usize| 1 <= x <= bound + 1 implies all.contains(x) by {
        if x == bound + 1 {
            assert(cycle.contains(cycle[0]));
        }
    }
}

/// Once every number has been looked at, the cycles found are the cycle form
/// of the permutation.
pub(crate) proof fn lemma_search_ends(
    form: Seq<Seq<usize>>,
    place: Map<usize, (int, int)>,
    seen: Set<usize>,
    images: Seq<usize>,
)
    requires
        found_so_far(form, place, seen, images, images.len()),
    ensures
        is_cycle_form_of(form, images),
{
    assert forall|x: usize| 1 <= x <= images.len() implies #[trigger] stands_in(x, form) by {
        assert(seen.contains(x));
        let (a, k) = place[x];
        assert(form[a][k] == x);
    }
    assert forall|a: int, k: int, b: int, l: int|
        0 <= a < form.len() && 0 <= k < form[a].len() && 0 <= b < form.len() && 0 <= l
            < form[b].len() && #[trigger] form[a][k] == #[trigger] form[b][l] implies a == b && k
        == l by {
        assert(place[form[a][k]] == (a, k));
        assert(place[form[b][l]] == (b, l));
    }
}

/// A cycle of a permutation is known by its first number: two cycles of the
/// same permutation that start with the same number are the same.
pub proof fn lemma_cycle_known_by_start(c: Seq<usize>, d: Seq<usize>, images: Seq<usize>)
    requires
        is_cycle_of(c, images),
        is_cycle_of(d, images),
        c[0] == d[0],
    ensures
        c == d,
{
    lemma_cycles_agree(c, d, images, c.len() as int);
    lemma_cycles_agree(d, c, images, d.len() as int);
    assert(c =~= d);
}

/// Two cycles of a permutation with the same first number agree in their
/// first `upto` numbers.
proof fn lemma_cycles_agree(c: Seq<usize>, d: Seq<usize>, images: Seq<usize>, upto: int)
    requires
        is_cycle_of(c, images),
        is_cycle_of(d, images),
        c[0] == d[0],
        1 <= upto <= c.len(),
    ensures
        upto <= d.len(),
        forall|k: int| 0 <= k < upto ==> c[k] == d[k],
    decreases upto,
{
    if upto > 1 {
        lemma_cycles_agree(c, d, images, upto - 1);
        let k = upto - 1;
        assert(c[k - 1] == d[k - 1]);
        assert(images[c[k - 1] - 1] == c[k]);
        if d.len() == k {
            // `d` ends where `c` goes on: `c` would come back to its start
            // before its end.
            assert(images[d.last() - 1] == d[0]);
            assert(c[k] == c[0]);
        } else {
            assert(images[d[k - 1] - 1] == d[k]);
        }
    }
}

/// Two cycle forms of a permutation agree in their first `upto` cycles.
proof fn lemma_forms_agree(
    f: Seq<Seq<usize>>,
    g: Seq<Seq<usize>>,
    images: Seq<usize>,
    upto: int,
)
    requires
        is_cycle_form_of(f, images),
        is_cycle_form_of(g, images),
        0 <= upto <= f.len(),
    ensures
        upto <= g.len(),
        forall|a: int| 0 <= a < upto ==> f[a] == g[a],
    decreases upto,
{
    if upto > 0 {
        lemma_forms_agree(f, g, images, upto - 1);
        let a = upto - 1;
        assert(is_cycle_of(f[a], images));
        let x = f[a][0];
        // Where `x` stands in `g`: not in a cycle before the place `a`.
        assert(stands_in(x, g));
        let (b, l) = choose|b: int, l: int|
            0 <= b < g.len() && 0 <= l < g[b].len() && #[trigger] g[b][l] == x;
        if b < a {
            assert(f[b] == g[b]);
            assert(f[b][l] == f[a][0]);
        }
        assert(is_cycle_of(g[a], images));
        assert(is_cycle_of(g[b], images));
        assert(g[a][0] <= x) by {
            if a < b {
                assert(g[a][0] < g[b][0]);
            }
            if l > 0 {
                assert(g[b][0] < g[b][l]);
            }
        }
        // And the other way round.
        let y = g[a][0];
        assert(stands_in(y, f));
        let (c, m) = choose|c: int, m: int|
            0 <= c < f.len() && 0 <= m < f[c].len() && #[trigger] f[c][m] == y;
        if c < a {
            assert(f[c] == g[c]);
            assert(g[c][m] == g[a][0]);
        }
        assert(is_cycle_of(f[c], images));
        assert(x <= y) by {
            if a < c {
                assert(f[a][0] < f[c][0]);
            }
            if m > 0 {
                assert(f[c][0] < f[c][m]);
            }
        }
        lemma_cycle_known_by_start(f[a], g[a], images);
    }
}

/// A permutation has one cycle form only.
pub proof fn lemma_cycle_form_unique(f: Seq<Seq<usize>>, g: Seq<Seq<usize>>, images: Seq<usize>)
    requires
        is_cycle_form_of(f, images),
        is_cycle_form_of(g, images),
    ensures
        f == g,
{
    lemma_forms_agree(f, g, images, f.len() as int);
    lemma_forms_agree(g, f, images, g.len() as int);
    assert(f =~= g);
}

} // verus!
