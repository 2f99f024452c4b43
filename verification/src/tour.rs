//! Tours: orderings of the point indices `0..n` in which every index occurs
//! exactly once, and the sequence operations the engines build them with.

use vstd::prelude::*;
use vstd::seq_lib::*;
use vstd::set_lib::*;

verus! {

/// `path` visits each of the `n` points exactly once.
pub open spec fn is_tour(path: Seq<u16>, n: nat) -> bool {
    &&& path.len() == n
    &&& path.no_duplicates()
    &&& forall|i: int| 0 <= i < path.len() ==> (#[trigger] path[i]) < n
}

/// `path` visits no point twice and only points below `n`.
pub open spec fn is_partial_tour(path: Seq<u16>, n: nat) -> bool {
    &&& path.no_duplicates()
    &&& forall|i: int| 0 <= i < path.len() ==> (#[trigger] path[i]) < n
}

/// The tour `0, 1, .., n - 1`.
pub open spec fn identity_tour(n: nat) -> Seq<u16> {
    Seq::new(n, |i: int| i as u16)
}

/// A partial tour over `n` points has at most `n` entries.
pub proof fn lemma_partial_tour_len(path: Seq<u16>, n: nat)
    requires
        is_partial_tour(path, n),
    ensures
        path.len() <= n,
{
    let ints = path.map_values(|c: u16| c as int);
    assert(ints.no_duplicates());
    ints.unique_seq_to_set();
    lemma_int_range(0, n as int);
    assert(ints.to_set().subset_of(set_int_range(0, n as int))) by {
        assert forall|x: int| ints.to_set().contains(x) implies set_int_range(0, n as int).contains(
            x,
        ) by {
            let i = choose|i: int| 0 <= i < ints.len() && ints[i] == x;
            assert(path[i] < n);
        }
    }
    lemma_len_subset(ints.to_set(), set_int_range(0, n as int));
}

/// A partial tour that has `n` entries visits every point.
pub proof fn lemma_full_tour_contains(path: Seq<u16>, n: nat, city: u16)
    requires
        is_partial_tour(path, n),
        path.len() == n,
        city < n,
    ensures
        path.contains(city),
{
    let ints = path.map_values(|c: u16| c as int);
    assert(ints.no_duplicates());
    ints.unique_seq_to_set();
    lemma_int_range(0, n as int);
    assert(ints.to_set().subset_of(set_int_range(0, n as int))) by {
        assert forall|x: int| ints.to_set().contains(x) implies set_int_range(0, n as int).contains(
            x,
        ) by {
            let i = choose|i: int| 0 <= i < ints.len() && ints[i] == x;
            assert(path[i] < n);
        }
    }
    broadcast use vstd::seq_lib::seq_to_set_is_finite;
    lemma_subset_equality(ints.to_set(), set_int_range(0, n as int));
    assert(set_int_range(0, n as int).contains(city as int));
    assert(ints.to_set().contains(city as int));
    let i = choose|i: int| 0 <= i < ints.len() && ints[i] == city as int;
    assert(path[i] == city);
}

/// A sequence with the entries of a tour, in any order, is a tour.
pub proof fn lemma_rearranged_tour(before: Seq<u16>, after: Seq<u16>, n: nat)
    requires
        is_tour(before, n),
        before.to_multiset() == after.to_multiset(),
    ensures
        is_tour(after, n),
{
    broadcast use vstd::seq_lib::group_to_multiset_ensures;
    before.lemma_multiset_has_no_duplicates();
    after.lemma_multiset_has_no_duplicates_conv();
    to_multiset_len(before);
    to_multiset_len(after);
    assert forall|i: int| 0 <= i < after.len() implies (#[trigger] after[i]) < n by {
        assert(after.to_multiset().count(after[i]) > 0);
        assert(before.to_multiset().count(after[i]) > 0);
        assert(before.contains(after[i]));
        let j = choose|j: int| 0 <= j < before.len() && before[j] == after[i];
        assert(before[j] < n);
    }
}

/// Whether `path` holds `city`.
pub fn contains(path: &Vec<u16>, city: u16) -> (found: bool)
    ensures
        found == path@.contains(city),
{
    let mut i: usize = 0;
    while i < path.len()
        invariant
            i <= path.len(),
            forall|k: int| 0 <= k < i ==> path@[k] != city,
        decreases path.len() - i,
    {
        if path[i] == city {
            return true;
        }
        i += 1;
    }
    false
}

/// The first position at which `path` holds `city`.
pub fn position_of(path: &Vec<u16>, city: u16) -> (index: usize)
    requires
        path@.contains(city),
    ensures
        index < path@.len(),
        path@[index as int] == city,
        forall|k: int| 0 <= k < index ==> path@[k] != city,
{
    let mut i: usize = 0;
    while i < path.len()
        invariant
            i <= path.len(),
            path@.contains(city),
            forall|k: int| 0 <= k < i ==> path@[k] != city,
        decreases path.len() - i,
    {
        if path[i] == city {
            return i;
        }
        i += 1;
    }
    proof {
        let k = choose|k: int| 0 <= k < path@.len() && path@[k] == city;
        assert(path@[k] != city);
    }
    0
}

/// A copy of the entries of `path` from position `from` up to, not
/// including, position `to`.
pub fn slice_of(path: &Vec<u16>, from: usize, to: usize) -> (part: Vec<u16>)
    requires
        from <= to <= path@.len(),
    ensures
        part@ == path@.subrange(from as int, to as int),
{
    let mut part: Vec<u16> = Vec::with_capacity(to - from);
    let mut i: usize = from;
    while i < to
        invariant
            from <= i <= to <= path@.len(),
            part@ == path@.subrange(from as int, i as int),
        decreases to - i,
    {
        part.push(path[i]);
        proof {
            assert(part@ =~= path@.subrange(from as int, i + 1));
        }
        i += 1;
    }
    part
}

/// `path` with the stretch from position `i` to position `j`, both included,
/// turned round.
pub open spec fn with_reversed(path: Seq<u16>, i: int, j: int) -> Seq<u16> {
    path.subrange(0, i) + path.subrange(i, j + 1).reverse() + path.subrange(j + 1, path.len() as int)
}

/// What `with_reversed` holds at each position.
pub proof fn lemma_with_reversed_index(path: Seq<u16>, i: int, j: int)
    requires
        0 <= i <= j < path.len(),
    ensures
        with_reversed(path, i, j).len() == path.len(),
        forall|k: int|
            0 <= k < path.len() ==> #[trigger] with_reversed(path, i, j)[k] == if i <= k <= j {
                path[i + j - k]
            } else {
                path[k]
            },
{
}

/// Turning a stretch round keeps the entries.
pub proof fn lemma_with_reversed_multiset(path: Seq<u16>, i: int, j: int)
    requires
        0 <= i <= j < path.len(),
    ensures
        with_reversed(path, i, j).to_multiset() == path.to_multiset(),
{
    let head = path.subrange(0, i);
    let stretch = path.subrange(i, j + 1);
    let tail = path.subrange(j + 1, path.len() as int);
    assert(path =~= head + stretch + tail);
    stretch.lemma_reverse_to_multiset();
    lemma_multiset_commutative(head, stretch);
    lemma_multiset_commutative(head + stretch, tail);
    lemma_multiset_commutative(head, stretch.reverse());
    lemma_multiset_commutative(head + stretch.reverse(), tail);
}

/// Turns the stretch of `path` from position `i` to position `j`, both
/// included, round in place.
pub fn reverse_range(path: &mut Vec<u16>, i: usize, j: usize)
    requires
        i <= j < old(path)@.len(),
    ensures
        final(path)@ == with_reversed(old(path)@, i as int, j as int),
{
    let mut low: usize = i;
    let mut high: usize = j;
    while low < high
        invariant
            i <= low,
            high <= j < path@.len(),
            low + high == i + j,
            low <= high + 1,
            path@.len() == old(path)@.len(),
            forall|k: int|
                0 <= k < path@.len() ==> #[trigger] path@[k] == if (i <= k < low) || (high < k
                    <= j) {
                    old(path)@[i + j - k]
                } else {
                    old(path)@[k]
                },
        decreases high + 1 - low,
    {
        let a = path[low];
        let b = path[high];
        path.set(low, b);
        path.set(high, a);
        low += 1;
        high -= 1;
    }
    proof {
        lemma_with_reversed_index(old(path)@, i as int, j as int);
        assert(path@ =~= with_reversed(old(path)@, i as int, j as int));
    }
}

/// A path that holds every one of the `n` points has at least `n` entries.
pub proof fn lemma_covering_len(path: Seq<u16>, n: nat)
    requires
        n <= 0x1_0000,
        forall|c: u16| c < n ==> #[trigger] path.contains(c),
    ensures
        path.len() >= n,
{
    let ints = path.map_values(|c: u16| c as int);
    lemma_int_range(0, n as int);
    broadcast use vstd::seq_lib::seq_to_set_is_finite;
    assert(set_int_range(0, n as int).subset_of(ints.to_set())) by {
        assert forall|x: int| set_int_range(0, n as int).contains(x) implies ints.to_set().contains(
            x,
        ) by {
            assert(path.contains(x as u16));
            let i = choose|i: int| 0 <= i < path.len() && path[i] == x as u16;
            assert(ints[i] == x);
        }
    }
    lemma_len_subset(set_int_range(0, n as int), ints.to_set());
    ints.lemma_cardinality_of_set();
}

/// `path` with its first `k` entries moved to the end.
pub open spec fn rotated(path: Seq<u16>, k: int) -> Seq<u16> {
    path.subrange(k, path.len() as int) + path.subrange(0, k)
}

/// A rotated tour is a tour.
pub proof fn lemma_rotated_tour(path: Seq<u16>, n: nat, k: int)
    requires
        is_tour(path, n),
        0 <= k <= path.len(),
    ensures
        is_tour(rotated(path, k), n),
{
    let head = path.subrange(0, k);
    let tail = path.subrange(k, path.len() as int);
    assert(path =~= head + tail);
    lemma_multiset_commutative(head, tail);
    lemma_multiset_commutative(tail, head);
    assert(head.to_multiset().add(tail.to_multiset()) =~= tail.to_multiset().add(
        head.to_multiset(),
    ));
    lemma_rearranged_tour(path, rotated(path, k), n);
}

/// The identity tour is a tour.
pub proof fn lemma_identity_tour(n: nat)
    requires
        n <= 0x1_0000,
    ensures
        is_tour(identity_tour(n), n),
{
}

/// The tour `0, 1, .., n - 1`.
pub fn identity(n: usize) -> (path: Vec<u16>)
    requires
        n <= 0x1_0000,
    ensures
        path@ == identity_tour(n as nat),
        is_tour(path@, n as nat),
{
    let mut path: Vec<u16> = Vec::with_capacity(n);
    let mut i: usize = 0;
    while i < n
        invariant
            i <= n <= 0x1_0000,
            path@.len() == i,
            forall|k: int| 0 <= k < i ==> path@[k] == k as u16,
        decreases n - i,
    {
        path.push(i as u16);
        i += 1;
    }
    proof {
        assert(path@ =~= identity_tour(n as nat));
        lemma_identity_tour(n as nat);
    }
    path
}

/// A partial tour that is not yet complete leaves some point out.
pub proof fn lemma_unvisited_exists(path: Seq<u16>, n: nat) -> (city: u16)
    requires
        n <= 0x1_0000,
        path.len() < n,
    ensures
        city < n,
        !path.contains(city),
{
    if forall|c: u16| c < n ==> #[trigger] path.contains(c) {
        lemma_covering_len(path, n);
    }
    choose|c: u16| c < n && !#[trigger] path.contains(c)
}

/// The position of `city` in `path`.
pub open spec fn place(path: Seq<u16>, city: u16) -> int {
    choose|k: int| 0 <= k < path.len() && path[k] == city
}

/// In a path without repetitions an entry stands at one position only.
pub proof fn lemma_place(path: Seq<u16>, city: u16, k: int)
    requires
        path.no_duplicates(),
        0 <= k < path.len(),
        path[k] == city,
    ensures
        place(path, city) == k,
{
}

} // verus!
