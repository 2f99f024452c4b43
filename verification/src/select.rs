//! Taking from one path the entries that another path holds, or those it
//! lacks, and what such selections add up to.

use vstd::prelude::*;
use vstd::seq_lib::*;

use crate::length::in_range;
use crate::tour::{is_partial_tour, is_tour, lemma_covering_len, lemma_partial_tour_len};

verus! {

/// The entries of `source`, in their order, that `set` holds (`members`) or
/// that it lacks (`!members`).
pub open spec fn picked(source: Seq<u16>, set: Seq<u16>, members: bool) -> Seq<u16>
    decreases source.len(),
{
    if source.len() == 0 {
        Seq::empty()
    } else {
        let front = picked(source.drop_last(), set, members);
        if set.contains(source.last()) == members {
            front.push(source.last())
        } else {
            front
        }
    }
}

/// What a selection holds: the entries of the source that pass, once each
/// where the source has no repetitions.
pub proof fn lemma_picked(source: Seq<u16>, set: Seq<u16>, members: bool)
    ensures
        picked(source, set, members).len() <= source.len(),
        forall|x: u16| #[trigger]
            picked(source, set, members).contains(x) <==> source.contains(x) && set.contains(x)
                == members,
        source.no_duplicates() ==> picked(source, set, members).no_duplicates(),
    decreases source.len(),
{
    let all = picked(source, set, members);
    if source.len() == 0 {
    } else {
        let front_source = source.drop_last();
        let last = source.last();
        let front = picked(front_source, set, members);
        lemma_picked(front_source, set, members);
        assert forall|x: u16| #[trigger] all.contains(x) <==> source.contains(x) && set.contains(x)
            == members by {
            if all.contains(x) {
                let k = choose|k: int| 0 <= k < all.len() && all[k] == x;
                if k < front.len() {
                    assert(front[k] == x);
                    assert(front.contains(x));
                    let w = choose|w: int| 0 <= w < front_source.len() && front_source[w] == x;
                    assert(source[w] == x);
                } else {
                    assert(x == last);
                    assert(source[source.len() - 1] == x);
                }
            }
            if source.contains(x) && set.contains(x) == members {
                let w = choose|w: int| 0 <= w < source.len() && source[w] == x;
                if w < front_source.len() {
                    assert(front_source[w] == x);
                    assert(front.contains(x));
                    let k = choose|k: int| 0 <= k < front.len() && front[k] == x;
                    assert(all[k] == x);
                } else {
                    assert(all[all.len() - 1] == x);
                }
            }
        }
        if source.no_duplicates() {
            assert(front_source.no_duplicates());
            if set.contains(last) == members {
                if front.contains(last) {
                    let w = choose|w: int| 0 <= w < front_source.len() && front_source[w] == last;
                    assert(source[w] == source[source.len() - 1]);
                }
                assert forall|i: int, j: int| 0 <= i < all.len() && 0 <= j < all.len() && i
                    != j implies all[i] != all[j] by {
                    if i < front.len() && j < front.len() {
                        assert(front[i] != front[j]);
                    } else if i < front.len() {
                        assert(front.contains(front[i]));
                    } else {
                        assert(front.contains(front[j]));
                    }
                }
            }
        }
    }
}

/// Two paths without repetitions that hold the same entries hold each as
/// often.
pub proof fn lemma_same_entries(left: Seq<u16>, right: Seq<u16>)
    requires
        left.no_duplicates(),
        right.no_duplicates(),
        forall|x: u16| left.contains(x) <==> right.contains(x),
    ensures
        left.to_multiset() == right.to_multiset(),
{
    broadcast use vstd::seq_lib::group_to_multiset_ensures;
    left.lemma_multiset_has_no_duplicates();
    right.lemma_multiset_has_no_duplicates();
    assert forall|x: u16| left.to_multiset().count(x) == right.to_multiset().count(x) by {
        assert(left.contains(x) <==> right.contains(x));
    }
    assert(left.to_multiset() =~= right.to_multiset());
}

/// A path without repetitions over `n` points that holds every point is a
/// tour.
pub proof fn lemma_tour_by_cover(path: Seq<u16>, n: nat)
    requires
        n <= 0x1_0000,
        is_partial_tour(path, n),
        forall|c: u16| c < n ==> #[trigger] path.contains(c),
    ensures
        is_tour(path, n),
{
    lemma_covering_len(path, n);
    lemma_partial_tour_len(path, n);
}

/// A stretch without repetitions, followed by what a tour holds besides, is
/// a tour.
pub proof fn lemma_completed(stretch: Seq<u16>, tour: Seq<u16>, n: nat)
    requires
        n <= 0x1_0000,
        is_partial_tour(stretch, n),
        is_tour(tour, n),
    ensures
        is_tour(stretch + picked(tour, stretch, false), n),
        picked(tour, stretch, false).len() == n - stretch.len(),
        is_partial_tour(picked(tour, stretch, false), n),
{
    let rest = picked(tour, stretch, false);
    let whole = stretch + rest;
    lemma_picked(tour, stretch, false);
    assert forall|i: int, j: int| 0 <= i < whole.len() && 0 <= j < whole.len() && i
        != j implies whole[i] != whole[j] by {
        if i < stretch.len() && j < stretch.len() {
        } else if i >= stretch.len() && j >= stretch.len() {
            assert(rest[i - stretch.len()] != rest[j - stretch.len()]);
        } else if i < stretch.len() {
            assert(rest.contains(rest[j - stretch.len()]));
            assert(stretch.contains(stretch[i]));
        } else {
            assert(rest.contains(rest[i - stretch.len()]));
            assert(stretch.contains(stretch[j]));
        }
    }
    assert forall|i: int| 0 <= i < whole.len() implies (#[trigger] whole[i]) < n by {
        if i >= stretch.len() {
            assert(rest.contains(rest[i - stretch.len()]));
            let w = choose|w: int| 0 <= w < tour.len() && tour[w] == rest[i - stretch.len()];
            assert(tour[w] < n);
        }
    }
    assert forall|i: int| 0 <= i < rest.len() implies (#[trigger] rest[i]) < n by {
        assert(whole[i + stretch.len()] == rest[i]);
    }
    assert forall|c: u16| c < n implies #[trigger] whole.contains(c) by {
        crate::tour::lemma_full_tour_contains(tour, n, c);
        if stretch.contains(c) {
            let k = choose|k: int| 0 <= k < stretch.len() && stretch[k] == c;
            assert(whole[k] == c);
        } else {
            assert(rest.contains(c));
            let k = choose|k: int| 0 <= k < rest.len() && rest[k] == c;
            assert(whole[k + stretch.len()] == c);
        }
    }
    lemma_tour_by_cover(whole, n);
}

/// What a tour holds of a stretch without repetitions is the stretch in
/// another order.
pub proof fn lemma_reordered(stretch: Seq<u16>, tour: Seq<u16>, n: nat)
    requires
        is_partial_tour(stretch, n),
        is_tour(tour, n),
    ensures
        picked(tour, stretch, true).to_multiset() == stretch.to_multiset(),
        picked(tour, stretch, true).len() == stretch.len(),
{
    let kept = picked(tour, stretch, true);
    lemma_picked(tour, stretch, true);
    assert forall|x: u16| kept.contains(x) <==> stretch.contains(x) by {
        if stretch.contains(x) {
            let k = choose|k: int| 0 <= k < stretch.len() && stretch[k] == x;
            assert(stretch[k] < n);
            crate::tour::lemma_full_tour_contains(tour, n, x);
        }
    }
    lemma_same_entries(kept, stretch);
    to_multiset_len(kept);
    to_multiset_len(stretch);
}

/// For each point below `n` whether `set` holds it.
pub fn membership(set: &Vec<u16>, n: usize) -> (mask: Vec<bool>)
    requires
        n <= 0x1_0000,
        in_range(set@, n as nat),
    ensures
        mask@.len() == n,
        forall|c: int| 0 <= c < n ==> #[trigger] mask@[c] == set@.contains(c as u16),
{
    let mut mask: Vec<bool> = Vec::with_capacity(n);
    let mut i: usize = 0;
    while i < n
        invariant
            i <= n,
            mask@.len() == i,
            forall|k: int| 0 <= k < i ==> !(#[trigger] mask@[k]),
        decreases n - i,
    {
        mask.push(false);
        i += 1;
    }
    let mut p: usize = 0;
    while p < set.len()
        invariant
            p <= set@.len(),
            mask@.len() == n,
            n <= 0x1_0000,
            in_range(set@, n as nat),
            forall|w: int| 0 <= w < p ==> mask@[#[trigger] set@[w] as int],
            forall|c: int| 0 <= c < n && #[trigger] mask@[c] ==> set@.contains(c as u16),
        decreases set@.len() - p,
    {
        let city = set[p];
        assert(set@[p as int] < n);
        mask.set(city as usize, true);
        p += 1;
    }
    proof {
        assert forall|c: int| 0 <= c < n implies #[trigger] mask@[c] == set@.contains(c as u16) by {
            if set@.contains(c as u16) {
                let w = choose|w: int| 0 <= w < set@.len() && set@[w] == c as u16;
                assert(mask@[set@[w] as int]);
            }
        }
    }
    mask
}

/// The entries of `source`, in their order, that `set` holds (`members`) or
/// that it lacks (`!members`).
pub fn pick(source: &Vec<u16>, set: &Vec<u16>, members: bool, n: usize) -> (chosen: Vec<u16>)
    requires
        n <= 0x1_0000,
        in_range(source@, n as nat),
        in_range(set@, n as nat),
    ensures
        chosen@ == picked(source@, set@, members),
{
    let mask = membership(set, n);
    let mut chosen: Vec<u16> = Vec::new();
    let mut i: usize = 0;
    while i < source.len()
        invariant
            i <= source@.len(),
            n <= 0x1_0000,
            in_range(source@, n as nat),
            mask@.len() == n,
            forall|c: int| 0 <= c < n ==> #[trigger] mask@[c] == set@.contains(c as u16),
            chosen@ == picked(source@.take(i as int), set@, members),
        decreases source@.len() - i,
    {
        let city = source[i];
        assert(source@[i as int] < n);
        proof {
            assert(source@.take(i + 1).drop_last() =~= source@.take(i as int));
            assert(mask@[city as int] == set@.contains(city));
        }
        if mask[city as usize] == members {
            chosen.push(city);
        }
        i += 1;
    }
    proof {
        assert(source@.take(source@.len() as int) =~= source@);
    }
    chosen
}

/// A stretch of a tour visits no point twice.
pub proof fn lemma_stretch_partial(path: Seq<u16>, n: nat, from: int, to: int)
    requires
        is_tour(path, n),
        0 <= from <= to <= n,
    ensures
        is_partial_tour(path.subrange(from, to), n),
{
    let stretch = path.subrange(from, to);
    assert forall|i: int, j: int| 0 <= i < stretch.len() && 0 <= j < stretch.len() && i
        != j implies stretch[i] != stretch[j] by {
        assert(stretch[i] == path[from + i] && stretch[j] == path[from + j]);
    }
    assert forall|i: int| 0 <= i < stretch.len() implies (#[trigger] stretch[i]) < n by {
        assert(stretch[i] == path[from + i]);
    }
}

/// A path without repetitions is no longer than one that holds all its
/// entries.
pub proof fn lemma_no_longer_than_cover(inner: Seq<u16>, outer: Seq<u16>)
    requires
        inner.no_duplicates(),
        forall|k: int| 0 <= k < inner.len() ==> outer.contains(#[trigger] inner[k]),
    ensures
        inner.len() <= outer.len(),
{
    broadcast use vstd::seq_lib::seq_to_set_is_finite;
    inner.unique_seq_to_set();
    outer.lemma_cardinality_of_set();
    assert(inner.to_set().subset_of(outer.to_set())) by {
        assert forall|x: u16| inner.to_set().contains(x) implies outer.to_set().contains(x) by {
            let k = choose|k: int| 0 <= k < inner.len() && inner[k] == x;
            assert(outer.contains(inner[k]));
        }
    }
    vstd::set_lib::lemma_len_subset(inner.to_set(), outer.to_set());
}

/// Two stretches of equal length without repetitions lack equally many of
/// each other's entries.
pub proof fn lemma_equal_losses(left: Seq<u16>, right: Seq<u16>)
    requires
        left.no_duplicates(),
        right.no_duplicates(),
        left.len() == right.len(),
    ensures
        picked(left, right, false).len() == picked(right, left, false).len(),
{
    let only_left = picked(left, right, false);
    let only_right = picked(right, left, false);
    lemma_picked(left, right, false);
    lemma_picked(right, left, false);
    let one = right + only_left;
    let other = left + only_right;
    assert forall|i: int, j: int| 0 <= i < one.len() && 0 <= j < one.len() && i != j implies one[i]
        != one[j] by {
        if i < right.len() && j < right.len() {
        } else if i >= right.len() && j >= right.len() {
            assert(only_left[i - right.len()] != only_left[j - right.len()]);
        } else if i < right.len() {
            assert(only_left.contains(only_left[j - right.len()]));
            assert(right.contains(right[i]));
        } else {
            assert(only_left.contains(only_left[i - right.len()]));
            assert(right.contains(right[j]));
        }
    }
    assert forall|i: int, j: int| 0 <= i < other.len() && 0 <= j < other.len() && i
        != j implies other[i] != other[j] by {
        if i < left.len() && j < left.len() {
        } else if i >= left.len() && j >= left.len() {
            assert(only_right[i - left.len()] != only_right[j - left.len()]);
        } else if i < left.len() {
            assert(only_right.contains(only_right[j - left.len()]));
            assert(left.contains(left[i]));
        } else {
            assert(only_right.contains(only_right[i - left.len()]));
            assert(left.contains(left[j]));
        }
    }
    assert forall|x: u16| one.contains(x) <==> other.contains(x) by {
        if one.contains(x) {
            let k = choose|k: int| 0 <= k < one.len() && one[k] == x;
            if k < right.len() {
                assert(right.contains(right[k]));
                if left.contains(x) {
                    let w = choose|w: int| 0 <= w < left.len() && left[w] == x;
                    assert(other[w] == x);
                } else {
                    assert(only_right.contains(x));
                    let w = choose|w: int| 0 <= w < only_right.len() && only_right[w] == x;
                    assert(other[left.len() + w] == x);
                }
            } else {
                assert(only_left.contains(only_left[k - right.len()]));
                let w = choose|w: int| 0 <= w < left.len() && left[w] == x;
                assert(other[w] == x);
            }
        }
        if other.contains(x) {
            let k = choose|k: int| 0 <= k < other.len() && other[k] == x;
            if k < left.len() {
                assert(left.contains(left[k]));
                if right.contains(x) {
                    let w = choose|w: int| 0 <= w < right.len() && right[w] == x;
                    assert(one[w] == x);
                } else {
                    assert(only_left.contains(x));
                    let w = choose|w: int| 0 <= w < only_left.len() && only_left[w] == x;
                    assert(one[right.len() + w] == x);
                }
            } else {
                assert(only_right.contains(only_right[k - left.len()]));
                let w = choose|w: int| 0 <= w < right.len() && right[w] == x;
                assert(one[w] == x);
            }
        }
    }
    lemma_same_entries(one, other);
    to_multiset_len(one);
    to_multiset_len(other);
}

/// How often an entry occurs in two paths put end to end.
pub proof fn lemma_concat_counts(left: Seq<u16>, right: Seq<u16>)
    ensures
        forall|x: u16|
            (#[trigger] (left + right).to_multiset().count(x)) == left.to_multiset().count(x)
                + right.to_multiset().count(x),
{
    broadcast use vstd::multiset::group_multiset_axioms;
    lemma_multiset_commutative(left, right);
}

} // verus!
