//! The elementary rearrangements of a tour that the stochastic engines are
//! built from. Each keeps the entries and changes only their order.

use vstd::prelude::*;
use vstd::seq_lib::*;

use crate::tour::{rotated, slice_of};

verus! {

/// `path` with the entries at positions `a` and `b` exchanged.
pub open spec fn swapped(path: Seq<u16>, a: int, b: int) -> Seq<u16> {
    path.update(a, path[b]).update(b, path[a])
}

/// Exchanging two entries keeps the entries.
pub proof fn lemma_swapped_multiset(path: Seq<u16>, a: int, b: int)
    requires
        0 <= a < path.len(),
        0 <= b < path.len(),
    ensures
        swapped(path, a, b).to_multiset() == path.to_multiset(),
{
    broadcast use vstd::seq_lib::group_to_multiset_ensures;
    broadcast use vstd::multiset::group_multiset_axioms;
    let middle = path.update(a, path[b]);
    assert(middle.to_multiset() == path.to_multiset().insert(path[b]).remove(path[a]));
    assert(swapped(path, a, b).to_multiset() == middle.to_multiset().insert(path[a]).remove(
        middle[b],
    ));
    assert(path.to_multiset().count(path[a]) > 0);
    assert(path.to_multiset().count(path[b]) > 0);
    assert(swapped(path, a, b).to_multiset() =~= path.to_multiset());
}

/// Exchanges the entries at positions `a` and `b`.
pub fn swap_entries(path: &mut Vec<u16>, a: usize, b: usize)
    requires
        a < old(path)@.len(),
        b < old(path)@.len(),
    ensures
        final(path)@ == swapped(old(path)@, a as int, b as int),
{
    let first = path[a];
    let second = path[b];
    path.set(a, second);
    path.set(b, first);
}

/// `path` with the block of `size` entries at position `from` taken out and
/// put back, turned round if `turned`, at position `to` of what is left.
pub open spec fn relocated(path: Seq<u16>, from: int, size: int, to: int, turned: bool) -> Seq<u16> {
    let block = path.subrange(from, from + size);
    let rest = path.subrange(0, from) + path.subrange(from + size, path.len() as int);
    rest.subrange(0, to) + (if turned {
        block.reverse()
    } else {
        block
    }) + rest.subrange(to, rest.len() as int)
}

/// Moving a block keeps the entries.
pub proof fn lemma_relocated_multiset(path: Seq<u16>, from: int, size: int, to: int, turned: bool)
    requires
        0 <= from,
        0 <= size,
        from + size <= path.len(),
        0 <= to <= path.len() - size,
    ensures
        relocated(path, from, size, to, turned).to_multiset() == path.to_multiset(),
        relocated(path, from, size, to, turned).len() == path.len(),
{
    let block = path.subrange(from, from + size);
    let head = path.subrange(0, from);
    let tail = path.subrange(from + size, path.len() as int);
    let rest = head + tail;
    let placed = if turned {
        block.reverse()
    } else {
        block
    };
    let left = rest.subrange(0, to);
    let right = rest.subrange(to, rest.len() as int);
    broadcast use vstd::multiset::group_multiset_axioms;
    assert(path =~= head + block + tail);
    assert(rest =~= left + right);
    block.lemma_reverse_to_multiset();
    lemma_multiset_commutative(head, block);
    lemma_multiset_commutative(head + block, tail);
    lemma_multiset_commutative(head, tail);
    lemma_multiset_commutative(left, right);
    lemma_multiset_commutative(left, placed);
    lemma_multiset_commutative(left + placed, right);
    let moved = relocated(path, from, size, to, turned);
    assert(moved == left + placed + right);
    assert(placed.to_multiset() =~= block.to_multiset());
    assert(moved.to_multiset() =~= left.to_multiset().add(placed.to_multiset()).add(
        right.to_multiset(),
    ));
    assert(path.to_multiset() =~= head.to_multiset().add(block.to_multiset()).add(
        tail.to_multiset(),
    ));
    assert(head.to_multiset().add(tail.to_multiset()) =~= left.to_multiset().add(
        right.to_multiset(),
    ));
    assert forall|x: u16| moved.to_multiset().count(x) == path.to_multiset().count(x) by {
        assert(head.to_multiset().add(tail.to_multiset()).count(x) == head.to_multiset().count(x)
            + tail.to_multiset().count(x));
        assert(left.to_multiset().add(right.to_multiset()).count(x) == left.to_multiset().count(x)
            + right.to_multiset().count(x));
        assert(moved.to_multiset().count(x) == left.to_multiset().count(x)
            + placed.to_multiset().count(x) + right.to_multiset().count(x));
        assert(path.to_multiset().count(x) == head.to_multiset().count(x)
            + block.to_multiset().count(x) + tail.to_multiset().count(x));
    }
    assert(moved.to_multiset() =~= path.to_multiset());
    assert(moved.len() == path.len());
}

/// The entries of `left` followed by those of `right`.
pub fn joined(left: &Vec<u16>, right: &Vec<u16>) -> (whole: Vec<u16>)
    ensures
        whole@ == left@ + right@,
{
    let mut whole: Vec<u16> = Vec::with_capacity(left.len());
    let mut i: usize = 0;
    while i < left.len()
        invariant
            i <= left@.len(),
            whole@ == left@.take(i as int),
        decreases left@.len() - i,
    {
        whole.push(left[i]);
        proof {
            assert(whole@ =~= left@.take(i + 1));
        }
        i += 1;
    }
    let mut j: usize = 0;
    while j < right.len()
        invariant
            j <= right@.len(),
            whole@ == left@ + right@.take(j as int),
        decreases right@.len() - j,
    {
        whole.push(right[j]);
        proof {
            assert(whole@ =~= left@ + right@.take(j + 1));
        }
        j += 1;
    }
    proof {
        assert(left@.take(left@.len() as int) =~= left@);
        assert(right@.take(right@.len() as int) =~= right@);
    }
    whole
}

/// The entries of `path` in the opposite order.
pub fn turned_round(path: &Vec<u16>) -> (back: Vec<u16>)
    ensures
        back@ == path@.reverse(),
{
    let n = path.len();
    let mut back: Vec<u16> = Vec::with_capacity(n);
    let mut i: usize = 0;
    while i < n
        invariant
            n == path@.len(),
            i <= n,
            back@.len() == i,
            forall|k: int| 0 <= k < i ==> back@[k] == path@[n - 1 - k],
        decreases n - i,
    {
        back.push(path[n - 1 - i]);
        i += 1;
    }
    proof {
        assert(back@ =~= path@.reverse());
    }
    back
}

/// Takes the block of `size` entries at position `from` out of `path` and
/// puts it back, turned round if `turned`, at position `to` of what is left.
pub fn relocate(path: &Vec<u16>, from: usize, size: usize, to: usize, turned: bool) -> (moved: Vec<
    u16,
>)
    requires
        from + size <= path@.len(),
        to <= path@.len() - size,
    ensures
        moved@ == relocated(path@, from as int, size as int, to as int, turned),
{
    let n = path.len();
    let block = slice_of(path, from, from + size);
    let head = slice_of(path, 0, from);
    let tail = slice_of(path, from + size, path.len());
    let rest = joined(&head, &tail);
    let left = slice_of(&rest, 0, to);
    let right = slice_of(&rest, to, rest.len());
    let placed = if turned {
        turned_round(&block)
    } else {
        block
    };
    let front = joined(&left, &placed);
    joined(&front, &right)
}

/// Moves the first `k` entries of `path` to its end.
pub fn rotate(path: &Vec<u16>, k: usize) -> (turned: Vec<u16>)
    requires
        k <= path@.len(),
    ensures
        turned@ == rotated(path@, k as int),
{
    let head = slice_of(path, 0, k);
    let tail = slice_of(path, k, path.len());
    joined(&tail, &head)
}

} // verus!
