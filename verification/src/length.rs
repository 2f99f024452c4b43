//! The length of a closed tour over a distance matrix, and how it behaves
//! when the tour is rotated, reversed, or has one stretch turned round.

use vstd::prelude::*;

use crate::distance::{entry, get_in_matrix, is_matrix, is_symmetric, lemma_cell_in_bounds, MAX_EDGE};
use crate::tour::with_reversed;

verus! {

/// The distance from point `a` to point `b`.
pub open spec fn edge(matrix: Seq<u64>, n: nat, a: u16, b: u16) -> int {
    entry(matrix, n, a as int, b as int)
}

/// Every entry of `path` names one of the `n` points.
pub open spec fn in_range(path: Seq<u16>, n: nat) -> bool {
    forall|i: int| 0 <= i < path.len() ==> (#[trigger] path[i]) < n
}

/// The length of the open walk along `path`: the sum of the distances
/// between neighbours, without the way back.
pub open spec fn open_length(path: Seq<u16>, matrix: Seq<u64>, n: nat) -> int
    decreases path.len(),
{
    if path.len() < 2 {
        0
    } else {
        open_length(path.drop_last(), matrix, n) + edge(
            matrix,
            n,
            path[path.len() - 2],
            path[path.len() - 1],
        )
    }
}

/// The length of the closed tour along `path`: the open walk and the way
/// back from the last point to the first.
pub open spec fn tour_length(path: Seq<u16>, matrix: Seq<u64>, n: nat) -> int {
    if path.len() == 0 {
        0
    } else {
        open_length(path, matrix, n) + edge(matrix, n, path.last(), path.first())
    }
}

/// An edge between two points of the matrix is at most `MAX_EDGE` long.
pub proof fn lemma_edge_bounds(matrix: Seq<u64>, n: nat, a: u16, b: u16)
    requires
        is_matrix(matrix, n),
        a < n,
        b < n,
    ensures
        0 <= edge(matrix, n, a, b) <= MAX_EDGE,
{
    lemma_cell_in_bounds(n, a as int, b as int);
}

/// An open walk of `k` points is at most `k - 1` edges long.
pub proof fn lemma_open_length_bounds(path: Seq<u16>, matrix: Seq<u64>, n: nat)
    requires
        is_matrix(matrix, n),
        in_range(path, n),
    ensures
        0 <= open_length(path, matrix, n),
        path.len() >= 1 ==> open_length(path, matrix, n) <= (path.len() - 1) * MAX_EDGE,
    decreases path.len(),
{
    if path.len() >= 2 {
        lemma_open_length_bounds(path.drop_last(), matrix, n);
        lemma_edge_bounds(matrix, n, path[path.len() - 2], path[path.len() - 1]);
        assert((path.len() - 1) * MAX_EDGE == (path.len() - 2) * MAX_EDGE + MAX_EDGE)
            by (nonlinear_arith);
    } else if path.len() == 1 {
        assert((path.len() - 1) * MAX_EDGE == 0) by (nonlinear_arith)
            requires
                path.len() == 1,
        ;
    }
}

/// A closed tour of `k` points is at most `k` edges long.
pub proof fn lemma_tour_length_bounds(path: Seq<u16>, matrix: Seq<u64>, n: nat)
    requires
        is_matrix(matrix, n),
        in_range(path, n),
    ensures
        0 <= tour_length(path, matrix, n) <= path.len() * MAX_EDGE,
        path.len() <= 0x1_0000 ==> tour_length(path, matrix, n) <= 0x800_0000_0000_0000,
{
    if path.len() >= 1 {
        lemma_open_length_bounds(path, matrix, n);
        lemma_edge_bounds(matrix, n, path.last(), path.first());
        assert(path.len() * MAX_EDGE == (path.len() - 1) * MAX_EDGE + MAX_EDGE)
            by (nonlinear_arith);
    } else {
        assert(path.len() * MAX_EDGE == 0) by (nonlinear_arith)
            requires
                path.len() == 0,
        ;
    }
    assert(path.len() <= 0x1_0000 ==> path.len() * MAX_EDGE <= 0x800_0000_0000_0000)
        by (nonlinear_arith);
}

/// Walking `left` and then `right` costs both walks and the edge that joins
/// them.
pub proof fn lemma_open_length_concat(left: Seq<u16>, right: Seq<u16>, matrix: Seq<u64>, n: nat)
    requires
        left.len() > 0,
        right.len() > 0,
    ensures
        open_length(left + right, matrix, n) == open_length(left, matrix, n) + edge(
            matrix,
            n,
            left.last(),
            right.first(),
        ) + open_length(right, matrix, n),
    decreases right.len(),
{
    let whole = left + right;
    if right.len() == 1 {
        assert(whole.drop_last() =~= left);
    } else {
        assert(whole.drop_last() =~= left + right.drop_last());
        lemma_open_length_concat(left, right.drop_last(), matrix, n);
    }
}

/// Over a symmetric matrix a walk is as long backwards as forwards.
pub proof fn lemma_open_length_reverse(path: Seq<u16>, matrix: Seq<u64>, n: nat)
    requires
        is_symmetric(matrix, n),
        in_range(path, n),
    ensures
        open_length(path.reverse(), matrix, n) == open_length(path, matrix, n),
    decreases path.len(),
{
    if path.len() >= 2 {
        let front = path.drop_last();
        let last = path.last();
        assert(path.reverse() =~= seq![last] + front.reverse());
        lemma_open_length_reverse(front, matrix, n);
        lemma_open_length_concat(seq![last], front.reverse(), matrix, n);
        assert(front.reverse().first() == front.last());
        assert(edge(matrix, n, last, front.last()) == edge(matrix, n, front.last(), last)) by {
            assert(path[path.len() - 1] < n);
            assert(path[path.len() - 2] < n);
            assert(entry(matrix, n, last as int, front.last() as int) == entry(
                matrix,
                n,
                front.last() as int,
                last as int,
            ));
        }
    } else {
        assert(path.reverse() =~= path);
    }
}

/// A closed tour is as long from any starting point: moving the first `k`
/// entries to the end leaves its length unchanged.
pub proof fn lemma_tour_length_rotation(path: Seq<u16>, matrix: Seq<u64>, n: nat, k: int)
    requires
        0 <= k <= path.len(),
    ensures
        tour_length(path.subrange(k, path.len() as int) + path.subrange(0, k), matrix, n)
            == tour_length(path, matrix, n),
{
    let head = path.subrange(0, k);
    let tail = path.subrange(k, path.len() as int);
    assert(path =~= head + tail);
    if head.len() == 0 || tail.len() == 0 {
        assert(tail + head =~= path);
    } else {
        lemma_open_length_concat(head, tail, matrix, n);
        lemma_open_length_concat(tail, head, matrix, n);
    }
}

/// Over a symmetric matrix a closed tour is as long in either direction.
pub proof fn lemma_tour_length_reversal(path: Seq<u16>, matrix: Seq<u64>, n: nat)
    requires
        is_symmetric(matrix, n),
        in_range(path, n),
    ensures
        tour_length(path.reverse(), matrix, n) == tour_length(path, matrix, n),
{
    if path.len() > 0 {
        lemma_open_length_reverse(path, matrix, n);
        assert(path.reverse().first() == path.last());
        assert(path.reverse().last() == path.first());
        assert(path[0] < n && path[path.len() - 1] < n);
        assert(entry(matrix, n, path.first() as int, path.last() as int) == entry(
            matrix,
            n,
            path.last() as int,
            path.first() as int,
        ));
    } else {
        assert(path.reverse() =~= path);
    }
}

/// The entry that follows position `j` on the closed tour: the first entry
/// after the last.
pub open spec fn next_on(path: Seq<u16>, j: int) -> u16 {
    if j + 1 < path.len() {
        path[j + 1]
    } else {
        path[0]
    }
}

/// What turning the stretch from `i` to `j` round adds to the tour: the two
/// new edges at its ends less the two old ones. The edge behind the last
/// entry is the way back to the first.
pub open spec fn reversal_gain(path: Seq<u16>, matrix: Seq<u64>, n: nat, i: int, j: int) -> int {
    edge(matrix, n, path[i - 1], path[j]) + edge(matrix, n, path[i], next_on(path, j)) - edge(
        matrix,
        n,
        path[i - 1],
        path[i],
    ) - edge(matrix, n, path[j], next_on(path, j))
}

/// Turning a stretch of a tour round that leaves the first entry out
/// changes its length by the two edges at the ends of the stretch, and by
/// nothing else.
pub proof fn lemma_reversed_stretch_length(path: Seq<u16>, matrix: Seq<u64>, n: nat, i: int, j: int)
    requires
        is_symmetric(matrix, n),
        in_range(path, n),
        1 <= i <= j < path.len(),
    ensures
        tour_length(with_reversed(path, i, j), matrix, n) == tour_length(path, matrix, n)
            + reversal_gain(path, matrix, n, i, j),
{
    let head = path.subrange(0, i);
    let stretch = path.subrange(i, j + 1);
    let tail = path.subrange(j + 1, path.len() as int);
    let turned = stretch.reverse();
    assert(path =~= head + stretch + tail);
    assert(in_range(stretch, n));
    lemma_open_length_reverse(stretch, matrix, n);
    lemma_open_length_concat(head, stretch, matrix, n);
    lemma_open_length_concat(head, turned, matrix, n);
    assert(turned.first() == path[j]);
    assert(turned.last() == path[i]);
    assert((head + turned).last() == path[i]);
    assert((head + stretch).last() == path[j]);
    if j + 1 < path.len() {
        lemma_open_length_concat(head + stretch, tail, matrix, n);
        lemma_open_length_concat(head + turned, tail, matrix, n);
        assert((head + turned + tail).last() == path.last());
        assert((head + turned + tail).first() == path.first());
    } else {
        assert(head + stretch + tail =~= head + stretch);
        assert(head + turned + tail =~= head + turned);
        assert(path[0] < n && path[i] < n && path[j] < n);
        assert(entry(matrix, n, path[i] as int, path[0] as int) == entry(
            matrix,
            n,
            path[0] as int,
            path[i] as int,
        ));
        assert(entry(matrix, n, path[j] as int, path[0] as int) == entry(
            matrix,
            n,
            path[0] as int,
            path[j] as int,
        ));
    }
}

/// A closed tour is at least as long as the open walk along its first `k`
/// entries.
pub proof fn lemma_prefix_no_longer(path: Seq<u16>, matrix: Seq<u64>, n: nat, k: int)
    requires
        is_matrix(matrix, n),
        in_range(path, n),
        1 <= k <= path.len(),
    ensures
        open_length(path.take(k), matrix, n) <= tour_length(path, matrix, n),
{
    let head = path.take(k);
    let tail = path.skip(k);
    assert(path =~= head + tail);
    lemma_edge_bounds(matrix, n, path.last(), path.first());
    if tail.len() > 0 {
        lemma_open_length_concat(head, tail, matrix, n);
        assert(in_range(tail, n));
        lemma_open_length_bounds(tail, matrix, n);
        assert(head.last() == path[k - 1]);
        assert(tail.first() == path[k]);
        lemma_edge_bounds(matrix, n, head.last(), tail.first());
    } else {
        assert(head =~= path);
    }
}

/// The length of the closed tour along `path` over a matrix of side `n`.
pub fn calculate_path_distance_over(path: &Vec<u16>, distance_matrix: &Vec<u64>, n: usize) -> (distance:
    u64)
    requires
        path@.len() <= 0x1_0000,
        is_matrix(distance_matrix@, n as nat),
        in_range(path@, n as nat),
    ensures
        distance == tour_length(path@, distance_matrix@, n as nat),
        distance <= 0x800_0000_0000_0000,
{
    let len = path.len();
    if len == 0 {
        return 0;
    }
    let mut distance: u64 = 0;
    let mut i: usize = 0;
    while i < len - 1
        invariant
            len == path@.len(),
            0 < len <= 0x1_0000,
            i <= len - 1,
            is_matrix(distance_matrix@, n as nat),
            in_range(path@, n as nat),
            distance == open_length(path@.take(i + 1), distance_matrix@, n as nat),
            distance <= i * MAX_EDGE,
            i * MAX_EDGE <= 0x800_0000_0000_0000,
        decreases len - i,
    {
        let step = get_in_matrix(distance_matrix, n, path[i] as usize, path[i + 1] as usize);
        proof {
            assert(path@.take(i + 2).drop_last() =~= path@.take(i + 1));
            lemma_edge_bounds(distance_matrix@, n as nat, path@[i as int], path@[i + 1]);
            assert((i + 1) * MAX_EDGE == i * MAX_EDGE + MAX_EDGE) by (nonlinear_arith);
            assert((i + 1) * MAX_EDGE <= 0x800_0000_0000_0000) by (nonlinear_arith)
                requires
                    i + 1 <= 0x1_0000,
            ;
        }
        distance += step;
        i += 1;
    }
    let back = get_in_matrix(distance_matrix, n, path[len - 1] as usize, path[0] as usize);
    proof {
        assert(path@.take(len as int) =~= path@);
        lemma_edge_bounds(distance_matrix@, n as nat, path@[len - 1], path@[0]);
        lemma_tour_length_bounds(path@, distance_matrix@, n as nat);
    }
    distance + back
}

/// The length of the closed tour along `path`, where the matrix has one row
/// for each entry of the path.
pub fn calculate_path_distance(path: &Vec<u16>, distance_matrix: &Vec<u64>) -> (distance: u64)
    requires
        path@.len() <= 0x1_0000,
        is_matrix(distance_matrix@, path@.len()),
        in_range(path@, path@.len()),
    ensures
        distance == tour_length(path@, distance_matrix@, path@.len()),
        distance <= 0x800_0000_0000_0000,
{
    calculate_path_distance_over(path, distance_matrix, path.len())
}

} // verus!
