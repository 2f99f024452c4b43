//! Local search that removes crossings from a tour by turning stretches of it
//! round for as long as that shortens it.

use vstd::prelude::*;

use crate::distance::{get_in_matrix, is_distance_matrix};
use crate::length::calculate_path_distance_over;
use crate::length::{
    in_range, lemma_edge_bounds, lemma_reversed_stretch_length, lemma_tour_length_bounds, next_on,
    reversal_gain, tour_length,
};
use crate::tour::{lemma_with_reversed_index, lemma_with_reversed_multiset, reverse_range, with_reversed};

verus! {

/// No two edges of the closed tour, the way back from the last entry to the
/// first among them, can be exchanged for two that are shorter together:
/// no stretch of `path` can be turned round to shorten the tour.
pub open spec fn is_two_opt_stable(path: Seq<u16>, matrix: Seq<u64>, n: nat) -> bool {
    forall|i: int, j: int|
        1 <= i < j < path.len() ==> #[trigger] reversal_gain(path, matrix, n, i, j) >= 0
}

/// No stretch that starts before position `i`, or at `i` and ends before
/// `j`, can be turned round to shorten the tour.
pub open spec fn is_stable_before(path: Seq<u16>, matrix: Seq<u64>, n: nat, i: int, j: int) -> bool {
    forall|a: int, b: int|
        1 <= a < b < path.len() && (a < i || (a == i && b < j)) ==> #[trigger] reversal_gain(
            path,
            matrix,
            n,
            a,
            b,
        ) >= 0
}

/// `path` after the move for the stretch from `i` to `j`: the stretch is
/// turned round where that shortens the tour.
pub open spec fn moved(path: Seq<u16>, matrix: Seq<u64>, n: nat, i: int, j: int) -> Seq<u16> {
    if reversal_gain(path, matrix, n, i, j) < 0 {
        with_reversed(path, i, j)
    } else {
        path
    }
}

/// `path` after the rest of one pass over a tour of `len` entries, from the
/// stretch from `i` to `j` on: the stretches are tried by ascending start
/// and, for one start, by ascending end, each on the tour that the moves
/// before it have left.
pub open spec fn swept(path: Seq<u16>, matrix: Seq<u64>, n: nat, len: int, i: int, j: int) -> Seq<
    u16,
>
    decreases len - i, len - j,
{
    if i < 1 || i + 1 >= len {
        path
    } else if j <= i || j >= len {
        swept(path, matrix, n, len, i + 1, i + 2)
    } else {
        swept(moved(path, matrix, n, i, j), matrix, n, len, i, j + 1)
    }
}

/// `path` after passes over it, one after another until a pass changes
/// nothing, `passes` of them at the most.
pub open spec fn refined(path: Seq<u16>, matrix: Seq<u64>, n: nat, passes: nat) -> Seq<u16>
    decreases passes,
{
    let after = swept(path, matrix, n, path.len() as int, 1, 2);
    if passes == 0 || after == path {
        path
    } else {
        refined(after, matrix, n, (passes - 1) as nat)
    }
}

/// The tour that 2-opt makes of `path`. Each pass that changes the tour
/// shortens it by one part of a unit at least, so that as many passes as the tour
/// is long are enough.
pub open spec fn two_opt_of(path: Seq<u16>, matrix: Seq<u64>, n: nat) -> Seq<u16> {
    refined(path, matrix, n, tour_length(path, matrix, n) as nat)
}

/// Turns stretches of `path` round while one such move shortens the tour,
/// and returns the length of the tour that is left. The first entry stays
/// where it is; every pair of edges of the closed tour is tried.
///
/// The result is `two_opt_of` the tour. It is never longer, it admits no
/// further shortening move, and a tour that admits none to begin with
/// comes back unchanged, so that a second run on the result changes
/// nothing.
pub fn two_opt(path: &mut Vec<u16>, distance_matrix: &Vec<u64>, n: usize) -> (total_cost: u64)
    requires
        old(path)@.len() <= 0x1_0000,
        in_range(old(path)@, n as nat),
        is_distance_matrix(distance_matrix@, n as nat),
    ensures
        final(path)@ == two_opt_of(old(path)@, distance_matrix@, n as nat),
        final(path)@.to_multiset() == old(path)@.to_multiset(),
        final(path)@.len() == old(path)@.len(),
        final(path)@.len() > 0 ==> final(path)@[0] == old(path)@[0],
        total_cost == tour_length(final(path)@, distance_matrix@, n as nat),
        total_cost <= tour_length(old(path)@, distance_matrix@, n as nat),
        is_two_opt_stable(final(path)@, distance_matrix@, n as nat),
        is_two_opt_stable(old(path)@, distance_matrix@, n as nat) ==> final(path)@ == old(path)@,
{
    let len = path.len();
    let mut improved = true;
    let mut total_cost = calculate_path_distance_over(path, distance_matrix, n);
    let ghost matrix = distance_matrix@;
    let ghost size = n as nat;
    let ghost mut passes: nat = total_cost as nat;
    while improved
        invariant
            len == path@.len(),
            len <= 0x1_0000,
            matrix == distance_matrix@,
            size == n as nat,
            in_range(path@, size),
            is_distance_matrix(matrix, size),
            path@.to_multiset() == old(path)@.to_multiset(),
            len > 0 ==> path@[0] == old(path)@[0],
            total_cost == tour_length(path@, matrix, size),
            total_cost <= tour_length(old(path)@, matrix, size),
            passes >= total_cost,
            two_opt_of(old(path)@, matrix, size) == refined(path@, matrix, size, passes),
            !improved ==> swept(path@, matrix, size, len as int, 1, 2) == path@,
            !improved ==> is_two_opt_stable(path@, matrix, size),
            is_two_opt_stable(old(path)@, matrix, size) ==> path@ == old(path)@,
        decreases 2 * total_cost + (if improved { 1int } else { 0int }),
    {
        improved = false;
        let ghost pass_cost = total_cost;
        let ghost start = path@;
        let mut i: usize = 1;
        while i + 1 < len
            invariant
                1 <= i <= 0x1_0001,
                len == path@.len(),
                len == start.len(),
                len <= 0x1_0000,
                matrix == distance_matrix@,
                size == n as nat,
                in_range(path@, size),
                is_distance_matrix(matrix, size),
                path@.to_multiset() == old(path)@.to_multiset(),
                len > 0 ==> path@[0] == old(path)@[0],
                total_cost == tour_length(path@, matrix, size),
                total_cost <= tour_length(old(path)@, matrix, size),
                improved ==> total_cost < pass_cost,
                !improved ==> total_cost == pass_cost,
                !improved ==> path@ == start,
                swept(start, matrix, size, len as int, 1, 2) == swept(
                    path@,
                    matrix,
                    size,
                    len as int,
                    i as int,
                    i + 1,
                ),
                !improved ==> is_stable_before(path@, matrix, size, i as int, 0),
                is_two_opt_stable(old(path)@, matrix, size) ==> path@ == old(path)@,
            decreases len - i,
        {
            let mut j: usize = i + 1;
            while j < len
                invariant
                    1 <= i < j <= len,
                    i + 1 < len,
                    len == path@.len(),
                    len == start.len(),
                    len <= 0x1_0000,
                    matrix == distance_matrix@,
                    size == n as nat,
                    in_range(path@, size),
                    is_distance_matrix(matrix, size),
                    path@.to_multiset() == old(path)@.to_multiset(),
                    path@[0] == old(path)@[0],
                    total_cost == tour_length(path@, matrix, size),
                    total_cost <= tour_length(old(path)@, matrix, size),
                    improved ==> total_cost < pass_cost,
                    !improved ==> total_cost == pass_cost,
                    !improved ==> path@ == start,
                    swept(start, matrix, size, len as int, 1, 2) == swept(
                        path@,
                        matrix,
                        size,
                        len as int,
                        i as int,
                        j as int,
                    ),
                    !improved ==> is_stable_before(path@, matrix, size, i as int, j as int),
                    is_two_opt_stable(old(path)@, matrix, size) ==> path@ == old(path)@,
                decreases len - j,
            {
                let after = if j + 1 < len {
                    j + 1
                } else {
                    0
                };
                let a = path[i - 1] as usize;
                let b = path[i] as usize;
                let c = path[j] as usize;
                let d = path[after] as usize;
                proof {
                    assert(path@[after as int] == next_on(path@, j as int));
                    lemma_edge_bounds(matrix, size, path@[i - 1], path@[i as int]);
                    lemma_edge_bounds(matrix, size, path@[j as int], path@[after as int]);
                    lemma_edge_bounds(matrix, size, path@[i - 1], path@[j as int]);
                    lemma_edge_bounds(matrix, size, path@[i as int], path@[after as int]);
                }
                let current = get_in_matrix(distance_matrix, n, a, b) + get_in_matrix(
                    distance_matrix,
                    n,
                    c,
                    d,
                );
                let new = get_in_matrix(distance_matrix, n, a, c) + get_in_matrix(
                    distance_matrix,
                    n,
                    b,
                    d,
                );
                assert(new - current == reversal_gain(path@, matrix, size, i as int, j as int));
                let ghost before = path@;
                if new < current {
                    reverse_range(path, i, j);
                    proof {
                        lemma_with_reversed_multiset(before, i as int, j as int);
                        lemma_with_reversed_index(before, i as int, j as int);
                        lemma_reversed_stretch_length(before, matrix, size, i as int, j as int);
                        assert(in_range(path@, size)) by {
                            assert forall|k: int| 0 <= k < path@.len() implies (#[trigger] path@[k])
                                < size by {
                                if i <= k <= j {
                                    assert(before[i + j - k] < size);
                                } else {
                                    assert(before[k] < size);
                                }
                            }
                        }
                        lemma_tour_length_bounds(path@, matrix, size);
                    }
                    total_cost = total_cost + new - current;
                    improved = true;
                }
                proof {
                    assert(path@ == moved(before, matrix, size, i as int, j as int));
                }
                j += 1;
            }
            i += 1;
        }
        proof {
            if improved {
                assert(path@ != start);
                passes = (passes - 1) as nat;
            }
        }
    }
    total_cost
}

} // verus!
