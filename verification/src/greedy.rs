//! Greedy construction of a tour: from a random point on to one of the
//! nearest points not yet visited, again and again.

use rand::rngs::ThreadRng;
use vstd::prelude::*;

use crate::chance::{choose_one, draw_between};
use crate::neighbours::{find_n_best_neighbours_with_filter, is_candidate, is_nearest_list};
use crate::tour::{is_partial_tour, is_tour, lemma_unvisited_exists};

verus! {

/// The points of a path as a list of indices.
pub open spec fn as_indices(path: Seq<u16>) -> Seq<usize> {
    path.map_values(|c: u16| c as usize)
}

/// The point that follows position `k` of `path` is one of the `reach`
/// points nearest to the point at `k`, among those that the path has not
/// visited up to there.
pub open spec fn is_greedy_step(path: Seq<u16>, matrix: Seq<u64>, n: nat, reach: nat, k: int) -> bool {
    exists|near: Seq<usize>| #[trigger]
        is_nearest_list(near, matrix, n, path[k] as int, reach, as_indices(path.take(k + 1)))
            && near.contains(path[k + 1] as usize)
}

/// Each point of `path` but the first is one of the `reach` points nearest
/// to the point before it, among those that the path has not visited
/// before.
pub open spec fn follows_nearest(path: Seq<u16>, matrix: Seq<u64>, n: nat, reach: nat) -> bool {
    forall|k: int|
        0 <= k < path.len() - 1 ==> #[trigger] is_greedy_step(path, matrix, n, reach, k)
}

/// `path` follows the nearest points for some reach from 1 to `range`.
pub open spec fn is_greedy_path(path: Seq<u16>, matrix: Seq<u64>, n: nat, range: nat) -> bool {
    exists|reach: nat| 1 <= reach <= range && #[trigger] follows_nearest(path, matrix, n, reach)
}

/// A tour grown from a point drawn at random, not the one with the largest
/// index: each next point is drawn from the `greedy_n` nearest points not
/// yet visited.
pub fn grow_greedy_tour(
    distance_matrix: &Vec<u64>,
    cities_len: usize,
    greedy_n: usize,
    generator: &mut ThreadRng,
) -> (path: Vec<u16>)
    requires
        distance_matrix@.len() == cities_len * cities_len,
        2 <= cities_len <= 0xffff,
        greedy_n >= 1,
    ensures
        is_tour(path@, cities_len as nat),
        path@[0] < cities_len - 1,
        follows_nearest(path@, distance_matrix@, cities_len as nat, greedy_n as nat),
{
    let ghost matrix = distance_matrix@;
    let ghost n = cities_len as nat;
    let mut current_city = draw_between(generator, 0, cities_len - 1);
    let mut visited: Vec<usize> = Vec::new();
    let mut path: Vec<u16> = Vec::new();
    visited.push(current_city);
    path.push(current_city as u16);
    proof {
        assert(visited@ =~= as_indices(path@));
    }
    while path.len() < cities_len
        invariant
            matrix == distance_matrix@,
            n == cities_len as nat,
            matrix.len() == cities_len * cities_len,
            2 <= cities_len <= 0xffff,
            greedy_n >= 1,
            1 <= path@.len() <= cities_len,
            visited@ == as_indices(path@),
            is_partial_tour(path@, n),
            current_city == visited@.last(),
            path@[0] < cities_len - 1,
            follows_nearest(path@, matrix, n, greedy_n as nat),
        decreases cities_len - path@.len(),
    {
        let near_neighbours = find_n_best_neighbours_with_filter(
            distance_matrix,
            current_city,
            cities_len,
            greedy_n,
            &visited,
        );
        proof {
            let free = lemma_unvisited_exists(path@, n);
            if visited@.contains(free as usize) {
                let k = choose|k: int| 0 <= k < visited@.len() && visited@[k] == free as usize;
                assert(path@[k] == free);
            }
            assert(visited@[visited@.len() - 1] == current_city);
            assert(path@[path@.len() - 1] < n);
            assert(is_candidate(free as int, current_city as int, n, visited@));
        }
        let chosen = choose_one(generator, &near_neighbours);
        proof {
            let p = choose|p: int| 0 <= p < near_neighbours@.len() && near_neighbours@[p] == chosen;
            assert(is_candidate(near_neighbours@[p] as int, current_city as int, n, visited@));
            if path@.contains(chosen as u16) {
                let k = choose|k: int| 0 <= k < path@.len() && path@[k] == chosen as u16;
                assert(visited@[k] == chosen);
            }
        }
        let ghost before = path@;
        current_city = chosen;
        visited.push(current_city);
        path.push(current_city as u16);
        proof {
            assert(visited@ =~= as_indices(path@));
            assert forall|k: int| 0 <= k < path@.len() implies (#[trigger] path@[k]) < n by {
                if k < before.len() {
                    assert(path@[k] == before[k]);
                }
            }
            assert forall|i: int, j: int| 0 <= i < path@.len() && 0 <= j < path@.len() && i
                != j implies path@[i] != path@[j] by {
                if i < before.len() && j < before.len() {
                    assert(before[i] != before[j]);
                } else if i < before.len() {
                    assert(before.contains(before[i]));
                } else {
                    assert(before.contains(before[j]));
                }
            }
            assert forall|k: int| 0 <= k < path@.len() - 1 implies #[trigger] is_greedy_step(
                path@,
                matrix,
                n,
                greedy_n as nat,
                k,
            ) by {
                if k < before.len() - 1 {
                    assert(is_greedy_step(before, matrix, n, greedy_n as nat, k));
                    assert(path@.take(k + 1) =~= before.take(k + 1));
                    assert(path@[k] == before[k]);
                    assert(path@[k + 1] == before[k + 1]);
                    let near = choose|near: Seq<usize>| #[trigger]
                        is_nearest_list(
                            near,
                            matrix,
                            n,
                            before[k] as int,
                            greedy_n as nat,
                            as_indices(before.take(k + 1)),
                        ) && near.contains(before[k + 1] as usize);
                    assert(is_nearest_list(
                        near,
                        matrix,
                        n,
                        path@[k] as int,
                        greedy_n as nat,
                        as_indices(path@.take(k + 1)),
                    ));
                } else {
                    assert(path@.take(k + 1) =~= before);
                    assert(is_nearest_list(
                        near_neighbours@,
                        matrix,
                        n,
                        path@[k] as int,
                        greedy_n as nat,
                        as_indices(path@.take(k + 1)),
                    ));
                    assert(near_neighbours@.contains(path@[k + 1] as usize));
                }
            }
        }
    }
    path
}

} // verus!
