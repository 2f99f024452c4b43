//! Ant colony optimisation: ants build tours by a weighted draw over
//! pheromone and nearness, the best tours of each generation are refined
//! and lay pheromone by rank, and the trails evaporate at a rate that
//! adapts to how the search fares.
//!
//! Pheromone and rates are fixed-point numbers: a pheromone level is
//! counted in units of 2^-20, a rate in units of 1/10000.

use rand::rngs::ThreadRng;
use vstd::prelude::*;
use vstd::seq_lib::*;

use super::algorithm::{clock_elapsed, clock_now, is_instance, Algorithm, ExecuteResponse};
use super::two_opt::{two_opt, two_opt_of};
use crate::chance::{draw_between, draw_length_below, thread_generator, total_weight};
use crate::distance::{
    create_distance_matrix, entry, get_in_matrix, lemma_cell_in_bounds, matrix_index, };
use crate::distance::{is_symmetric, PARTS};
use crate::models::coordinates::UNITS_PER_DEGREE;
use crate::length::{calculate_path_distance, next_on, tour_length};
use crate::models::city::City;
use crate::neighbours::{find_n_best_neighbours, is_nearest_list, pair_le, sort_pairs};
use crate::tour::{
    is_partial_tour, is_tour, lemma_rearranged_tour, lemma_unvisited_exists,
};

verus! {

/// The pheromone level 1.
pub const ONE: u64 = 0x10_0000;

/// What a tour lays on its edges, before its rank and length count: the
/// level 10 for a tour that is one degree long.
pub const DEPOSIT: u64 = 10 * ONE * PARTS * UNITS_PER_DEGREE;

/// The rate 1.
pub const WHOLE: u64 = 10000;

/// The lowest rate of evaporation.
pub const MIN_RATE: u64 = 100;

/// No attraction counts for more than this in the draw of the next point.
pub const MAX_WEIGHT: u64 = 0x1000_0000_0000;

/// The measure of how evenly the pheromone is spread.
///
/// The engine asks it once in each generation and is proved correct for
/// every answer. An implementation takes the entries of the matrix, each
/// divided by their sum, as a distribution and returns its Shannon entropy
/// in bits, in units of 2^-20.
pub trait Entropy {
    fn entropy(&mut self, pheromone_matrix: &Vec<u64>) -> (bits: u64);
}

/// `value * numerator / denominator`, as far as 64 bits hold it.
pub open spec fn scaled(value: int, numerator: int, denominator: int) -> int {
    let exact = value * numerator / denominator;
    if exact > u64::MAX {
        u64::MAX as int
    } else {
        exact
    }
}

/// `value` scaled `times` times over.
pub open spec fn scaled_repeatedly(value: int, numerator: int, denominator: int, times: nat) -> int
    decreases times,
{
    if times == 0 {
        value
    } else {
        scaled(
            scaled_repeatedly(value, numerator, denominator, (times - 1) as nat),
            numerator,
            denominator,
        )
    }
}

/// A pheromone level after evaporation at `rate`.
pub open spec fn evaporated(level: int, rate: int) -> int {
    level * (WHOLE - rate) / (WHOLE as int)
}

/// What a tour of length `cost` lays on each of its edges at rank weight
/// `weight`: that many times `q`, divided by the length, a length of zero
/// counting as one.
pub open spec fn deposit_of(weight: int, q: int, cost: int) -> int {
    scaled(weight, q, if cost < 1 {
        1
    } else {
        cost
    })
}

/// A distance as the draw of the next point counts it: a distance of zero
/// counts as one.
pub open spec fn reach(distance: int) -> int {
    if distance < 1 {
        1
    } else {
        distance
    }
}

/// The distance from `current` to the nearest of the points on offer.
pub open spec fn least_distance(matrix: Seq<u64>, n: nat, current: int, open: Seq<usize>) -> int
    decreases open.len(),
{
    if open.len() == 0 {
        u64::MAX as int
    } else {
        let before = least_distance(matrix, n, current, open.drop_last());
        let here = entry(matrix, n, current, open.last() as int);
        if here < before {
            here
        } else {
            before
        }
    }
}

/// How much a point attracts an ant: the pheromone on the edge to it,
/// raised to the power `alpha`, times the nearness of the point, raised to
/// the power `beta`. The nearness is the distance of the nearest point on
/// offer divided by the distance of this point. No attraction counts for
/// more than `MAX_WEIGHT`.
pub open spec fn attraction(level: int, nearest: int, distance: int, alpha: nat, beta: nat) -> int {
    let strength = scaled_repeatedly(ONE as int, level, ONE as int, alpha);
    let pull = scaled_repeatedly(strength, reach(nearest), reach(distance), beta);
    if pull > MAX_WEIGHT {
        MAX_WEIGHT as int
    } else {
        pull
    }
}

/// Where the wheel stops: the first position from `from` on at which the
/// draw falls below the weight, each weight passed over being taken off the
/// draw; the last position where it falls below none.
pub open spec fn wheel_from(weights: Seq<u64>, from: int, draw: int) -> int
    decreases weights.len() - from,
{
    if from >= weights.len() - 1 {
        weights.len() - 1
    } else if draw < weights[from] {
        from
    } else {
        wheel_from(weights, from + 1, draw - weights[from])
    }
}

/// The exponent of nearness for a pheromone matrix of the given entropy
/// over `n` points: 5 where the entropy is at most three tenths of
/// `n * (n - 1) / 2` bits, 4 up to five tenths, 3 up to seven tenths, and 2
/// above. `entropy` is in units of 2^-20 bits.
pub open spec fn beta_for(entropy: int, n: int) -> int {
    let most = (n * (n - 1) / 2) * ONE;
    if entropy * 10 > most * 7 {
        2
    } else if entropy * 10 > most * 5 {
        3
    } else if entropy * 10 > most * 3 {
        4
    } else {
        5
    }
}

/// A lower entropy never gives a lower exponent.
pub proof fn lemma_beta_for_falls(low: int, high: int, n: int)
    requires
        low <= high,
    ensures
        beta_for(low, n) >= beta_for(high, n),
{
}

/// The rate of evaporation for the next generation: `rho0` during the
/// first `omega` of `stall_limit` generations; afterwards the present rate,
/// times `gamma` and no lower than `MIN_RATE` once more than `s_threshold`
/// generations have passed without a better tour.
pub open spec fn next_rate(
    rate: int,
    rho0: int,
    gamma: int,
    omega: int,
    stall_limit: int,
    s: int,
    s_threshold: int,
    iteration: int,
) -> int {
    if iteration < omega * stall_limit / (WHOLE as int) {
        rho0
    } else if s > s_threshold {
        let lower = rate * gamma / (WHOLE as int);
        if lower < MIN_RATE {
            MIN_RATE as int
        } else {
            lower
        }
    } else {
        rate
    }
}

/// `value * numerator / denominator`, as far as 64 bits hold it.
pub fn scale(value: u64, numerator: u64, denominator: u64) -> (result: u64)
    requires
        denominator > 0,
    ensures
        result == scaled(value as int, numerator as int, denominator as int),
{
    assert(value * numerator <= 0xffff_ffff_ffff_ffff * 0xffff_ffff_ffff_ffff) by (nonlinear_arith)
        requires
            value <= 0xffff_ffff_ffff_ffff,
            numerator <= 0xffff_ffff_ffff_ffff,
    ;
    let exact: u128 = (value as u128) * (numerator as u128) / (denominator as u128);
    if exact > u64::MAX as u128 {
        u64::MAX
    } else {
        exact as u64
    }
}

/// `value` scaled `times` times over.
pub fn scale_repeatedly(value: u64, numerator: u64, denominator: u64, times: u32) -> (result: u64)
    requires
        denominator > 0,
    ensures
        result == scaled_repeatedly(
            value as int,
            numerator as int,
            denominator as int,
            times as nat,
        ),
{
    let mut result = value;
    let mut done: u32 = 0;
    while done < times
        invariant
            done <= times,
            denominator > 0,
            result == scaled_repeatedly(
                value as int,
                numerator as int,
                denominator as int,
                done as nat,
            ),
        decreases times - done,
    {
        result = scale(result, numerator, denominator);
        done += 1;
    }
    result
}

/// Where the wheel stops for a draw.
pub fn wheel(weights: &Vec<u64>, draw: u64) -> (stop: usize)
    requires
        weights@.len() > 0,
    ensures
        stop == wheel_from(weights@, 0, draw as int),
        stop < weights@.len(),
{
    let mut left = draw;
    let mut at: usize = 0;
    while at < weights.len() - 1
        invariant
            at <= weights@.len() - 1,
            wheel_from(weights@, 0, draw as int) == wheel_from(weights@, at as int, left as int),
        decreases weights@.len() - at,
    {
        if left < weights[at] {
            return at;
        }
        left -= weights[at];
        at += 1;
    }
    at
}

/// The exponent of nearness for a pheromone matrix of the given entropy.
pub fn beta_for_entropy(entropy: u64, n: usize) -> (beta: u32)
    requires
        n <= 0xffff,
    ensures
        beta == beta_for(entropy as int, n as int),
        2 <= beta <= 5,
{
    let pairs: u128 = if n == 0 {
        0
    } else {
        assert(n * (n - 1) <= 0xffff * 0xffff) by (nonlinear_arith)
            requires
                1 <= n <= 0xffff,
        ;
        (n as u128) * ((n - 1) as u128) / 2
    };
    assert(pairs * ONE <= 0xffff * 0xffff * 0x10_0000) by (nonlinear_arith)
        requires
            pairs <= 0xffff * 0xffff,
    ;
    assert(pairs as int == (n as int * (n as int - 1)) / 2) by (nonlinear_arith)
        requires
            n == 0 ==> pairs == 0,
            n > 0 ==> pairs as int == ((n as int) * ((n - 1) as int)) / 2,
            n >= 0,
    ;
    let most: u128 = pairs * (ONE as u128);
    let tenfold: u128 = (entropy as u128) * 10;
    if tenfold > most * 7 {
        2
    } else if tenfold > most * 5 {
        3
    } else if tenfold > most * 3 {
        4
    } else {
        5
    }
}

/// The entries of `list`, in their order, that are not marked in
/// `visited`.
pub open spec fn kept_open(list: Seq<usize>, visited: Seq<bool>) -> Seq<usize>
    decreases list.len(),
{
    if list.len() == 0 {
        Seq::empty()
    } else {
        let front = kept_open(list.drop_last(), visited);
        if !visited[list.last() as int] {
            front.push(list.last())
        } else {
            front
        }
    }
}

/// The points below `upto`, by ascending index, that are not marked in
/// `visited` and are not `current`.
pub open spec fn all_open(visited: Seq<bool>, current: int, upto: int) -> Seq<usize>
    decreases upto,
{
    if upto <= 0 {
        Seq::empty()
    } else {
        let front = all_open(visited, current, upto - 1);
        if !visited[upto - 1] && upto - 1 != current {
            front.push((upto - 1) as usize)
        } else {
            front
        }
    }
}

/// The points on offer to an ant at `current`: the points of its candidate
/// list that it has not visited, nearest first; where there is none, every
/// other point that it has not visited, by ascending index.
pub open spec fn offer(listed: Seq<usize>, visited: Seq<bool>, current: int) -> Seq<usize> {
    let kept = kept_open(listed, visited);
    if kept.len() > 0 {
        kept
    } else {
        all_open(visited, current, visited.len() as int)
    }
}

/// How much each of the points on offer attracts an ant at `current`.
pub open spec fn weights_of(
    open: Seq<usize>,
    pheromone: Seq<u64>,
    matrix: Seq<u64>,
    n: nat,
    current: int,
    alpha: nat,
    beta: nat,
) -> Seq<u64> {
    Seq::new(
        open.len(),
        |k: int|
            attraction(
                entry(pheromone, n, current, open[k] as int),
                least_distance(matrix, n, current, open),
                entry(matrix, n, current, open[k] as int),
                alpha,
                beta,
            ) as u64,
    )
}

/// What `kept_open` holds: the entries of the list that are not marked,
/// once each where the list has no repetitions.
pub proof fn lemma_kept_open(list: Seq<usize>, visited: Seq<bool>)
    ensures
        kept_open(list, visited).len() <= list.len(),
        forall|x: usize| #[trigger]
            kept_open(list, visited).contains(x) <==> list.contains(x) && !visited[x as int],
        list.no_duplicates() ==> kept_open(list, visited).no_duplicates(),
    decreases list.len(),
{
    let all = kept_open(list, visited);
    if list.len() > 0 {
        let front_list = list.drop_last();
        let last = list.last();
        let front = kept_open(front_list, visited);
        lemma_kept_open(front_list, visited);
        assert forall|x: usize| #[trigger] all.contains(x) <==> list.contains(x) && !visited[x as int] by {
            if all.contains(x) {
                let k = choose|k: int| 0 <= k < all.len() && all[k] == x;
                if k < front.len() {
                    assert(front[k] == x);
                    assert(front.contains(x));
                    let w = choose|w: int| 0 <= w < front_list.len() && front_list[w] == x;
                    assert(list[w] == x);
                } else {
                    assert(list[list.len() - 1] == x);
                }
            }
            if list.contains(x) && !visited[x as int] {
                let w = choose|w: int| 0 <= w < list.len() && list[w] == x;
                if w < front_list.len() {
                    assert(front_list[w] == x);
                    assert(front.contains(x));
                    let k = choose|k: int| 0 <= k < front.len() && front[k] == x;
                    assert(all[k] == x);
                } else {
                    assert(all[all.len() - 1] == x);
                }
            }
        }
        if list.no_duplicates() {
            assert(front_list.no_duplicates());
            if !visited[last as int] {
                if front.contains(last) {
                    let w = choose|w: int| 0 <= w < front_list.len() && front_list[w] == last;
                    assert(list[w] == list[list.len() - 1]);
                }
                assert forall|i: int, j: int| 0 <= i < all.len() && 0 <= j < all.len() && i
                    != j implies all[i] != all[j] by {
                    if i < front.len() && j < front.len() {
                        assert(front[i] != front[j]);
                    } else if i < front.len() {
                        assert(front.contains(front[i]));
                    } else {
                        assert(front.contains(front[j]));
                    }
                }
            }
        }
    }
}

/// What `all_open` holds: every point below `upto` that is not marked and
/// is not `current`, once.
pub proof fn lemma_all_open(visited: Seq<bool>, current: int, upto: int)
    requires
        0 <= upto <= visited.len(),
        upto <= usize::MAX,
    ensures
        forall|x: usize| #[trigger]
            all_open(visited, current, upto).contains(x) <==> x < upto && !visited[x as int] && x
                != current,
        all_open(visited, current, upto).no_duplicates(),
    decreases upto,
{
    let all = all_open(visited, current, upto);
    if upto > 0 {
        let front = all_open(visited, current, upto - 1);
        lemma_all_open(visited, current, upto - 1);
        let last = (upto - 1) as usize;
        assert forall|x: usize| #[trigger] all.contains(x) <==> x < upto && !visited[x as int] && x
            != current by {
            if all.contains(x) {
                let k = choose|k: int| 0 <= k < all.len() && all[k] == x;
                if k < front.len() {
                    assert(front[k] == x);
                    assert(front.contains(x));
                }
            }
            if x < upto && !visited[x as int] && x != current {
                if x < upto - 1 {
                    assert(front.contains(x));
                    let k = choose|k: int| 0 <= k < front.len() && front[k] == x;
                    assert(all[k] == x);
                } else {
                    assert(all[all.len() - 1] == x);
                }
            }
        }
        if !visited[upto - 1] && upto - 1 != current {
            assert forall|i: int, j: int| 0 <= i < all.len() && 0 <= j < all.len() && i
                != j implies all[i] != all[j] by {
                if i < front.len() && j < front.len() {
                    assert(front[i] != front[j]);
                } else if i < front.len() {
                    assert(front.contains(front[i]));
                } else {
                    assert(front.contains(front[j]));
                }
            }
        }
    }
}

/// Wherever the candidate list of a point of `path` holds a point that the
/// path has not visited before, the path goes on to a point of that list.
pub open spec fn follows_candidates(path: Seq<u16>, lists: Seq<Vec<usize>>, n: nat) -> bool {
    forall|k: int|
        0 <= k < path.len() - 1 && (exists|c: usize|
            c < n && !path.take(k + 1).contains(c as u16) && #[trigger] lists[path[k] as int]@.contains(
                c,
            )) ==> lists[path[k] as int]@.contains(#[trigger] path[k + 1] as usize)
}

/// `next` is the point on offer at which the wheel stops for `draw`, a
/// draw below the sum of the weights, or 0 where the sum is 0.
pub open spec fn stops_at(open: Seq<usize>, weights: Seq<u64>, draw: int, next: usize) -> bool {
    &&& 0 <= draw
    &&& draw < total_weight(weights) || draw == 0
    &&& next == open[wheel_from(weights, 0, draw)]
}

/// A pheromone matrix is square of side `n`.
pub open spec fn is_trail(pheromone: Seq<u64>, n: nat) -> bool {
    pheromone.len() == n * n
}

/// `entry` is what refining leaves of the ranked tour `rough`: its 2-opt
/// tour with its length where it is `refined`, the tour itself otherwise.
pub open spec fn is_refined_entry(
    entry: (Vec<u16>, u64),
    rough: (Vec<u16>, u64),
    matrix: Seq<u64>,
    n: nat,
    refined: bool,
) -> bool {
    if refined {
        &&& entry.0@ == two_opt_of(rough.0@, matrix, n)
        &&& entry.1 == tour_length(entry.0@, matrix, n)
    } else {
        &&& entry.0@ == rough.0@
        &&& entry.1 == rough.1
    }
}

/// `ranked` holds the tours of `first`, the first `top_k` of them refined
/// by 2-opt.
pub open spec fn is_refinement_of(
    ranked: Seq<(Vec<u16>, u64)>,
    first: Seq<(Vec<u16>, u64)>,
    matrix: Seq<u64>,
    n: nat,
    top_k: int,
) -> bool {
    &&& ranked.len() == first.len()
    &&& forall|k: int|
        0 <= k < ranked.len() ==> is_refined_entry(#[trigger] ranked[k], first[k], matrix, n, k < top_k)
}

/// `ranked` holds the tours of `paths` by ascending length, tours of equal
/// length in the order in which `paths` holds them, the first `top_k` of
/// them refined by 2-opt.
pub open spec fn is_refined_ranking(
    ranked: Seq<(Vec<u16>, u64)>,
    paths: Seq<(Vec<u16>, u64)>,
    matrix: Seq<u64>,
    n: nat,
    top_k: int,
) -> bool {
    exists|first: Seq<(Vec<u16>, u64)>, order: Seq<(u64, usize)>| #[trigger]
        is_ranking_of(first, paths, order) && is_refinement_of(ranked, first, matrix, n, top_k)
}

/// The closed tour `path` runs, at its step from position `w`, along the
/// edge between the points `i` and `j`, in one direction or the other.
pub open spec fn is_step(path: Seq<u16>, w: int, i: int, j: int) -> bool {
    (path[w] == i && next_on(path, w) == j) || (path[w] == j && next_on(path, w) == i)
}

/// How often the closed tour `path` runs along the edge between `i` and
/// `j` at its first `upto` steps.
pub open spec fn edge_hits(path: Seq<u16>, upto: int, i: int, j: int) -> int
    decreases upto,
{
    if upto <= 0 {
        0
    } else {
        edge_hits(path, upto - 1, i, j) + if is_step(path, upto - 1, i, j) {
            1int
        } else {
            0int
        }
    }
}

/// What the first `ranks` of the ranked tours lay on the edge from `i` to
/// `j`: each `deposit_of` its rank weight and length, as often as it runs
/// along the edge.
pub open spec fn laid_by(
    ranked: Seq<(Vec<u16>, u64)>,
    lambda: int,
    q: int,
    ranks: int,
    i: int,
    j: int,
) -> int
    decreases ranks,
{
    if ranks <= 0 {
        0
    } else {
        laid_by(ranked, lambda, q, ranks - 1, i, j) + deposit_of(
            lambda - (ranks - 1),
            q,
            ranked[ranks - 1].1 as int,
        ) * edge_hits(ranked[ranks - 1].0@, ranked[ranks - 1].0@.len() as int, i, j)
    }
}

/// A level as 64 bits hold it.
pub open spec fn topped(level: int) -> int {
    if level > u64::MAX {
        u64::MAX as int
    } else {
        level
    }
}

/// `after` is the pheromone matrix `before` after one cycle: on every edge
/// what evaporation at `rate` leaves and what the first `lambda` of the
/// ranked tours lay on it.
pub open spec fn is_laid_on(
    after: Seq<u64>,
    before: Seq<u64>,
    n: nat,
    rate: int,
    ranked: Seq<(Vec<u16>, u64)>,
    lambda: int,
    q: int,
) -> bool {
    forall|i: int, j: int|
        0 <= i < n && 0 <= j < n ==> #[trigger] entry(after, n, i, j) == topped(
            evaporated(entry(before, n, i, j), rate) + laid_by(
                ranked,
                lambda,
                q,
                if lambda < ranked.len() {
                    lambda
                } else {
                    ranked.len() as int
                },
                i,
                j,
            ),
        )
}

/// A tour runs along an edge no fewer than zero times, and as often in one
/// direction as in the other.
pub proof fn lemma_edge_hits_bounds(path: Seq<u16>, upto: int, i: int, j: int)
    ensures
        edge_hits(path, upto, i, j) >= 0,
        edge_hits(path, upto, i, j) == edge_hits(path, upto, j, i),
    decreases upto,
{
    if upto > 0 {
        lemma_edge_hits_bounds(path, upto - 1, i, j);
    }
}

/// What is laid on an edge is not below zero.
pub proof fn lemma_laid_by_bounds(
    ranked: Seq<(Vec<u16>, u64)>,
    lambda: int,
    q: int,
    ranks: int,
    i: int,
    j: int,
)
    requires
        q >= 0,
        ranks <= lambda,
    ensures
        laid_by(ranked, lambda, q, ranks, i, j) >= 0,
    decreases ranks,
{
    if ranks > 0 {
        lemma_laid_by_bounds(ranked, lambda, q, ranks - 1, i, j);
        let path = ranked[ranks - 1].0@;
        lemma_edge_hits_bounds(path, path.len() as int, i, j);
        let weight = lambda - (ranks - 1);
        let cost = ranked[ranks - 1].1 as int;
        let divisor = if cost < 1 {
            1
        } else {
            cost
        };
        assert(weight * q / divisor >= 0) by (nonlinear_arith)
            requires
                weight >= 0,
                q >= 0,
                divisor >= 1,
        ;
        let laid = deposit_of(weight, q, cost);
        let hits = edge_hits(path, path.len() as int, i, j);
        assert(laid * hits >= 0) by (nonlinear_arith)
            requires
                laid >= 0,
                hits >= 0,
        ;
    }
}

/// As much is laid from `i` to `j` as from `j` to `i`.
pub proof fn lemma_laid_by_symmetric(
    ranked: Seq<(Vec<u16>, u64)>,
    lambda: int,
    q: int,
    ranks: int,
    i: int,
    j: int,
)
    ensures
        laid_by(ranked, lambda, q, ranks, i, j) == laid_by(ranked, lambda, q, ranks, j, i),
    decreases ranks,
{
    if ranks > 0 {
        lemma_laid_by_symmetric(ranked, lambda, q, ranks - 1, i, j);
        let path = ranked[ranks - 1].0@;
        lemma_edge_hits_bounds(path, path.len() as int, i, j);
    }
}

/// A tour of two points or more never steps from a point to itself.
pub proof fn lemma_no_step_to_itself(path: Seq<u16>, n: nat, upto: int, d: int)
    requires
        is_tour(path, n),
        n >= 2,
        upto <= path.len(),
    ensures
        edge_hits(path, upto, d, d) == 0,
    decreases upto,
{
    if upto > 0 {
        lemma_no_step_to_itself(path, n, upto - 1, d);
        let w = upto - 1;
        if w + 1 < path.len() {
            assert(path[w] != path[w + 1]);
        } else {
            assert(path[w] != path[0]);
        }
    }
}

/// Tours lay nothing from a point to itself.
pub proof fn lemma_nothing_laid_on_itself(
    ranked: Seq<(Vec<u16>, u64)>,
    matrix: Seq<u64>,
    n: nat,
    lambda: int,
    q: int,
    ranks: int,
    d: int,
)
    requires
        are_valid_paths(ranked, matrix, n),
        n >= 2,
        ranks <= ranked.len(),
    ensures
        laid_by(ranked, lambda, q, ranks, d, d) == 0,
    decreases ranks,
{
    if ranks > 0 {
        lemma_nothing_laid_on_itself(ranked, matrix, n, lambda, q, ranks - 1, d);
        let path = ranked[ranks - 1].0@;
        assert(is_tour(path, n));
        lemma_no_step_to_itself(path, n, path.len() as int, d);
    }
}

/// The lengths of the listed tours.
pub open spec fn costs_of(paths: Seq<(Vec<u16>, u64)>) -> Seq<u64> {
    Seq::new(paths.len(), |k: int| paths[k].1)
}

/// The least of `best` and the costs.
pub open spec fn least_with(best: int, costs: Seq<u64>) -> int
    decreases costs.len(),
{
    if costs.len() == 0 {
        best
    } else {
        let before = least_with(best, costs.drop_last());
        if costs.last() < before {
            costs.last() as int
        } else {
            before
        }
    }
}

/// The least of `best` and the costs of the generations from `from` up to,
/// not including, `upto`.
pub open spec fn least_over(best: int, built: Seq<Seq<u64>>, from: int, upto: int) -> int
    decreases upto - from,
{
    if upto <= from {
        best
    } else {
        least_with(least_over(best, built, from, upto - 1), built[upto - 1])
    }
}

/// Generation `g` brought a tour shorter than `best` and than every tour
/// of the generations from `from` on before it.
pub open spec fn brought_better(best: int, built: Seq<Seq<u64>>, from: int, g: int) -> bool {
    least_over(best, built, from, g + 1) < least_over(best, built, from, g)
}

/// The least of a cost and more costs is none of them exceeded.
pub proof fn lemma_least_with(best: int, costs: Seq<u64>)
    ensures
        least_with(best, costs) <= best,
        forall|k: int| 0 <= k < costs.len() ==> least_with(best, costs) <= #[trigger] costs[k],
        least_with(best, costs) == best || exists|k: int|
            0 <= k < costs.len() && least_with(best, costs) == #[trigger] costs[k],
    decreases costs.len(),
{
    if costs.len() > 0 {
        let front = costs.drop_last();
        lemma_least_with(best, front);
        assert forall|k: int| 0 <= k < costs.len() implies least_with(best, costs) <= #[trigger] costs[k] by {
            if k < front.len() {
                assert(front[k] == costs[k]);
            }
        }
        if least_with(best, costs) != best {
            if costs.last() < least_with(best, front) {
                assert(least_with(best, costs) == costs[costs.len() - 1]);
            } else {
                let k = choose|k: int|
                    0 <= k < front.len() && least_with(best, front) == #[trigger] front[k];
                assert(costs[k] == front[k]);
            }
        }
    }
}

/// The least over generations exceeds neither the cost it starts from nor
/// any cost of these generations, and falls as generations are added.
pub proof fn lemma_least_over(best: int, built: Seq<Seq<u64>>, from: int, middle: int, upto: int)
    requires
        0 <= from <= middle <= upto <= built.len(),
    ensures
        least_over(best, built, from, upto) <= least_over(best, built, from, middle) <= best,
        forall|g: int, k: int|
            from <= g < upto && 0 <= k < built[g].len() ==> least_over(best, built, from, upto)
                <= #[trigger] built[g][k],
    decreases upto - from,
{
    if upto > from {
        let before = least_over(best, built, from, upto - 1);
        lemma_least_with(before, built[upto - 1]);
        if middle < upto {
            lemma_least_over(best, built, from, middle, upto - 1);
        } else {
            lemma_least_over(best, built, from, upto - 1, upto - 1);
        }
        assert forall|g: int, k: int| from <= g < upto && 0 <= k < built[g].len() implies least_over(
            best,
            built,
            from,
            upto,
        ) <= #[trigger] built[g][k] by {
            if g < upto - 1 {
                assert(before <= built[g][k]);
            }
        }
    }
}

/// The least over generations depends on these generations only.
pub proof fn lemma_least_over_same(
    best: int,
    one: Seq<Seq<u64>>,
    other: Seq<Seq<u64>>,
    from: int,
    upto: int,
)
    requires
        0 <= from,
        upto <= one.len(),
        upto <= other.len(),
        forall|g: int| from <= g < upto ==> #[trigger] one[g] == other[g],
    ensures
        least_over(best, one, from, upto) == least_over(best, other, from, upto),
    decreases upto - from,
{
    if upto > from {
        lemma_least_over_same(best, one, other, from, upto - 1);
        assert(one[upto - 1] == other[upto - 1]);
    }
}

/// The state of an ant colony run.
pub struct AntColonyOptimization<E: Entropy> {
    pub cities: Vec<City>,
    pub distance_matrix: Vec<u64>,
    /// The exponent of the pheromone in the attraction of a point.
    pub alpha: u32,
    /// The exponent of the nearness in the attraction of a point.
    pub beta: u32,
    /// The rate of evaporation.
    pub vaporation_rate: u64,
    /// The rate of evaporation at the start.
    pub rho0: u64,
    /// By how much the rate of evaporation is lowered at a time.
    pub gamma: u64,
    /// The share of `stall_limit` during which the rate stays at `rho0`.
    pub omega: u64,
    /// After how many generations without a better tour the run ends.
    pub stall_limit: usize,
    /// The generations gone by without a better tour.
    pub s: usize,
    /// After how many such generations the rate is lowered.
    pub s_threshold: usize,
    pub rng: ThreadRng,
    pub num_ants: usize,
    /// What a tour lays on its edges, before its rank and length count.
    pub q: u64,
    pub best_path: Vec<u16>,
    /// The length of the best tour, `u64::MAX` while there is none.
    pub best_cost: u64,
    pub candidate_lists: Vec<Vec<usize>>,
    pub gauge: E,
    /// The lengths of the tours that the ants have built, generation by
    /// generation, all runs of this engine together.
    pub built: Ghost<Seq<Seq<u64>>>,
}

impl<E: Entropy> AntColonyOptimization<E> {
    /// The number of points.
    pub open spec fn n(&self) -> nat {
        self.cities@.len()
    }

    /// How many nearest points the candidate list of a point holds: a
    /// quarter of the number of points, rounded up.
    pub open spec fn list_size(n: nat) -> nat {
        (n + 3) / 4
    }

    /// The state is consistent: the matrix is that of the points, each
    /// point has its list of nearest points, the rates are rates, and what
    /// is recorded as best is a tour with its length.
    pub open spec fn wf(&self) -> bool {
        &&& is_instance(self.cities@, self.distance_matrix@)
        &&& self.candidate_lists@.len() == self.n()
        &&& forall|i: int|
            0 <= i < self.n() ==> is_nearest_list(
                (#[trigger] self.candidate_lists@[i])@,
                self.distance_matrix@,
                self.n(),
                i,
                Self::list_size(self.n()),
                Seq::<usize>::empty(),
            )
        &&& self.vaporation_rate <= WHOLE
        &&& self.rho0 <= WHOLE
        &&& self.gamma <= WHOLE
        &&& self.omega <= WHOLE
        &&& self.alpha <= 16
        &&& self.beta <= 16
        &&& self.stall_limit < 0xffff_ffff
        &&& 1 <= self.num_ants <= 0xffff
        &&& self.best_cost < u64::MAX ==> self.has_best()
    }

    /// The best tour is a tour and `best_cost` is its length.
    pub open spec fn has_best(&self) -> bool {
        &&& is_tour(self.best_path@, self.n())
        &&& self.best_cost == tour_length(self.best_path@, self.distance_matrix@, self.n())
    }

    /// The same instance and the same settings.
    pub open spec fn same_task(&self, other: &Self) -> bool {
        &&& self.cities == other.cities
        &&& self.distance_matrix == other.distance_matrix
        &&& self.candidate_lists == other.candidate_lists
        &&& self.rho0 == other.rho0
        &&& self.gamma == other.gamma
        &&& self.omega == other.omega
        &&& self.stall_limit == other.stall_limit
        &&& self.s_threshold == other.s_threshold
        &&& self.num_ants == other.num_ants
        &&& self.q == other.q
        &&& self.alpha == other.alpha
    }

    /// For each point the list of its nearest points, a quarter of all
    /// points, rounded up.
    pub fn build_candidate_lists(distance_matrix: &Vec<u64>, n: usize) -> (lists: Vec<Vec<usize>>)
        requires
            distance_matrix@.len() == n * n,
            n <= 0xffff,
        ensures
            lists@.len() == n,
            forall|i: int|
                0 <= i < n ==> is_nearest_list(
                    (#[trigger] lists@[i])@,
                    distance_matrix@,
                    n as nat,
                    i,
                    Self::list_size(n as nat),
                    Seq::<usize>::empty(),
                ),
    {
        let list_size = (n + 3) / 4;
        let mut lists: Vec<Vec<usize>> = Vec::with_capacity(n);
        let mut i: usize = 0;
        while i < n
            invariant
                i <= n <= 0xffff,
                distance_matrix@.len() == n * n,
                list_size == Self::list_size(n as nat),
                lists@.len() == i,
                forall|k: int|
                    0 <= k < i ==> is_nearest_list(
                        (#[trigger] lists@[k])@,
                        distance_matrix@,
                        n as nat,
                        k,
                        Self::list_size(n as nat),
                        Seq::<usize>::empty(),
                    ),
            decreases n - i,
        {
            let list = find_n_best_neighbours(distance_matrix, i, n, list_size);
            lists.push(list);
            i += 1;
        }
        lists
    }

    /// An engine for `cities` with 50 ants that reads the spread of the
    /// pheromone from `gauge`: evaporation at 0.75 to begin with and at 0.3
    /// from the first generation on, lowered by a fifth at a time once 30
    /// generations have brought no better tour, but not during the first
    /// 140 generations; the run ends after 200 generations without a
    /// better tour.
    pub fn new(cities: &Vec<City>, gauge: E) -> (engine: Self)
        requires
            2 <= cities@.len() <= 0xffff,
        ensures
            engine.wf(),
            engine.cities@ == cities@,
            engine.best_cost == u64::MAX,
            engine.num_ants == 50,
            engine.alpha == 1,
            engine.beta == 1,
            engine.vaporation_rate == 7500,
            engine.rho0 == 3000,
            engine.gamma == 8000,
            engine.omega == 7000,
            engine.stall_limit == 200,
            engine.s_threshold == 30,
            engine.s == 0,
            engine.q == DEPOSIT,
            engine.built@.len() == 0,
    {
        let n = cities.len();
        assert(n * n <= usize::MAX) by (nonlinear_arith)
            requires
                n <= 0xffff,
        ;
        let min_ants: usize = 50;
        let max_ants: usize = 50;
        let fewer = if n < max_ants {
            n
        } else {
            max_ants
        };
        let ants = if min_ants > fewer {
            min_ants
        } else {
            fewer
        };
        let distance_matrix = create_distance_matrix(cities);
        let candidate_lists = Self::build_candidate_lists(&distance_matrix, n);
        AntColonyOptimization {
            cities: cities.clone(),
            distance_matrix,
            alpha: 1,
            beta: 1,
            vaporation_rate: 7500,
            rho0: 3000,
            gamma: 8000,
            omega: 7000,
            stall_limit: 200,
            s_threshold: 30,
            s: 0,
            rng: thread_generator(),
            num_ants: ants,
            q: DEPOSIT,
            best_path: Vec::new(),
            best_cost: u64::MAX,
            candidate_lists,
            gauge,
            built: Ghost(Seq::empty()),
        }
    }

    /// Sets the rate of evaporation for the generation `iteration`.
    pub fn update_rho(&mut self, iteration: usize)
        requires
            old(self).wf(),
        ensures
            final(self).wf(),
            final(self).same_task(old(self)),
            final(self).beta == old(self).beta,
            final(self).s == old(self).s,
            final(self).best_cost == old(self).best_cost,
            final(self).best_path == old(self).best_path,
            final(self).built == old(self).built,
            final(self).gauge == old(self).gauge,
            final(self).vaporation_rate == next_rate(
                old(self).vaporation_rate as int,
                old(self).rho0 as int,
                old(self).gamma as int,
                old(self).omega as int,
                old(self).stall_limit as int,
                old(self).s as int,
                old(self).s_threshold as int,
                iteration as int,
            ),
    {
        assert(self.omega * self.stall_limit <= 10000 * 0xffff_ffff) by (nonlinear_arith)
            requires
                self.omega <= 10000,
                self.stall_limit <= 0xffff_ffff,
        ;
        assert(self.vaporation_rate * self.gamma <= 10000 * 10000) by (nonlinear_arith)
            requires
                self.vaporation_rate <= 10000,
                self.gamma <= 10000,
        ;
        let quiet: u64 = self.omega * (self.stall_limit as u64) / WHOLE;
        if (iteration as u64) < quiet {
            self.vaporation_rate = self.rho0;
        } else if self.s > self.s_threshold {
            let lower = self.vaporation_rate * self.gamma / WHOLE;
            assert(lower <= 10000) by (nonlinear_arith)
                requires
                    lower == (self.vaporation_rate * self.gamma) / 10000,
                    self.vaporation_rate * self.gamma <= 10000 * 10000,
            ;
            self.vaporation_rate = if lower < MIN_RATE {
                MIN_RATE
            } else {
                lower
            };
        }
    }

    /// A pheromone matrix with the level 1 between any two different
    /// points and no pheromone from a point to itself.
    pub fn create_pheromone_matrix(&mut self, n: usize) -> (pheromone_matrix: Vec<u64>)
        requires
            n * n <= usize::MAX,
        ensures
            *final(self) == *old(self),
            is_trail(pheromone_matrix@, n as nat),
            forall|i: int, j: int|
                0 <= i < n && 0 <= j < n ==> #[trigger] entry(pheromone_matrix@, n as nat, i, j)
                    == if i == j {
                    0
                } else {
                    ONE as int
                },
    {
        let mut pheromone_matrix: Vec<u64> = Vec::new();
        let mut i: usize = 0;
        while i < n
            invariant
                i <= n,
                n * n <= usize::MAX,
                pheromone_matrix@.len() == i * n,
                forall|r: int, c: int|
                    0 <= r < i && 0 <= c < n ==> #[trigger] entry(
                        pheromone_matrix@,
                        n as nat,
                        r,
                        c,
                    ) == if r == c {
                        0
                    } else {
                        ONE as int
                    },
            decreases n - i,
        {
            let mut j: usize = 0;
            while j < n
                invariant
                    i < n,
                    j <= n,
                    n * n <= usize::MAX,
                    pheromone_matrix@.len() == i * n + j,
                    forall|r: int, c: int|
                        0 <= r && 0 <= c < n && (r < i || (r == i && c < j)) ==> #[trigger] entry(
                            pheromone_matrix@,
                            n as nat,
                            r,
                            c,
                        ) == if r == c {
                            0
                        } else {
                            ONE as int
                        },
                decreases n - j,
            {
                let ghost before = pheromone_matrix@;
                pheromone_matrix.push(
                    if i == j {
                        0
                    } else {
                        ONE
                    },
                );
                proof {
                    assert forall|r: int, c: int|
                        0 <= r && 0 <= c < n && (r < i || (r == i && c < j + 1)) implies #[trigger] entry(
                        pheromone_matrix@,
                        n as nat,
                        r,
                        c,
                    ) == if r == c {
                        0
                    } else {
                        ONE as int
                    } by {
                        if r == i && c == j {
                        } else {
                            crate::distance::lemma_cell_order(n as nat, r, c, i as int, j as int);
                            assert(entry(pheromone_matrix@, n as nat, r, c) == entry(
                                before,
                                n as nat,
                                r,
                                c,
                            ));
                        }
                    }
                }
                j += 1;
            }
            assert((i + 1) * n == i * n + n) by (nonlinear_arith);
            i += 1;
        }
        pheromone_matrix
    }

    /// The list of the nearest points of `current`.
    pub fn use_candidate_lists(&self, current: usize) -> (list: &Vec<usize>)
        requires
            current < self.candidate_lists@.len(),
        ensures
            *list == self.candidate_lists@[current as int],
    {
        &self.candidate_lists[current]
    }

    /// All points, by index.
    pub fn use_all_cities(&self) -> (all: Vec<usize>)
        ensures
            all@.len() == self.n(),
            forall|i: int| 0 <= i < all@.len() ==> all@[i] == i,
    {
        let n = self.cities.len();
        let mut all: Vec<usize> = Vec::with_capacity(n);
        let mut i: usize = 0;
        while i < n
            invariant
                i <= n,
                n == self.n(),
                all@.len() == i,
                forall|k: int| 0 <= k < i ==> all@[k] == k,
            decreases n - i,
        {
            all.push(i);
            i += 1;
        }
        all
    }

    /// The points on offer to an ant at `current`: the points of the
    /// candidate list that it has not visited; where it has visited them
    /// all, every other point that it has not visited.
    pub fn open_candidates(&self, current: usize, visited: &Vec<bool>) -> (open: Vec<usize>)
        requires
            self.wf(),
            current < self.n(),
            visited@.len() == self.n(),
        ensures
            open@ == offer(self.candidate_lists@[current as int]@, visited@, current as int),
            forall|k: int|
                0 <= k < open@.len() ==> (#[trigger] open@[k]) < self.n() && !visited@[open@[k] as int]
                    && open@[k] != current,
            open@.no_duplicates(),
            (exists|c: int|
                0 <= c < self.n() && !visited@[c] && self.candidate_lists@[current as int]@.contains(
                    c as usize,
                )) ==> forall|k: int|
                0 <= k < open@.len() ==> self.candidate_lists@[current as int]@.contains(
                    #[trigger] open@[k],
                ),
            (exists|c: int| 0 <= c < self.n() && !visited@[c] && c != current) ==> open@.len() > 0,
    {
        let n = self.cities.len();
        let list = &self.candidate_lists[current];
        let ghost listed = self.candidate_lists@[current as int]@;
        proof {
            assert(is_nearest_list(
                listed,
                self.distance_matrix@,
                self.n(),
                current as int,
                Self::list_size(self.n()),
                Seq::<usize>::empty(),
            ));
            assert forall|k: int| 0 <= k < listed.len() implies (#[trigger] listed[k]) < n
                && listed[k] != current by {
                assert(crate::neighbours::is_candidate(
                    listed[k] as int,
                    current as int,
                    self.n(),
                    Seq::<usize>::empty(),
                ));
            }
            assert forall|a: int, b: int|
                0 <= a < listed.len() && 0 <= b < listed.len() && a != b implies listed[a]
                != listed[b] by {
                if a < b {
                    assert(crate::neighbours::is_nearer(
                        self.distance_matrix@,
                        self.n(),
                        current as int,
                        listed[a] as int,
                        listed[b] as int,
                    ));
                } else {
                    assert(crate::neighbours::is_nearer(
                        self.distance_matrix@,
                        self.n(),
                        current as int,
                        listed[b] as int,
                        listed[a] as int,
                    ));
                }
            }
            lemma_kept_open(listed, visited@);
            lemma_all_open(visited@, current as int, n as int);
        }
        let mut open: Vec<usize> = Vec::new();
        let mut k: usize = 0;
        while k < list.len()
            invariant
                k <= list@.len(),
                list@ == listed,
                visited@.len() == n,
                forall|w: int| 0 <= w < listed.len() ==> (#[trigger] listed[w]) < n,
                open@ == kept_open(listed.take(k as int), visited@),
            decreases list@.len() - k,
        {
            let city = list[k];
            proof {
                assert(listed[k as int] < n);
                assert(listed.take(k + 1).drop_last() =~= listed.take(k as int));
            }
            if !visited[city] {
                open.push(city);
            }
            k += 1;
        }
        proof {
            assert(listed.take(listed.len() as int) =~= listed);
        }
        if open.len() == 0 {
            let mut i: usize = 0;
            while i < n
                invariant
                    i <= n,
                    visited@.len() == n,
                    open@ == all_open(visited@, current as int, i as int),
                decreases n - i,
            {
                if !visited[i] && i != current {
                    open.push(i);
                }
                i += 1;
            }
            proof {
                assert forall|c: int|
                    0 <= c < self.n() && !visited@[c] && listed.contains(
                        c as usize,
                    ) implies false by {
                    assert(kept_open(listed, visited@).contains(c as usize));
                }
                assert forall|c: int| 0 <= c < self.n() && !visited@[c] && c
                    != current implies open@.len() > 0 by {
                    assert(open@.contains(c as usize));
                }
            }
        } else {
            proof {
                assert forall|w: int| 0 <= w < open@.len() implies (#[trigger] open@[w]) < n
                    && !visited@[open@[w] as int] && open@[w] != current && listed.contains(
                    open@[w],
                ) by {
                    assert(open@.contains(open@[w]));
                    let v = choose|v: int| 0 <= v < listed.len() && listed[v] == open@[w];
                    assert(listed[v] < n && listed[v] != current);
                }
            }
        }
        proof {
            assert forall|w: int| 0 <= w < open@.len() implies (#[trigger] open@[w]) < n
                && !visited@[open@[w] as int] && open@[w] != current by {
                assert(open@.contains(open@[w]));
                if kept_open(listed, visited@).len() > 0 {
                    let v = choose|v: int| 0 <= v < listed.len() && listed[v] == open@[w];
                    assert(listed[v] < n && listed[v] != current);
                }
            }
        }
        open
    }

    /// How much each of the points on offer attracts an ant at `current`.
    pub fn attractions(&self, current: usize, open: &Vec<usize>, pheromone_matrix: &Vec<u64>) -> (weights:
        Vec<u64>)
        requires
            self.wf(),
            current < self.n(),
            is_trail(pheromone_matrix@, self.n()),
            forall|k: int| 0 <= k < open@.len() ==> (#[trigger] open@[k]) < self.n(),
        ensures
            weights@ == weights_of(
                open@,
                pheromone_matrix@,
                self.distance_matrix@,
                self.n(),
                current as int,
                self.alpha as nat,
                self.beta as nat,
            ),
            forall|k: int| 0 <= k < weights@.len() ==> (#[trigger] weights@[k]) <= MAX_WEIGHT,
    {
        let n = self.cities.len();
        let mut nearest: u64 = u64::MAX;
        let mut k: usize = 0;
        while k < open.len()
            invariant
                k <= open@.len(),
                self.wf(),
                n == self.n(),
                current < n,
                forall|w: int| 0 <= w < open@.len() ==> (#[trigger] open@[w]) < n,
                nearest == least_distance(
                    self.distance_matrix@,
                    self.n(),
                    current as int,
                    open@.take(k as int),
                ),
            decreases open@.len() - k,
        {
            assert(open@[k as int] < n);
            let distance = get_in_matrix(&self.distance_matrix, n, current, open[k]);
            proof {
                assert(open@.take(k + 1).drop_last() =~= open@.take(k as int));
            }
            if distance < nearest {
                nearest = distance;
            }
            k += 1;
        }
        proof {
            assert(open@.take(open@.len() as int) =~= open@);
        }
        let mut weights: Vec<u64> = Vec::with_capacity(open.len());
        let mut k: usize = 0;
        while k < open.len()
            invariant
                k <= open@.len(),
                self.wf(),
                n == self.n(),
                current < n,
                is_trail(pheromone_matrix@, self.n()),
                forall|w: int| 0 <= w < open@.len() ==> (#[trigger] open@[w]) < n,
                weights@.len() == k,
                forall|w: int|
                    0 <= w < k ==> (#[trigger] weights@[w]) == attraction(
                        entry(pheromone_matrix@, self.n(), current as int, open@[w] as int),
                        nearest as int,
                        entry(self.distance_matrix@, self.n(), current as int, open@[w] as int),
                        self.alpha as nat,
                        self.beta as nat,
                    ) && weights@[w] <= MAX_WEIGHT,
                nearest == least_distance(self.distance_matrix@, self.n(), current as int, open@),
            decreases open@.len() - k,
        {
            assert(open@[k as int] < n);
            let distance = get_in_matrix(&self.distance_matrix, n, current, open[k]);
            let level = get_in_matrix(pheromone_matrix, n, current, open[k]);
            let strength = scale_repeatedly(ONE, level, ONE, self.alpha);
            let near = if nearest < 1 {
                1
            } else {
                nearest
            };
            let far = if distance < 1 {
                1
            } else {
                distance
            };
            let pull = scale_repeatedly(strength, near, far, self.beta);
            weights.push(
                if pull > MAX_WEIGHT {
                    MAX_WEIGHT
                } else {
                    pull
                },
            );
            k += 1;
        }
        proof {
            assert(weights@ =~= weights_of(
                open@,
                pheromone_matrix@,
                self.distance_matrix@,
                self.n(),
                current as int,
                self.alpha as nat,
                self.beta as nat,
            ));
        }
        weights
    }

    /// The next point for an ant at `current`: the point on offer at which
    /// the wheel of attractions stops for a draw below their sum.
    pub fn chose_next_city(
        &mut self,
        current: usize,
        visited: &Vec<bool>,
        pheromone_matrix: &Vec<u64>,
    ) -> (next: usize)
        requires
            old(self).wf(),
            current < old(self).n(),
            visited@.len() == old(self).n(),
            is_trail(pheromone_matrix@, old(self).n()),
            exists|c: int| 0 <= c < old(self).n() && !visited@[c] && c != current,
        ensures
            final(self).wf(),
            final(self).same_task(old(self)),
            final(self).beta == old(self).beta,
            final(self).s == old(self).s,
            final(self).vaporation_rate == old(self).vaporation_rate,
            final(self).best_cost == old(self).best_cost,
            final(self).best_path == old(self).best_path,
            final(self).built == old(self).built,
            final(self).gauge == old(self).gauge,
            next < old(self).n(),
            !visited@[next as int],
            next != current,
            (exists|c: int|
                0 <= c < old(self).n() && !visited@[c] && old(
                    self,
                ).candidate_lists@[current as int]@.contains(c as usize)) ==> old(
                self,
            ).candidate_lists@[current as int]@.contains(next),
            exists|draw: int| #[trigger]
                stops_at(
                    offer(old(self).candidate_lists@[current as int]@, visited@, current as int),
                    weights_of(
                        offer(
                            old(self).candidate_lists@[current as int]@,
                            visited@,
                            current as int,
                        ),
                        pheromone_matrix@,
                        old(self).distance_matrix@,
                        old(self).n(),
                        current as int,
                        old(self).alpha as nat,
                        old(self).beta as nat,
                    ),
                    draw,
                    next,
                ),
    {
        let open = self.open_candidates(current, visited);
        let weights = self.attractions(current, &open, pheromone_matrix);
        let mut sum: u64 = 0;
        let mut k: usize = 0;
        proof {
            lemma_listed_are_few(open@, self.n());
            assert(open@.len() * MAX_WEIGHT <= 0xffff * 0x1000_0000_0000) by (nonlinear_arith)
                requires
                    open@.len() <= 0xffff,
            ;
        }
        while k < weights.len()
            invariant
                k <= weights@.len(),
                weights@.len() <= 0xffff,
                forall|w: int| 0 <= w < weights@.len() ==> (#[trigger] weights@[w]) <= MAX_WEIGHT,
                sum <= k * MAX_WEIGHT,
                sum == total_weight(weights@.take(k as int)),
            decreases weights@.len() - k,
        {
            proof {
                assert(weights@.take(k + 1).drop_last() =~= weights@.take(k as int));
            }
            assert((k + 1) * MAX_WEIGHT == k * MAX_WEIGHT + MAX_WEIGHT) by (nonlinear_arith);
            assert((k + 1) * MAX_WEIGHT <= 0xffff * 0x1000_0000_0000) by (nonlinear_arith)
                requires
                    k + 1 <= 0xffff,
            ;
            assert(weights@[k as int] <= MAX_WEIGHT);
            sum += weights[k];
            k += 1;
        }
        let draw = if sum == 0 {
            0
        } else {
            draw_length_below(&mut self.rng, sum)
        };
        let stop = wheel(&weights, draw);
        let next = open[stop];
        proof {
            assert(open@.contains(open@[stop as int]));
            assert(weights@.take(weights@.len() as int) =~= weights@);
            assert(stops_at(open@, weights@, draw as int, next));
        }
        next
    }
}

/// A list of different points below `n` has at most `n` entries.
pub proof fn lemma_listed_are_few(list: Seq<usize>, n: nat)
    requires
        list.no_duplicates(),
        n <= 0xffff,
        forall|k: int| 0 <= k < list.len() ==> (#[trigger] list[k]) < n,
    ensures
        list.len() <= n,
{
    let short = list.map_values(|c: usize| c as u16);
    assert forall|i: int, j: int| 0 <= i < short.len() && 0 <= j < short.len() && i
        != j implies short[i] != short[j] by {
        assert(list[i] != list[j]);
        assert(list[i] < n && list[j] < n);
    }
    assert forall|i: int| 0 <= i < short.len() implies (#[trigger] short[i]) < n by {
        assert(list[i] < n);
    }
    crate::tour::lemma_partial_tour_len(short, n);
}

/// Two cells of a square matrix with the same index are the same cell.
pub proof fn lemma_cell_unique(n: nat, i: int, j: int, r: int, c: int)
    requires
        0 <= i < n,
        0 <= j < n,
        0 <= r < n,
        0 <= c < n,
        i * n + j == r * n + c,
    ensures
        i == r,
        j == c,
{
    assert(i == r && j == c) by (nonlinear_arith)
        requires
            0 <= i < n,
            0 <= j < n,
            0 <= r < n,
            0 <= c < n,
            i * n + j == r * n + c,
    ;
}

/// Every tour of the list is a tour through `n` points, listed with its
/// length.
pub open spec fn are_valid_paths(paths: Seq<(Vec<u16>, u64)>, matrix: Seq<u64>, n: nat) -> bool {
    forall|k: int|
        0 <= k < paths.len() ==> is_tour((#[trigger] paths[k]).0@, n) && paths[k].1 == tour_length(
            paths[k].0@,
            matrix,
            n,
        )
}

/// `ranked` holds the tours of `paths` by ascending length, tours of equal
/// length in the order in which `paths` holds them.
pub open spec fn is_ranking_of(
    ranked: Seq<(Vec<u16>, u64)>,
    paths: Seq<(Vec<u16>, u64)>,
    order: Seq<(u64, usize)>,
) -> bool {
    &&& ranked.len() == paths.len()
    &&& order.len() == paths.len()
    &&& order.no_duplicates()
    &&& forall|a: int, b: int|
        0 <= a < b < order.len() ==> pair_le(#[trigger] order[a], #[trigger] order[b])
    &&& forall|k: int|
        0 <= k < order.len() ==> {
            &&& (#[trigger] order[k]).1 < paths.len()
            &&& order[k].0 == paths[order[k].1 as int].1
            &&& ranked[k].0@ == paths[order[k].1 as int].0@
            &&& ranked[k].1 == paths[order[k].1 as int].1
        }
}

/// The tours by ascending length, tours of equal length in the order in
/// which they are listed.
pub fn rank_by_cost(paths: &Vec<(Vec<u16>, u64)>) -> (ranked: Vec<(Vec<u16>, u64)>)
    ensures
        exists|order: Seq<(u64, usize)>| #[trigger] is_ranking_of(ranked@, paths@, order),
{
    let mut keys: Vec<(u64, usize)> = Vec::with_capacity(paths.len());
    let mut i: usize = 0;
    while i < paths.len()
        invariant
            i <= paths@.len(),
            keys@.len() == i,
            forall|k: int| 0 <= k < i ==> (#[trigger] keys@[k]) == (paths@[k].1, k as usize),
        decreases paths@.len() - i,
    {
        keys.push((paths[i].1, i));
        i += 1;
    }
    let ghost unsorted = keys@;
    sort_pairs(&mut keys);
    proof {
        broadcast use vstd::seq_lib::group_to_multiset_ensures;
        assert(unsorted.no_duplicates());
        unsorted.lemma_multiset_has_no_duplicates();
        keys@.lemma_multiset_has_no_duplicates_conv();
        to_multiset_len(unsorted);
        to_multiset_len(keys@);
        assert forall|k: int| 0 <= k < keys@.len() implies (#[trigger] keys@[k]).1 < paths@.len()
            && keys@[k].0 == paths@[keys@[k].1 as int].1 by {
            assert(keys@.to_multiset().count(keys@[k]) > 0);
            assert(unsorted.contains(keys@[k]));
            let w = choose|w: int| 0 <= w < unsorted.len() && unsorted[w] == keys@[k];
            assert(unsorted[w] == (paths@[w].1, w as usize));
        }
    }
    let mut ranked: Vec<(Vec<u16>, u64)> = Vec::with_capacity(paths.len());
    let mut k: usize = 0;
    while k < keys.len()
        invariant
            k <= keys@.len(),
            keys@.len() == paths@.len(),
            ranked@.len() == k,
            forall|w: int|
                0 <= w < keys@.len() ==> (#[trigger] keys@[w]).1 < paths@.len() && keys@[w].0
                    == paths@[keys@[w].1 as int].1,
            forall|w: int|
                0 <= w < k ==> (#[trigger] ranked@[w]).0@ == paths@[keys@[w].1 as int].0@
                    && ranked@[w].1 == paths@[keys@[w].1 as int].1,
        decreases keys@.len() - k,
    {
        let from = keys[k].1;
        assert(keys@[k as int].1 < paths@.len());
        ranked.push((paths[from].0.clone(), paths[from].1));
        k += 1;
    }
    proof {
        assert(is_ranking_of(ranked@, paths@, keys@));
    }
    ranked
}

impl<E: Entropy> AntColonyOptimization<E> {
    /// Builds the tour of one ant: from a point drawn at random, not the
    /// last, on to one point after another, each chosen by
    /// `chose_next_city`.
    pub fn run(&mut self, path: &mut Vec<u16>, visited: &mut Vec<bool>, pheromone_matrix: &Vec<u64>)
        requires
            old(self).wf(),
            old(path)@.len() == 0,
            old(visited)@.len() == old(self).n(),
            forall|c: int| 0 <= c < old(visited)@.len() ==> !old(visited)@[c],
            is_trail(pheromone_matrix@, old(self).n()),
        ensures
            final(self).wf(),
            final(self).same_task(old(self)),
            final(self).beta == old(self).beta,
            final(self).s == old(self).s,
            final(self).vaporation_rate == old(self).vaporation_rate,
            final(self).best_cost == old(self).best_cost,
            final(self).best_path == old(self).best_path,
            final(self).built == old(self).built,
            final(self).gauge == old(self).gauge,
            is_tour(final(path)@, old(self).n()),
            final(visited)@.len() == old(self).n(),
            forall|c: int| 0 <= c < old(self).n() ==> #[trigger] final(visited)@[c],
            final(path)@[0] < old(self).n() - 1,
            follows_candidates(final(path)@, old(self).candidate_lists@, old(self).n()),
    {
        let n = self.cities.len();
        let start_city = draw_between(&mut self.rng, 0, n - 1);
        path.push(start_city as u16);
        visited.set(start_city, true);
        proof {
            assert forall|c: int| 0 <= c < n implies #[trigger] visited@[c] == path@.contains(
                c as u16,
            ) by {
                if c == start_city {
                    assert(path@[0] == c as u16);
                }
            }
        }
        while path.len() < n
            invariant
                self.wf(),
                self.same_task(old(self)),
                self.beta == old(self).beta,
                self.s == old(self).s,
                self.vaporation_rate == old(self).vaporation_rate,
                self.best_cost == old(self).best_cost,
                self.best_path == old(self).best_path,
                self.built == old(self).built,
                self.gauge == old(self).gauge,
                n == self.n(),
                is_trail(pheromone_matrix@, self.n()),
                1 <= path@.len() <= n,
                visited@.len() == n,
                is_partial_tour(path@, n as nat),
                forall|c: int| 0 <= c < n ==> #[trigger] visited@[c] == path@.contains(c as u16),
                path@[0] < n - 1,
                follows_candidates(path@, self.candidate_lists@, n as nat),
            decreases n - path@.len(),
        {
            let current_city = path[path.len() - 1];
            proof {
                let free = lemma_unvisited_exists(path@, n as nat);
                assert(path@.contains(path@[path@.len() - 1]));
                assert(!visited@[free as int]);
                assert(path@[path@.len() - 1] < n);
            }
            let ghost old_visited = visited@;
            let next_city = self.chose_next_city(current_city as usize, visited, pheromone_matrix);
            proof {
                crate::algorithm::genetic::lemma_push_contains(path@, next_city as u16);
            }
            let ghost before = path@;
            path.push(next_city as u16);
            visited.set(next_city, true);
            proof {
                assert forall|k: int| 0 <= k < path@.len() implies (#[trigger] path@[k]) < n by {
                    if k < before.len() {
                        assert(path@[k] == before[k]);
                    }
                }
                let lists = self.candidate_lists@;
                assert forall|k: int|
                    0 <= k < path@.len() - 1 && (exists|c: usize|
                        c < n && !path@.take(k + 1).contains(c as u16)
                            && #[trigger] lists[path@[k] as int]@.contains(c)) implies lists[path@[k] as int]@.contains(
                    #[trigger] path@[k + 1] as usize,
                ) by {
                    if k < before.len() - 1 {
                        assert(path@.take(k + 1) =~= before.take(k + 1));
                        assert(path@[k] == before[k]);
                        assert(path@[k + 1] == before[k + 1]);
                    } else {
                        assert(path@.take(k + 1) =~= before);
                        assert(path@[k] == current_city);
                        let c = choose|c: usize|
                            c < n && !before.contains(c as u16)
                                && #[trigger] lists[current_city as int]@.contains(c);
                        assert(!old_visited[c as int]);
                        assert(lists[current_city as int]@.contains((c as int) as usize));
                    }
                }
            }
        }
        proof {
            assert forall|c: int| 0 <= c < n implies #[trigger] visited@[c] by {
                crate::tour::lemma_full_tour_contains(path@, n as nat, c as u16);
            }
        }
    }

    /// Sets the exponent of nearness by the entropy of the pheromone
    /// matrix, as the gauge reads it: the lower the entropy, the higher the
    /// exponent.
    pub fn update_beta_by_entropy(&mut self, pheromone_matrix: &Vec<u64>)
        requires
            old(self).wf(),
        ensures
            final(self).wf(),
            final(self).same_task(old(self)),
            final(self).s == old(self).s,
            final(self).vaporation_rate == old(self).vaporation_rate,
            final(self).best_cost == old(self).best_cost,
            final(self).best_path == old(self).best_path,
            final(self).built == old(self).built,
            2 <= final(self).beta <= 5,
    {
        let entropy = self.gauge.entropy(pheromone_matrix);
        self.beta = beta_for_entropy(entropy, self.cities.len());
    }

    /// Refines the first `top_k` of the tours by 2-opt. Each tour stays a
    /// tour and is listed with its length.
    pub fn refine_first(&self, paths: &mut Vec<(Vec<u16>, u64)>, top_k: usize, n: usize)
        requires
            self.wf(),
            n == self.n(),
            are_valid_paths(old(paths)@, self.distance_matrix@, self.n()),
        ensures
            are_valid_paths(final(paths)@, self.distance_matrix@, self.n()),
            is_refinement_of(final(paths)@, old(paths)@, self.distance_matrix@, self.n(), top_k as int),
    {
        let ghost matrix = self.distance_matrix@;
        let ghost size = self.n();
        let ghost first = paths@;
        let mut i: usize = 0;
        while i < paths.len() && i < top_k
            invariant
                self.wf(),
                matrix == self.distance_matrix@,
                size == self.n(),
                n == size,
                i <= paths@.len(),
                i <= top_k,
                paths@.len() == first.len(),
                are_valid_paths(paths@, matrix, size),
                are_valid_paths(first, matrix, size),
                forall|k: int|
                    0 <= k < paths@.len() ==> is_refined_entry(
                        #[trigger] paths@[k],
                        first[k],
                        matrix,
                        size,
                        k < i,
                    ),
            decreases paths@.len() - i,
        {
            let ghost before = paths@;
            let (mut path, cost) = paths.remove(i);
            assert(is_refined_entry(before[i as int], first[i as int], matrix, size, false));
            assert(is_tour(first[i as int].0@, size));
            let ghost rough = path@;
            let refined = two_opt(&mut path, &self.distance_matrix, n);
            proof {
                lemma_rearranged_tour(rough, path@, size);
            }
            paths.insert(i, (path, refined));
            proof {
                assert forall|k: int| 0 <= k < paths@.len() implies is_tour(
                    (#[trigger] paths@[k]).0@,
                    size,
                ) && paths@[k].1 == tour_length(paths@[k].0@, matrix, size) && is_refined_entry(
                    paths@[k],
                    first[k],
                    matrix,
                    size,
                    k < i + 1,
                ) by {
                    if k != i {
                        assert(paths@[k] == before[k]);
                        assert(is_tour(before[k].0@, size));
                        assert(is_refined_entry(before[k], first[k], matrix, size, k < i));
                    }
                }
            }
            i += 1;
        }
        proof {
            assert forall|k: int| 0 <= k < paths@.len() implies is_refined_entry(
                #[trigger] paths@[k],
                first[k],
                matrix,
                size,
                k < top_k,
            ) by {
                assert(is_refined_entry(paths@[k], first[k], matrix, size, k < i));
            }
        }
    }

    /// Ranks the tours by length and refines the `top_k` shortest by
    /// 2-opt. Each tour stays a tour and is listed with its length.
    pub fn optimize_best_paths(&mut self, paths: &mut Vec<(Vec<u16>, u64)>, top_k: usize, n: usize)
        requires
            old(self).wf(),
            n == old(self).n(),
            are_valid_paths(old(paths)@, old(self).distance_matrix@, old(self).n()),
        ensures
            *final(self) == *old(self),
            final(paths)@.len() == old(paths)@.len(),
            are_valid_paths(final(paths)@, old(self).distance_matrix@, old(self).n()),
            is_refined_ranking(
                final(paths)@,
                old(paths)@,
                old(self).distance_matrix@,
                old(self).n(),
                top_k as int,
            ),
    {
        let ghost matrix = self.distance_matrix@;
        let ghost size = self.n();
        let ranked = rank_by_cost(paths);
        let ghost first = ranked@;
        let ghost order = choose|order: Seq<(u64, usize)>| #[trigger]
            is_ranking_of(ranked@, paths@, order);
        proof {
            assert forall|k: int| 0 <= k < first.len() implies is_tour(
                (#[trigger] first[k]).0@,
                size,
            ) && first[k].1 == tour_length(first[k].0@, matrix, size) by {
                let from = order[k].1 as int;
                assert(is_tour(paths@[from].0@, size));
            }
        }
        *paths = ranked;
        self.refine_first(paths, top_k, n);
        proof {
            assert(is_ranking_of(first, old(paths)@, order));
            assert(is_refinement_of(paths@, first, matrix, size, top_k as int));
        }
    }

    /// How many of the ranked tours lay pheromone: a fifth of as many as
    /// there are ants, rounded up.
    pub open spec fn lambda(&self) -> int {
        (self.num_ants + 4) / 5
    }

    /// One cycle of evaporation and deposit: every trail evaporates at the
    /// present rate; then the tours are ranked by length and the `lambda`
    /// shortest are refined by 2-opt, as `optimize_best_paths` does it, and
    /// each of these lays pheromone on its edges, the way back to its
    /// first point among them, in both directions: `q` divided by its
    /// length, as many times as tours of the `lambda` are not ranked
    /// before it. A level stops at the largest that 64 bits hold.
    ///
    /// So no level falls below what evaporation leaves of it, nothing is
    /// laid from a point to itself, and a matrix that is the same in both
    /// directions stays so.
    pub fn update_pheromone(
        &mut self,
        pheromone_matrix: &mut Vec<u64>,
        paths: &Vec<(Vec<u16>, u64)>,
        q: u64,
    )
        requires
            old(self).wf(),
            is_trail(old(pheromone_matrix)@, old(self).n()),
            are_valid_paths(paths@, old(self).distance_matrix@, old(self).n()),
        ensures
            *final(self) == *old(self),
            is_trail(final(pheromone_matrix)@, old(self).n()),
            exists|ranked: Seq<(Vec<u16>, u64)>| #[trigger]
                is_refined_ranking(
                    ranked,
                    paths@,
                    old(self).distance_matrix@,
                    old(self).n(),
                    old(self).lambda(),
                ) && is_laid_on(
                    final(pheromone_matrix)@,
                    old(pheromone_matrix)@,
                    old(self).n(),
                    old(self).vaporation_rate as int,
                    ranked,
                    old(self).lambda(),
                    q as int,
                ),
            forall|k: int|
                0 <= k < final(pheromone_matrix)@.len() ==> (#[trigger] final(pheromone_matrix)@[k])
                    >= evaporated(old(pheromone_matrix)@[k] as int, old(self).vaporation_rate as int)
                    >= 0,
            forall|d: int|
                0 <= d < old(self).n() ==> #[trigger] entry(
                    final(pheromone_matrix)@,
                    old(self).n(),
                    d,
                    d,
                ) == evaporated(
                    entry(old(pheromone_matrix)@, old(self).n(), d, d),
                    old(self).vaporation_rate as int,
                ),
            is_symmetric(old(pheromone_matrix)@, old(self).n()) ==> is_symmetric(
                final(pheromone_matrix)@,
                old(self).n(),
            ),
    {
        let n = self.cities.len();
        let ghost size = self.n();
        let ghost matrix = self.distance_matrix@;
        let ghost stale = pheromone_matrix@;
        let rate = self.vaporation_rate;
        let mut c: usize = 0;
        while c < pheromone_matrix.len()
            invariant
                c <= pheromone_matrix@.len(),
                pheromone_matrix@.len() == stale.len(),
                rate <= WHOLE,
                forall|k: int|
                    0 <= k < c ==> (#[trigger] pheromone_matrix@[k]) == evaporated(
                        stale[k] as int,
                        rate as int,
                    ),
                forall|k: int| c <= k < stale.len() ==> (#[trigger] pheromone_matrix@[k]) == stale[k],
            decreases pheromone_matrix@.len() - c,
        {
            let level = pheromone_matrix[c];
            proof {
                assert(level * (WHOLE - rate) / (WHOLE as int) <= level) by (nonlinear_arith)
                    requires
                        0 <= rate <= WHOLE,
                        WHOLE == 10000,
                        level >= 0,
                ;
                assert(level * (WHOLE - rate) / (WHOLE as int) >= 0) by (nonlinear_arith)
                    requires
                        0 <= rate <= WHOLE,
                        WHOLE == 10000,
                        level >= 0,
                ;
            }
            pheromone_matrix.set(c, scale(level, WHOLE - rate, WHOLE));
            c += 1;
        }
        let ghost dried = pheromone_matrix@;
        let mut ranked_paths = rank_by_cost(paths);
        proof {
            let order = choose|order: Seq<(u64, usize)>| #[trigger]
                is_ranking_of(ranked_paths@, paths@, order);
            assert forall|k: int| 0 <= k < ranked_paths@.len() implies is_tour(
                (#[trigger] ranked_paths@[k]).0@,
                size,
            ) && ranked_paths@[k].1 == tour_length(ranked_paths@[k].0@, matrix, size) by {
                let from = order[k].1 as int;
                assert(is_tour(paths@[from].0@, size));
            }
        }
        let ghost sorted = ranked_paths@;
        let lambda = (self.num_ants + 4) / 5;
        self.refine_first(&mut ranked_paths, lambda, n);
        let ghost ranked = ranked_paths@;
        proof {
            let order = choose|order: Seq<(u64, usize)>| #[trigger]
                is_ranking_of(sorted, paths@, order);
            assert(is_ranking_of(sorted, paths@, order));
            assert(is_refinement_of(ranked, sorted, matrix, size, lambda as int));
            assert(is_refined_ranking(ranked, paths@, matrix, size, lambda as int));
        }
        let mut rank: usize = 0;
        proof {
            assert forall|i: int, j: int| 0 <= i < size && 0 <= j < size implies #[trigger] entry(
                pheromone_matrix@,
                size,
                i,
                j,
            ) == topped(entry(dried, size, i, j) + laid_by(ranked, lambda as int, q as int, 0, i, j)) by {
                lemma_cell_in_bounds(size, i, j);
            }
        }
        while rank < ranked_paths.len() && rank < lambda
            invariant
                *self == *old(self),
                self.wf(),
                n == size,
                size == self.n(),
                matrix == self.distance_matrix@,
                rank <= lambda,
                rank <= ranked.len(),
                lambda == self.lambda(),
                ranked == ranked_paths@,
                are_valid_paths(ranked, matrix, size),
                is_refined_ranking(ranked, paths@, matrix, size, lambda as int),
                pheromone_matrix@.len() == dried.len(),
                is_trail(dried, size),
                forall|k: int| 0 <= k < dried.len() ==> (#[trigger] pheromone_matrix@[k]) >= dried[k],
                forall|i: int, j: int|
                    0 <= i < size && 0 <= j < size ==> #[trigger] entry(
                        pheromone_matrix@,
                        size,
                        i,
                        j,
                    ) == topped(
                        entry(dried, size, i, j) + laid_by(
                            ranked,
                            lambda as int,
                            q as int,
                            rank as int,
                            i,
                            j,
                        ),
                    ),
            decreases ranked.len() - rank,
        {
            let weight = (lambda - rank) as u64;
            assert(is_tour(ranked[rank as int].0@, size));
            let cost = ranked_paths[rank].1;
            let delta = scale(
                weight,
                q,
                if cost < 1 {
                    1
                } else {
                    cost
                },
            );
            assert(delta == deposit_of(lambda - rank, q as int, cost as int));
            let ghost path = ranked[rank as int].0@;
            let mut w: usize = 0;
            while w < ranked_paths[rank].0.len()
                invariant
                    *self == *old(self),
                    n == size,
                    2 <= size <= 0xffff,
                    rank < ranked.len(),
                    rank < lambda,
                    ranked == ranked_paths@,
                    path == ranked[rank as int].0@,
                    delta == deposit_of(lambda - rank, q as int, ranked[rank as int].1 as int),
                    is_tour(path, size),
                    w <= path.len(),
                    pheromone_matrix@.len() == dried.len(),
                    is_trail(dried, size),
                    forall|k: int|
                        0 <= k < dried.len() ==> (#[trigger] pheromone_matrix@[k]) >= dried[k],
                    forall|i: int, j: int|
                        0 <= i < size && 0 <= j < size ==> #[trigger] entry(
                            pheromone_matrix@,
                            size,
                            i,
                            j,
                        ) == topped(
                            entry(dried, size, i, j) + laid_by(
                                ranked,
                                lambda as int,
                                q as int,
                                rank as int,
                                i,
                                j,
                            ) + delta * edge_hits(path, w as int, i, j),
                        ),
                decreases path.len() - w,
            {
                let after = if w + 1 < n {
                    w + 1
                } else {
                    0
                };
                let a = ranked_paths[rank].0[w] as usize;
                let b = ranked_paths[rank].0[after] as usize;
                proof {
                    assert(path[after as int] == next_on(path, w as int));
                    assert(path[w as int] < size && path[after as int] < size);
                    assert(path[w as int] != path[after as int]);
                    lemma_cell_in_bounds(size, a as int, b as int);
                    lemma_cell_in_bounds(size, b as int, a as int);
                    assert(size * size == dried.len());
                }
                assert(n * n <= usize::MAX) by (nonlinear_arith)
                    requires
                        n <= 0xffff,
                ;
                let forth = matrix_index(n, a, b);
                let back = matrix_index(n, b, a);
                let ghost before = pheromone_matrix@;
                let level = pheromone_matrix[forth];
                pheromone_matrix.set(
                    forth,
                    if level > u64::MAX - delta {
                        u64::MAX
                    } else {
                        level + delta
                    },
                );
                let level = pheromone_matrix[back];
                pheromone_matrix.set(
                    back,
                    if level > u64::MAX - delta {
                        u64::MAX
                    } else {
                        level + delta
                    },
                );
                proof {
                    if forth == back {
                        lemma_cell_unique(size, a as int, b as int, b as int, a as int);
                    }
                    assert forall|i: int, j: int| 0 <= i < size && 0 <= j < size implies #[trigger] entry(
                        pheromone_matrix@,
                        size,
                        i,
                        j,
                    ) == topped(
                        entry(dried, size, i, j) + laid_by(
                            ranked,
                            lambda as int,
                            q as int,
                            rank as int,
                            i,
                            j,
                        ) + delta * edge_hits(path, w + 1, i, j),
                    ) by {
                        lemma_cell_in_bounds(size, i, j);
                        let cell = i * size + j;
                        if cell == forth {
                            lemma_cell_unique(size, i, j, a as int, b as int);
                        }
                        if cell == back {
                            lemma_cell_unique(size, i, j, b as int, a as int);
                        }
                        let hit = is_step(path, w as int, i, j);
                        assert(hit == (cell == forth || cell == back));
                        lemma_laid_by_bounds(ranked, lambda as int, q as int, rank as int, i, j);
                        lemma_edge_hits_bounds(path, w as int, i, j);
                        let hits = edge_hits(path, w as int, i, j);
                        assert(delta * (hits + 1) == delta * hits + delta) by (nonlinear_arith);
                        assert(delta * hits >= 0) by (nonlinear_arith)
                            requires
                                delta >= 0,
                                hits >= 0,
                        ;
                        assert(entry(before, size, i, j) == topped(
                            entry(dried, size, i, j) + laid_by(
                                ranked,
                                lambda as int,
                                q as int,
                                rank as int,
                                i,
                                j,
                            ) + delta * hits,
                        ));
                    }
                }
                w += 1;
            }
            rank += 1;
        }
        proof {
            let ranks = if lambda < ranked.len() {
                lambda as int
            } else {
                ranked.len() as int
            };
            assert(rank == ranks);
            assert forall|i: int, j: int| 0 <= i < size && 0 <= j < size implies #[trigger] entry(
                pheromone_matrix@,
                size,
                i,
                j,
            ) == topped(
                evaporated(entry(stale, size, i, j), rate as int) + laid_by(
                    ranked,
                    lambda as int,
                    q as int,
                    ranks,
                    i,
                    j,
                ),
            ) by {
                lemma_cell_in_bounds(size, i, j);
            }
            assert(is_laid_on(
                pheromone_matrix@,
                stale,
                size,
                rate as int,
                ranked,
                lambda as int,
                q as int,
            ));
            assert forall|d: int| 0 <= d < size implies #[trigger] entry(
                pheromone_matrix@,
                size,
                d,
                d,
            ) == evaporated(entry(stale, size, d, d), rate as int) by {
                lemma_cell_in_bounds(size, d, d);
                lemma_nothing_laid_on_itself(ranked, matrix, size, lambda as int, q as int, ranks, d);
            }
            if is_symmetric(stale, size) {
                assert forall|i: int, j: int| 0 <= i < size && 0 <= j < size implies #[trigger] entry(
                    pheromone_matrix@,
                    size,
                    i,
                    j,
                ) == entry(pheromone_matrix@, size, j, i) by {
                    lemma_laid_by_symmetric(ranked, lambda as int, q as int, ranks, i, j);
                    assert(entry(stale, size, i, j) == entry(stale, size, j, i));
                }
            }
        }
    }

    /// The bookkeeping of one generation: the best tour becomes the first
    /// of the shortest tours built where that is shorter than the best so
    /// far, and the count of generations without a better tour starts
    /// again; otherwise that count rises by one. The result tells whether
    /// the best tour changed, and holds the next count.
    pub fn note_generation(&mut self, paths: &Vec<(Vec<u16>, u64)>, stalled: usize) -> (next: (
        bool,
        usize,
    ))
        requires
            old(self).wf(),
            are_valid_paths(paths@, old(self).distance_matrix@, old(self).n()),
            stalled < usize::MAX,
        ensures
            final(self).wf(),
            final(self).same_task(old(self)),
            final(self).beta == old(self).beta,
            final(self).vaporation_rate == old(self).vaporation_rate,
            final(self).gauge == old(self).gauge,
            final(self).built@ == old(self).built@.push(costs_of(paths@)),
            final(self).best_cost == least_with(old(self).best_cost as int, costs_of(paths@)),
            next.0 == (final(self).best_cost < old(self).best_cost),
            !next.0 ==> final(self).best_path@ == old(self).best_path@,
            next.0 ==> exists|k: int|
                0 <= k < paths@.len() && final(self).best_path@ == (#[trigger] paths@[k]).0@
                    && paths@[k].1 == final(self).best_cost && forall|j: int|
                    0 <= j < k ==> paths@[j].1 > final(self).best_cost,
            next.1 == if next.0 {
                0
            } else {
                stalled + 1
            },
            final(self).s == if next.0 {
                0
            } else if old(self).s < usize::MAX {
                (old(self).s + 1) as usize
            } else {
                old(self).s
            },
    {
        let ghost costs = costs_of(paths@);
        let mut improved = false;
        let mut at: usize = 0;
        let mut k: usize = 0;
        while k < paths.len()
            invariant
                k <= paths@.len(),
                self.wf(),
                self.same_task(old(self)),
                self.beta == old(self).beta,
                self.vaporation_rate == old(self).vaporation_rate,
                self.gauge == old(self).gauge,
                self.built == old(self).built,
                self.s == old(self).s,
                are_valid_paths(paths@, self.distance_matrix@, self.n()),
                costs == costs_of(paths@),
                self.best_cost == least_with(old(self).best_cost as int, costs.take(k as int)),
                improved == (self.best_cost < old(self).best_cost),
                !improved ==> self.best_path@ == old(self).best_path@,
                improved ==> at < k && self.best_path@ == paths@[at as int].0@ && paths@[at as int].1
                    == self.best_cost && forall|j: int|
                    0 <= j < at ==> (#[trigger] paths@[j]).1 > self.best_cost,
            decreases paths@.len() - k,
        {
            proof {
                assert(costs.take(k + 1).drop_last() =~= costs.take(k as int));
                assert(costs.take(k + 1).last() == paths@[k as int].1);
                lemma_least_with(old(self).best_cost as int, costs.take(k as int));
                assert(is_tour(paths@[k as int].0@, self.n()));
                if improved {
                    assert forall|j: int| 0 <= j < k implies (#[trigger] paths@[j]).1
                        >= self.best_cost by {
                        assert(costs.take(k as int)[j] == paths@[j].1);
                    }
                }
            }
            if paths[k].1 < self.best_cost {
                self.best_cost = paths[k].1;
                self.best_path = paths[k].0.clone();
                improved = true;
                at = k;
                proof {
                    assert forall|j: int| 0 <= j < k implies (#[trigger] paths@[j]).1
                        > self.best_cost by {
                        assert(costs.take(k as int)[j] == paths@[j].1);
                    }
                }
            }
            k += 1;
        }
        proof {
            assert(costs.take(paths@.len() as int) =~= costs);
        }
        self.built = Ghost(self.built@.push(costs));
        if improved {
            self.s = 0;
            (true, 0)
        } else {
            if self.s < usize::MAX {
                self.s += 1;
            }
            (false, stalled + 1)
        }
    }

    /// Runs generations of ants until as many as `stall_limit` in a row
    /// have brought no better tour, and returns the best tour with its
    /// length.
    ///
    /// In each generation every ant builds a tour by `run`, and
    /// `note_generation` keeps the books. The length returned is the least
    /// of the best length of before and the lengths of all tours built, so
    /// that no tour built is shorter; and it was reached before the last
    /// `stall_limit` generations, which there were. The run is no longer
    /// than that: the generation before those brought a better tour, or
    /// there was none before them. With a `stall_limit` of 0 the run has
    /// one generation.
    pub fn start(&mut self) -> (best: (Vec<u16>, u64))
        requires
            old(self).wf(),
        ensures
            final(self).wf(),
            final(self).same_task(old(self)),
            is_tour(best.0@, old(self).n()),
            best.1 == tour_length(best.0@, old(self).distance_matrix@, old(self).n()),
            best.0@ == final(self).best_path@,
            best.1 == final(self).best_cost,
            best.1 <= old(self).best_cost,
            final(self).built@.len() > old(self).built@.len(),
            final(self).built@.len() >= old(self).built@.len() + old(self).stall_limit,
            final(self).built@.take(old(self).built@.len() as int) == old(self).built@,
            forall|g: int|
                old(self).built@.len() <= g < final(self).built@.len() ==> (
                #[trigger] final(self).built@[g]).len() == old(self).num_ants,
            best.1 == least_over(
                old(self).best_cost as int,
                final(self).built@,
                old(self).built@.len() as int,
                final(self).built@.len() as int,
            ),
            best.1 == least_over(
                old(self).best_cost as int,
                final(self).built@,
                old(self).built@.len() as int,
                final(self).built@.len() - old(self).stall_limit,
            ),
            forall|g: int, k: int|
                old(self).built@.len() <= g < final(self).built@.len()
                    && 0 <= k < final(self).built@[g].len()
                    ==> best.1 <= #[trigger] final(self).built@[g][k],
            old(self).stall_limit == 0 ==> final(self).built@.len() == old(self).built@.len() + 1,
            old(self).stall_limit >= 1 ==> final(self).built@.len() == old(self).built@.len() + old(
                self,
            ).stall_limit || brought_better(
                old(self).best_cost as int,
                final(self).built@,
                old(self).built@.len() as int,
                final(self).built@.len() - old(self).stall_limit - 1,
            ),
    {
        let size = self.cities.len();
        assert(size * size <= usize::MAX) by (nonlinear_arith)
            requires
                size <= 0xffff,
        ;
        let mut pheromone_matrix = self.create_pheromone_matrix(size);
        let mut iterations_without_improvement: usize = 0;
        let mut iteration: usize = 0;
        let ghost base = self.built@.len() as int;
        let ghost first = self.best_cost as int;
        proof {
            assert(self.built@.take(base) =~= self.built@);
        }
        loop
            invariant_except_break
                iterations_without_improvement < self.stall_limit || (self.built@.len() == base
                    && iterations_without_improvement == 0),
            invariant
                self.wf(),
                self.same_task(old(self)),
                size == self.n(),
                is_trail(pheromone_matrix@, self.n()),
                self.best_cost <= old(self).best_cost,
                base == old(self).built@.len(),
                first == old(self).best_cost,
                self.built@.len() >= base,
                self.built@.take(base) == old(self).built@,
                forall|g: int|
                    base <= g < self.built@.len() ==> (#[trigger] self.built@[g]).len()
                        == self.num_ants,
                iterations_without_improvement <= self.built@.len() - base,
                self.best_cost == least_over(first, self.built@, base, self.built@.len() as int),
                self.best_cost == least_over(
                    first,
                    self.built@,
                    base,
                    self.built@.len() - iterations_without_improvement,
                ),
                iterations_without_improvement == self.built@.len() - base || brought_better(
                    first,
                    self.built@,
                    base,
                    self.built@.len() - iterations_without_improvement - 1,
                ),
            ensures
                self.wf(),
                self.same_task(old(self)),
                self.best_cost < u64::MAX,
                self.best_cost <= old(self).best_cost,
                self.built@.len() > base,
                self.built@.take(base) == old(self).built@,
                forall|g: int|
                    base <= g < self.built@.len() ==> (#[trigger] self.built@[g]).len()
                        == self.num_ants,
                self.stall_limit <= iterations_without_improvement <= self.built@.len() - base,
                self.best_cost == least_over(first, self.built@, base, self.built@.len() as int),
                self.best_cost == least_over(
                    first,
                    self.built@,
                    base,
                    self.built@.len() - iterations_without_improvement,
                ),
                iterations_without_improvement == self.built@.len() - base || brought_better(
                    first,
                    self.built@,
                    base,
                    self.built@.len() - iterations_without_improvement - 1,
                ),
                self.stall_limit == 0 ==> self.built@.len() == base + 1,
                self.stall_limit >= 1 ==> iterations_without_improvement == self.stall_limit,
            decreases self.best_cost, self.stall_limit - iterations_without_improvement,
        {
            let mut paths: Vec<(Vec<u16>, u64)> = Vec::new();
            let mut ant: usize = 0;
            let ghost built_so_far = self.built@;
            let ghost best_so_far = self.best_cost;
            while ant < self.num_ants
                invariant
                    self.wf(),
                    self.built@ == built_so_far,
                    self.best_cost == best_so_far,
                    self.same_task(old(self)),
                    size == self.n(),
                    is_trail(pheromone_matrix@, self.n()),
                    ant <= self.num_ants,
                    paths@.len() == ant,
                    are_valid_paths(paths@, self.distance_matrix@, self.n()),
                decreases self.num_ants - ant,
            {
                let mut path: Vec<u16> = Vec::new();
                let mut visited: Vec<bool> = Vec::with_capacity(size);
                while visited.len() < size
                    invariant
                        visited@.len() <= size,
                        forall|c: int| 0 <= c < visited@.len() ==> !visited@[c],
                    decreases size - visited@.len(),
                {
                    visited.push(false);
                }
                self.run(&mut path, &mut visited, &pheromone_matrix);
                let cost = calculate_path_distance(&path, &self.distance_matrix);
                paths.push((path, cost));
                ant += 1;
            }
            let ghost before = self.built@;
            let ghost cost_before = self.best_cost as int;
            let next = self.note_generation(&paths, iterations_without_improvement);
            proof {
                let after = self.built@;
                let len = before.len() as int;
                lemma_least_with(cost_before, costs_of(paths@));
                assert(costs_of(paths@)[0] == paths@[0].1);
                assert(is_tour(paths@[0].0@, self.n()));
                crate::length::lemma_tour_length_bounds(
                    paths@[0].0@,
                    self.distance_matrix@,
                    self.n(),
                );
                lemma_least_over_same(first, before, after, base, len);
                lemma_least_over_same(
                    first,
                    before,
                    after,
                    base,
                    len - iterations_without_improvement,
                );
                if iterations_without_improvement < len - base {
                    lemma_least_over_same(
                        first,
                        before,
                        after,
                        base,
                        len - iterations_without_improvement - 1,
                    );
                }
                assert(after[len] == costs_of(paths@));
                assert(after.take(base) =~= before.take(base));
                assert forall|g: int| base <= g < after.len() implies (#[trigger] after[g]).len()
                    == self.num_ants by {
                    if g < len {
                        assert(after[g] == before[g]);
                    }
                }
            }
            iterations_without_improvement = next.1;
            self.update_beta_by_entropy(&pheromone_matrix);
            if iterations_without_improvement >= self.stall_limit {
                break ;
            }
            self.update_rho(iteration);
            let q = self.q;
            self.update_pheromone(&mut pheromone_matrix, &paths, q);
            if iteration < usize::MAX {
                iteration += 1;
            }
        }
        proof {
            let len = self.built@.len() as int;
            lemma_least_over(first, self.built@, base, len - iterations_without_improvement, len);
            lemma_least_over(first, self.built@, base, len - self.stall_limit, len);
            lemma_least_over(
                first,
                self.built@,
                base,
                len - iterations_without_improvement,
                len - self.stall_limit,
            );
        }
        (self.best_path.clone(), self.best_cost)
    }
}

impl<E: Entropy> Algorithm for AntColonyOptimization<E> {
    open spec fn instance(&self) -> Seq<City> {
        self.cities@
    }

    open spec fn distances(&self) -> Seq<u64> {
        self.distance_matrix@
    }

    open spec fn ready(&self) -> bool {
        self.wf()
    }

    /// Runs the colony by `start` and returns its best tour: no tour that
    /// an ant built is shorter, and its length was reached before the last
    /// `stall_limit` generations, with which the run ends. No initial tour
    /// is reported.
    fn execute(&mut self) -> (response: ExecuteResponse)
        ensures
            final(self).wf(),
            response.initial_path@.len() == 0,
            response.final_path@ == final(self).best_path@,
            response.distance == final(self).best_cost,
            final(self).built@.len() >= old(self).built@.len() + old(self).stall_limit,
            final(self).built@.len() > old(self).built@.len(),
            final(self).built@.take(old(self).built@.len() as int) == old(self).built@,
            response.distance == least_over(
                old(self).best_cost as int,
                final(self).built@,
                old(self).built@.len() as int,
                final(self).built@.len() as int,
            ),
            response.distance == least_over(
                old(self).best_cost as int,
                final(self).built@,
                old(self).built@.len() as int,
                final(self).built@.len() - old(self).stall_limit,
            ),
            forall|g: int, k: int|
                old(self).built@.len() <= g < final(self).built@.len()
                    && 0 <= k < final(self).built@[g].len()
                    ==> response.distance <= #[trigger] final(self).built@[g][k],
            old(self).stall_limit == 0 ==> final(self).built@.len() == old(self).built@.len() + 1,
            old(self).stall_limit >= 1 ==> final(self).built@.len() == old(self).built@.len() + old(
                self,
            ).stall_limit || brought_better(
                old(self).best_cost as int,
                final(self).built@,
                old(self).built@.len() as int,
                final(self).built@.len() - old(self).stall_limit - 1,
            ),
    {
        let start_time = clock_now();
        let result = self.start();
        let best_path = result.0;
        let best_cost = result.1;
        ExecuteResponse::new(
            Vec::new(),
            best_path,
            best_cost,
            clock_elapsed(&start_time),
            String::new(),
        )
    }
}

} // verus!
