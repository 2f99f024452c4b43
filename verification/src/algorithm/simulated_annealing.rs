//! Simulated annealing over a pool of tours, each with its own temperature
//! estimate, where each trial move is the best of three moves suggested by
//! another tour of the pool.

use rand::rngs::ThreadRng;
use vstd::prelude::*;

use super::algorithm::{clock_elapsed, clock_now, is_instance, Algorithm, ExecuteResponse};
use crate::chance::{draw_between, shuffle, thread_generator};
use crate::distance::{create_distance_matrix, is_matrix};
use crate::length::{calculate_path_distance, in_range, tour_length};
use crate::models::city::City;
use crate::moves::{
    lemma_relocated_multiset, lemma_swapped_multiset, relocate, relocated, rotate, swap_entries,
    swapped,
};
use crate::greedy::{follows_nearest, grow_greedy_tour};
use crate::temperature::TemperatureList;
use crate::tour::{
    identity, lemma_place, is_tour, lemma_full_tour_contains, place, lemma_rearranged_tour, lemma_rotated_tour,
    lemma_with_reversed_multiset, position_of, reverse_range, rotated, with_reversed,
};

verus! {

/// The acceptance rule for moves that lengthen a tour.
///
/// The engine asks it once for each such move and is proved correct for
/// every answer. An implementation of the Metropolis criterion draws `u`
/// uniformly from the unit interval, accepts the move where `u` is below
/// `exp(-rise / temperature)`, and reports `-rise / ln(u)` as the
/// temperature the move was accepted at.
pub trait Metropolis {
    /// Whether to accept a move that makes the tour longer by `rise` at the
    /// given temperature: `None` to refuse it, otherwise the temperature
    /// reading to record for it.
    fn accept(&mut self, rise: u64, temperature: u64) -> (reading: Option<u64>);
}

/// A tour with its length.
pub struct Solution {
    pub path: Vec<u16>,
    pub distance: u64,
}

impl Clone for Solution {
    fn clone(&self) -> (copy: Self)
        ensures
            copy.path@ == self.path@,
            copy.distance == self.distance,
    {
        Solution { path: self.path.clone(), distance: self.distance }
    }
}

/// `path` after the inversion move for the entries at positions `i` and
/// `j`: the stretch that follows the earlier of the two, up to and
/// including the later, is turned round.
pub open spec fn inverse_sampled(path: Seq<u16>, i: int, j: int) -> Seq<u16> {
    if i < j {
        with_reversed(path, i + 1, j)
    } else if j < i {
        with_reversed(path, j + 1, i)
    } else {
        path
    }
}

/// How many entries the block move takes: the draw, but no more than lie
/// between the two positions.
pub open spec fn block_size(i: int, j: int, draw: int) -> int {
    let gap = if i >= j + 1 {
        i - j - 1
    } else {
        j + 1 - i
    };
    if draw < gap {
        draw
    } else {
        gap
    }
}

/// `path` after the block move for the entries at positions `i` and `j`:
/// the block that starts at `j` is put in front of the entry at `i`. A
/// block that runs past the end of the path goes on at its start, and
/// stops in front of the entry at `i`.
pub open spec fn block_inserted(path: Seq<u16>, i: int, j: int, draw: int) -> Seq<u16> {
    let len = path.len() as int;
    let size = block_size(i, j, draw);
    if size == 0 {
        path
    } else if j + size < len {
        if j < i {
            relocated(path, j, size, i - size, false)
        } else {
            relocated(path, j, size, i, false)
        }
    } else if j == i {
        path
    } else {
        let wrapped = if size - (len - j) < i {
            size - (len - j)
        } else {
            i
        };
        relocated(rotated(path, wrapped), j - wrapped, len - j + wrapped, i - wrapped, false)
    }
}

impl Solution {
    /// The path is a tour through `n` points and the recorded distance is
    /// its length.
    pub open spec fn is_valid(&self, matrix: Seq<u64>, n: nat) -> bool {
        &&& is_tour(self.path@, n)
        &&& self.distance == tour_length(self.path@, matrix, n)
    }

    /// The same tour with the same length.
    pub open spec fn same_as(&self, other: &Self) -> bool {
        &&& self.path@ == other.path@
        &&& self.distance == other.distance
    }

    pub fn new(path: Vec<u16>, distance: u64) -> (solution: Self)
        ensures
            solution.path == path,
            solution.distance == distance,
    {
        Solution { path, distance }
    }

    pub fn get_path(&self) -> (path: &Vec<u16>)
        ensures
            *path == self.path,
    {
        &self.path
    }

    pub fn get_distance(&self) -> (distance: &u64)
        ensures
            *distance == self.distance,
    {
        &self.distance
    }

    /// The same path with its length measured anew.
    pub fn update_distance(self, distance_matrix: &Vec<u64>) -> (updated: Self)
        requires
            self.path@.len() <= 0x1_0000,
            is_matrix(distance_matrix@, self.path@.len()),
            in_range(self.path@, self.path@.len()),
        ensures
            updated.path@ == self.path@,
            updated.distance == tour_length(self.path@, distance_matrix@, self.path@.len()),
    {
        let distance = calculate_path_distance(&self.path, distance_matrix);
        Solution { path: self.path, distance }
    }

    /// Exchanges the entries at two positions.
    pub fn swap_at(self, distance_matrix: &Vec<u64>, first: usize, second: usize) -> (moved: Self)
        requires
            self.path@.len() <= 0x1_0000,
            is_matrix(distance_matrix@, self.path@.len()),
            is_tour(self.path@, self.path@.len()),
            first < self.path@.len(),
            second < self.path@.len(),
        ensures
            moved.path@ == swapped(self.path@, first as int, second as int),
            moved.is_valid(distance_matrix@, self.path@.len()),
    {
        let ghost before = self.path@;
        let mut moved = self;
        swap_entries(&mut moved.path, first, second);
        proof {
            lemma_swapped_multiset(before, first as int, second as int);
            lemma_rearranged_tour(before, moved.path@, before.len());
        }
        moved.update_distance(distance_matrix)
    }

    /// Exchanges the entries at two positions drawn at random, neither of
    /// them the last.
    pub fn swap(self, distance_matrix: &Vec<u64>, generator: &mut ThreadRng) -> (moved: Self)
        requires
            2 <= self.path@.len() <= 0x1_0000,
            is_matrix(distance_matrix@, self.path@.len()),
            is_tour(self.path@, self.path@.len()),
        ensures
            moved.is_valid(distance_matrix@, self.path@.len()),
            exists|first: int, second: int|
                0 <= first < self.path@.len() - 1 && 0 <= second < self.path@.len() - 1
                    && moved.path@ == #[trigger] swapped(self.path@, first, second),
    {
        let n = self.path.len();
        let first = draw_between(generator, 0, n - 1);
        let second = draw_between(generator, 0, n - 1);
        self.swap_at(distance_matrix, first, second)
    }

    /// Exchanges two points of the tour.
    pub fn swap_sampling(self, distance_matrix: &Vec<u64>, city_i: u16, city_j: u16) -> (moved: Self)
        requires
            self.path@.len() <= 0x1_0000,
            is_matrix(distance_matrix@, self.path@.len()),
            is_tour(self.path@, self.path@.len()),
            city_i < self.path@.len(),
            city_j < self.path@.len(),
        ensures
            moved.path@ == swapped(
                self.path@,
                place(self.path@, city_i),
                place(self.path@, city_j),
            ),
            moved.is_valid(distance_matrix@, self.path@.len()),
    {
        proof {
            lemma_full_tour_contains(self.path@, self.path@.len(), city_i);
            lemma_full_tour_contains(self.path@, self.path@.len(), city_j);
        }
        let city_i_index = position_of(&self.path, city_i);
        let city_j_index = position_of(&self.path, city_j);
        proof {
            lemma_place(self.path@, city_i, city_i_index as int);
            lemma_place(self.path@, city_j, city_j_index as int);
        }
        self.swap_at(distance_matrix, city_i_index, city_j_index)
    }

    /// Turns round the stretch of the tour that lies between two points:
    /// from the entry after the earlier one up to the later one.
    pub fn inverse_sampling(self, distance_matrix: &Vec<u64>, city_i: u16, city_j: u16) -> (moved:
        Self)
        requires
            self.path@.len() <= 0x1_0000,
            is_matrix(distance_matrix@, self.path@.len()),
            is_tour(self.path@, self.path@.len()),
            city_i < self.path@.len(),
            city_j < self.path@.len(),
        ensures
            moved.path@ == inverse_sampled(
                self.path@,
                place(self.path@, city_i),
                place(self.path@, city_j),
            ),
            moved.is_valid(distance_matrix@, self.path@.len()),
    {
        proof {
            lemma_full_tour_contains(self.path@, self.path@.len(), city_i);
            lemma_full_tour_contains(self.path@, self.path@.len(), city_j);
        }
        let city_i_index = position_of(&self.path, city_i);
        let city_j_index = position_of(&self.path, city_j);
        let ghost before = self.path@;
        proof {
            lemma_place(before, city_i, city_i_index as int);
            lemma_place(before, city_j, city_j_index as int);
        }
        let mut moved = self;
        if city_i_index < city_j_index {
            reverse_range(&mut moved.path, city_i_index + 1, city_j_index);
            proof {
                lemma_with_reversed_multiset(before, city_i_index + 1, city_j_index as int);
            }
        } else if city_j_index < city_i_index {
            reverse_range(&mut moved.path, city_j_index + 1, city_i_index);
            proof {
                lemma_with_reversed_multiset(before, city_j_index + 1, city_i_index as int);
            }
        }
        proof {
            lemma_rearranged_tour(before, moved.path@, before.len());
        }
        moved.update_distance(distance_matrix)
    }

    /// Moves a block of at most `draw` entries that starts at `city_j` in
    /// front of `city_i`.
    pub fn block_insert_at(
        self,
        distance_matrix: &Vec<u64>,
        city_i: u16,
        city_j: u16,
        draw: usize,
    ) -> (moved: Self)
        requires
            self.path@.len() <= 0x1_0000,
            is_matrix(distance_matrix@, self.path@.len()),
            self.is_valid(distance_matrix@, self.path@.len()),
            city_i < self.path@.len(),
            city_j < self.path@.len(),
        ensures
            moved.path@ == block_inserted(
                self.path@,
                place(self.path@, city_i),
                place(self.path@, city_j),
                draw as int,
            ),
            moved.is_valid(distance_matrix@, self.path@.len()),
    {
        proof {
            lemma_full_tour_contains(self.path@, self.path@.len(), city_i);
            lemma_full_tour_contains(self.path@, self.path@.len(), city_j);
        }
        let i = position_of(&self.path, city_i);
        let j = position_of(&self.path, city_j);
        let path_len = self.path.len();
        let ghost before = self.path@;
        proof {
            lemma_place(before, city_i, i as int);
            lemma_place(before, city_j, j as int);
        }
        let gap = if i >= j + 1 {
            i - j - 1
        } else {
            j + 1 - i
        };
        let size = if draw < gap {
            draw
        } else {
            gap
        };
        if size == 0 {
            return self;
        }
        let path = if j + size < path_len {
            if j < i {
                proof {
                    lemma_relocated_multiset(before, j as int, size as int, i - size, false);
                }
                relocate(&self.path, j, size, i - size, false)
            } else {
                proof {
                    lemma_relocated_multiset(before, j as int, size as int, i as int, false);
                }
                relocate(&self.path, j, size, i, false)
            }
        } else if j == i {
            return self;
        } else {
            let wrapped = if size - (path_len - j) < i {
                size - (path_len - j)
            } else {
                i
            };
            let turned = rotate(&self.path, wrapped);
            proof {
                lemma_rotated_tour(before, before.len(), wrapped as int);
                lemma_relocated_multiset(
                    turned@,
                    j - wrapped,
                    path_len - j + wrapped,
                    i - wrapped,
                    false,
                );
                lemma_rearranged_tour(
                    turned@,
                    relocated(turned@, j - wrapped, path_len - j + wrapped, i - wrapped, false),
                    before.len(),
                );
            }
            relocate(&turned, j - wrapped, path_len - j + wrapped, i - wrapped, false)
        };
        proof {
            if j + size < path_len {
                lemma_rearranged_tour(before, path@, before.len());
            }
        }
        Solution { path, distance: self.distance }.update_distance(distance_matrix)
    }

    /// Moves a block of fewer than ten entries, the number drawn at random,
    /// that starts at `city_j` in front of `city_i`.
    pub fn block_insert_sampling(
        self,
        distance_matrix: &Vec<u64>,
        city_i: u16,
        city_j: u16,
        generator: &mut ThreadRng,
    ) -> (moved: Self)
        requires
            self.path@.len() <= 0x1_0000,
            is_matrix(distance_matrix@, self.path@.len()),
            self.is_valid(distance_matrix@, self.path@.len()),
            city_i < self.path@.len(),
            city_j < self.path@.len(),
        ensures
            moved.is_valid(distance_matrix@, self.path@.len()),
            exists|draw: int|
                1 <= draw < 10 && moved.path@ == #[trigger] block_inserted(
                    self.path@,
                    place(self.path@, city_i),
                    place(self.path@, city_j),
                    draw,
                ),
    {
        let draw = draw_between(generator, 1, 10);
        self.block_insert_at(distance_matrix, city_i, city_j, draw)
    }
}

/// The path of the shortest of three tours, the earliest where several are
/// as short.
pub open spec fn shortest_of_three(
    a: Seq<u16>,
    b: Seq<u16>,
    c: Seq<u16>,
    matrix: Seq<u64>,
    n: nat,
) -> Seq<u16> {
    if tour_length(a, matrix, n) <= tour_length(b, matrix, n) && tour_length(a, matrix, n)
        <= tour_length(c, matrix, n) {
        a
    } else if tour_length(b, matrix, n) <= tour_length(c, matrix, n) {
        b
    } else {
        c
    }
}

/// The point that the partner tour `y` suggests for `city`: the one that
/// follows `city` in `y`; where the same point follows `city` in `x`, the
/// one that precedes `city` in `y`.
pub open spec fn partner_city(x: Seq<u16>, y: Seq<u16>, city: u16) -> u16 {
    let n = x.len() as int;
    let in_x = place(x, city);
    let in_y = place(y, city);
    let next = y[(in_y + 1) % n];
    if next == x[(in_x + 1) % n] {
        y[if in_y == 0 {
            n - 1
        } else {
            in_y - 1
        }]
    } else {
        next
    }
}

/// The trial move for `city` in the tour `x` with the partner tour `y`:
/// the shortest of the inversion, the exchange and the block move between
/// `city` and the point the partner suggests.
pub open spec fn candidate_path(
    x: Seq<u16>,
    y: Seq<u16>,
    city: u16,
    draw: int,
    matrix: Seq<u64>,
) -> Seq<u16> {
    let i = place(x, city);
    let j = place(x, partner_city(x, y, city));
    shortest_of_three(
        inverse_sampled(x, i, j),
        swapped(x, i, j),
        block_inserted(x, i, j, draw),
        matrix,
        x.len(),
    )
}

/// Where the chains are longest: the given share, in thousandths, of the
/// number of generations, rounded.
pub open spec fn peak_generation(generations: int, peak_per_mille: int) -> int {
    (generations * peak_per_mille + 500) / 1000
}

/// The chain length of generation `i`: half of `mcl` at the first and the
/// last generation, rising in a straight line to `mcl` more at the peak.
pub open spec fn chain_length(i: int, peak: int, mcl: int, generations: int) -> int {
    let ratio = if i <= peak {
        if peak == 0 {
            0
        } else {
            (2 * i * mcl + peak) / (2 * peak)
        }
    } else {
        (2 * (generations - 1 - i) * mcl + (generations - 1 - peak)) / (2 * (generations - 1
            - peak))
    };
    mcl / 2 + ratio
}

/// The chain lengths of all generations.
pub fn create_mcl_list(peak_per_mille: usize, mcl: usize, generations: usize) -> (a_mcl: Vec<usize>)
    requires
        peak_per_mille <= 1000,
        mcl <= 0xffff,
        generations <= 0xffff,
    ensures
        a_mcl@.len() == generations,
        forall|i: int|
            0 <= i < generations ==> a_mcl@[i] == #[trigger] chain_length(
                i,
                peak_generation(generations as int, peak_per_mille as int),
                mcl as int,
                generations as int,
            ),
        forall|i: int| 0 <= i < generations ==> mcl / 2 <= #[trigger] a_mcl@[i] <= mcl / 2 + mcl,
{
    assert(generations * peak_per_mille <= 0xffff * 1000) by (nonlinear_arith)
        requires
            generations <= 0xffff,
            peak_per_mille <= 1000,
    ;
    let best_gen: u64 = (generations as u64 * peak_per_mille as u64 + 500) / 1000;
    assert(best_gen <= generations) by (nonlinear_arith)
        requires
            best_gen == (generations * peak_per_mille + 500) / 1000,
            peak_per_mille <= 1000,
            generations >= 0,
    ;
    let mut a_mcl: Vec<usize> = Vec::with_capacity(generations);
    let mut i: usize = 0;
    while i < generations
        invariant
            i <= generations <= 0xffff,
            mcl <= 0xffff,
            best_gen <= generations,
            best_gen == peak_generation(generations as int, peak_per_mille as int),
            a_mcl@.len() == i,
            forall|k: int|
                0 <= k < i ==> a_mcl@[k] == #[trigger] chain_length(
                    k,
                    best_gen as int,
                    mcl as int,
                    generations as int,
                ),
            forall|k: int| 0 <= k < i ==> mcl / 2 <= #[trigger] a_mcl@[k] <= mcl / 2 + mcl,
        decreases generations - i,
    {
        let ratio: u64 = if i as u64 <= best_gen {
            if best_gen == 0 {
                0
            } else {
                assert(2 * i * mcl + best_gen <= 2 * best_gen * mcl + best_gen <= 0x3_0000_0000)
                    by (nonlinear_arith)
                    requires
                        i <= best_gen <= 0xffff,
                        mcl <= 0xffff,
                ;
                let top: u64 = 2 * (i as u64) * (mcl as u64) + best_gen;
                assert(top as int / (2 * best_gen as int) <= mcl) by (nonlinear_arith)
                    requires
                        top <= 2 * best_gen * mcl + best_gen,
                        best_gen > 0,
                ;
                top / (2 * best_gen)
            }
        } else {
            let left: u64 = (generations - 1 - i) as u64;
            let span: u64 = generations as u64 - 1 - best_gen;
            assert(2 * left * mcl + span <= 2 * span * mcl + span <= 0x3_0000_0000)
                by (nonlinear_arith)
                requires
                    left <= span <= 0xffff,
                    mcl <= 0xffff,
            ;
            let top: u64 = 2 * left * (mcl as u64) + span;
            assert(top as int / (2 * span as int) <= mcl) by (nonlinear_arith)
                requires
                    top <= 2 * span * mcl + span,
                    span > 0,
            ;
            top / (2 * span)
        };
        a_mcl.push(mcl / 2 + ratio as usize);
        i += 1;
    }
    a_mcl
}

/// The sum of the chain lengths.
pub open spec fn total_of(lengths: Seq<usize>) -> nat
    decreases lengths.len(),
{
    if lengths.len() == 0 {
        0
    } else {
        total_of(lengths.drop_last()) + lengths.last() as nat
    }
}

/// The chain lengths of a run on `n` points: 1000 generations, the
/// longest chains at generation 375.
pub open spec fn schedule_of(n: nat) -> Seq<usize> {
    Seq::new(1000, |i: int| chain_length(i, 375, n as int, 1000) as usize)
}

/// How many tours the pool of a run has.
pub open spec fn pool_size(n: nat) -> nat {
    if n < 1000 {
        50
    } else {
        20
    }
}

/// The state of an annealing run.
pub struct SimulatedAnnealing<M: Metropolis> {
    pub cities: Vec<City>,
    pub distance_matrix: Vec<u64>,
    pub rng: ThreadRng,
    pub metropolis: M,
    /// The lengths of the tours that the pool has held, all runs of this
    /// engine together: for each run those of the tours it starts with, and
    /// after them those that its moves have brought in, in the order of the
    /// moves.
    pub accepted: Ghost<Seq<u64>>,
    /// How many trial moves have been settled, all runs of this engine
    /// together.
    pub moves: Ghost<nat>,
}

impl<M: Metropolis> SimulatedAnnealing<M> {
    /// The number of points.
    pub open spec fn n(&self) -> nat {
        self.cities@.len()
    }

    /// The engine holds the distance matrix of its points.
    pub open spec fn wf(&self) -> bool {
        is_instance(self.cities@, self.distance_matrix@)
    }

    /// Every tour of the pool is a tour of the instance with its length.
    pub open spec fn is_pool(&self, pool: Seq<Solution>) -> bool {
        forall|k: int|
            0 <= k < pool.len() ==> (#[trigger] pool[k]).is_valid(self.distance_matrix@, self.n())
    }

    /// An engine for `cities` that puts moves which lengthen a tour to
    /// `metropolis`.
    pub fn new(cities: &Vec<City>, metropolis: M) -> (engine: Self)
        requires
            2 <= cities@.len() <= 0xffff,
        ensures
            engine.wf(),
            engine.cities@ == cities@,
            engine.accepted@.len() == 0,
            engine.moves@ == 0,
    {
        let size = cities.len();
        assert(size * size <= usize::MAX) by (nonlinear_arith)
            requires
                size <= 0xffff,
        ;
        SimulatedAnnealing {
            cities: cities.clone(),
            distance_matrix: create_distance_matrix(cities),
            rng: thread_generator(),
            metropolis,
            accepted: Ghost(Seq::empty()),
            moves: Ghost(0),
        }
    }

    /// The shortest tour of a pool, the earliest where several are as
    /// short.
    pub fn find_best_solution(&self, population: &Vec<Solution>) -> (best: Solution)
        requires
            population@.len() > 0,
        ensures
            exists|k: int|
                {
                    &&& 0 <= k < population@.len()
                    &&& best.path@ == (#[trigger] population@[k]).path@
                    &&& best.distance == population@[k].distance
                    &&& forall|j: int|
                        0 <= j < population@.len() ==> best.distance <= population@[j].distance
                    &&& forall|j: int| 0 <= j < k ==> best.distance < population@[j].distance
                },
    {
        let mut at: usize = 0;
        let mut i: usize = 1;
        while i < population.len()
            invariant
                0 <= at < i <= population@.len(),
                forall|j: int|
                    0 <= j < i ==> population@[at as int].distance <= population@[j].distance,
                forall|j: int|
                    0 <= j < at ==> population@[at as int].distance < population@[j].distance,
            decreases population@.len() - i,
        {
            if population[i].distance < population[at].distance {
                at = i;
            }
            i += 1;
        }
        population[at].clone()
    }

    /// The trial move for `city` in `solution`, given the partner tour and
    /// the size drawn for the block move.
    pub fn heuristic_candidate(
        &self,
        city: u16,
        solution: &Solution,
        partner: &Solution,
        draw: usize,
    ) -> (best: Solution)
        requires
            self.wf(),
            solution.is_valid(self.distance_matrix@, self.n()),
            partner.is_valid(self.distance_matrix@, self.n()),
            city < self.n(),
        ensures
            best.is_valid(self.distance_matrix@, self.n()),
            best.path@ == candidate_path(
                solution.path@,
                partner.path@,
                city,
                draw as int,
                self.distance_matrix@,
            ),
    {
        let x_path = &solution.path;
        let y_path = &partner.path;
        let n = x_path.len();
        proof {
            lemma_full_tour_contains(x_path@, self.n(), city);
            lemma_full_tour_contains(y_path@, self.n(), city);
        }
        let pos_city_in_x = position_of(x_path, city);
        let pos_city_in_y = position_of(y_path, city);
        proof {
            lemma_place(x_path@, city, pos_city_in_x as int);
            lemma_place(y_path@, city, pos_city_in_y as int);
        }
        let mut city_j = y_path[(pos_city_in_y + 1) % n];
        if city_j == x_path[(pos_city_in_x + 1) % n] {
            let leading_index = if pos_city_in_y == 0 {
                n - 1
            } else {
                pos_city_in_y - 1
            };
            city_j = y_path[leading_index];
        }
        assert(city_j == partner_city(x_path@, y_path@, city));
        let x_1 = solution.clone().inverse_sampling(&self.distance_matrix, city, city_j);
        let x_2 = solution.clone().swap_sampling(&self.distance_matrix, city, city_j);
        let x_3 = solution.clone().block_insert_at(&self.distance_matrix, city, city_j, draw);
        if x_1.distance <= x_2.distance && x_1.distance <= x_3.distance {
            x_1
        } else if x_2.distance <= x_3.distance {
            x_2
        } else {
            x_3
        }
    }

    /// A trial move for `city` in `solution`: the partner tour is drawn
    /// from the pool, the last tour left out, and the size of the block
    /// move from 1 to 9.
    pub fn create_new_solution_by_heuristic_strategy(
        &mut self,
        city: u16,
        solution: &Solution,
        a_sol: &Vec<Solution>,
    ) -> (best: Solution)
        requires
            old(self).wf(),
            solution.is_valid(old(self).distance_matrix@, old(self).n()),
            old(self).is_pool(a_sol@),
            a_sol@.len() >= 2,
            city < old(self).n(),
        ensures
            final(self).cities == old(self).cities,
            final(self).distance_matrix == old(self).distance_matrix,
            final(self).metropolis == old(self).metropolis,
            final(self).accepted == old(self).accepted,
            final(self).moves == old(self).moves,
            best.is_valid(old(self).distance_matrix@, old(self).n()),
            exists|k: int, draw: int|
                0 <= k < a_sol@.len() - 1 && 1 <= draw < 10 && best.path@ == #[trigger] candidate_path(
                    solution.path@,
                    a_sol@[k].path@,
                    city,
                    draw,
                    old(self).distance_matrix@,
                ),
    {
        let random = draw_between(&mut self.rng, 0, a_sol.len() - 1);
        let draw = draw_between(&mut self.rng, 1, 10);
        self.heuristic_candidate(city, solution, &a_sol[random], draw)
    }

    /// A tour in random order.
    pub fn create_random_solution(&mut self) -> (solution: Solution)
        requires
            old(self).wf(),
        ensures
            final(self).cities == old(self).cities,
            final(self).distance_matrix == old(self).distance_matrix,
            final(self).metropolis == old(self).metropolis,
            final(self).accepted == old(self).accepted,
            final(self).moves == old(self).moves,
            solution.is_valid(old(self).distance_matrix@, old(self).n()),
    {
        let mut path = identity(self.cities.len());
        let ghost ordered = path@;
        shuffle(&mut self.rng, &mut path);
        proof {
            lemma_rearranged_tour(ordered, path@, self.n());
        }
        let distance = calculate_path_distance(&path, &self.distance_matrix);
        Solution::new(path, distance)
    }

    /// A tour grown from a random point: each next point is drawn from the
    /// nearest points not yet visited, as many of them as a number drawn
    /// from 1 to `greedy_range`.
    pub fn create_greedy_solution(&mut self, greedy_range: usize) -> (solution: Solution)
        requires
            old(self).wf(),
            1 <= greedy_range < usize::MAX,
        ensures
            final(self).cities == old(self).cities,
            final(self).distance_matrix == old(self).distance_matrix,
            final(self).metropolis == old(self).metropolis,
            final(self).accepted == old(self).accepted,
            final(self).moves == old(self).moves,
            solution.is_valid(old(self).distance_matrix@, old(self).n()),
            exists|greedy_n: nat|
                1 <= greedy_n <= greedy_range && #[trigger] follows_nearest(
                    solution.path@,
                    old(self).distance_matrix@,
                    old(self).n(),
                    greedy_n,
                ),
    {
        let cities_len = self.cities.len();
        let greedy_n = draw_between(&mut self.rng, 1, greedy_range + 1);
        let path = grow_greedy_tour(&self.distance_matrix, cities_len, greedy_n, &mut self.rng);
        let distance = calculate_path_distance(&path, &self.distance_matrix);
        let solution = Solution::new(path, distance);
        proof {
            assert(follows_nearest(
                solution.path@,
                old(self).distance_matrix@,
                old(self).n(),
                greedy_n as nat,
            ));
        }
        solution
    }

    /// `n` tours in random order.
    pub fn create_random_solutions(&mut self, n: usize) -> (solutions: Vec<Solution>)
        requires
            old(self).wf(),
        ensures
            final(self).cities == old(self).cities,
            final(self).distance_matrix == old(self).distance_matrix,
            final(self).metropolis == old(self).metropolis,
            final(self).accepted == old(self).accepted,
            final(self).moves == old(self).moves,
            solutions@.len() == n,
            old(self).is_pool(solutions@),
    {
        let mut solutions: Vec<Solution> = Vec::new();
        while solutions.len() < n
            invariant
                self.wf(),
                self.cities == old(self).cities,
                self.distance_matrix == old(self).distance_matrix,
                self.metropolis == old(self).metropolis,
                self.accepted == old(self).accepted,
                self.moves == old(self).moves,
                solutions@.len() <= n,
                self.is_pool(solutions@),
            decreases n - solutions@.len(),
        {
            let solution = self.create_random_solution();
            solutions.push(solution);
        }
        solutions
    }

    /// `n` tours grown greedily.
    pub fn create_greedy_solutions(&mut self, n: usize, greedy_range: usize) -> (solutions: Vec<
        Solution,
    >)
        requires
            old(self).wf(),
            1 <= greedy_range < usize::MAX,
        ensures
            final(self).cities == old(self).cities,
            final(self).distance_matrix == old(self).distance_matrix,
            final(self).metropolis == old(self).metropolis,
            final(self).accepted == old(self).accepted,
            final(self).moves == old(self).moves,
            solutions@.len() == n,
            old(self).is_pool(solutions@),
    {
        let mut solutions: Vec<Solution> = Vec::new();
        while solutions.len() < n
            invariant
                self.wf(),
                self.cities == old(self).cities,
                self.distance_matrix == old(self).distance_matrix,
                self.metropolis == old(self).metropolis,
                self.accepted == old(self).accepted,
                self.moves == old(self).moves,
                1 <= greedy_range < usize::MAX,
                solutions@.len() <= n,
                self.is_pool(solutions@),
            decreases n - solutions@.len(),
        {
            let solution = self.create_greedy_solution(greedy_range);
            solutions.push(solution);
        }
        solutions
    }

    /// The first temperatures of one slot: twice `len` random exchanges are
    /// tried on a greedy tour, each kept where it shortens the tour, and of
    /// the changes in length they made the middle `len` are kept.
    pub fn create_temperature_list(&mut self, len: usize, greedy_range: usize) -> (list:
        TemperatureList)
        requires
            old(self).wf(),
            1 <= greedy_range < usize::MAX,
            len <= 0xffff,
        ensures
            final(self).cities == old(self).cities,
            final(self).distance_matrix == old(self).distance_matrix,
            final(self).metropolis == old(self).metropolis,
            final(self).accepted == old(self).accepted,
            final(self).moves == old(self).moves,
            list.wf(),
            list.readings@.len() == len,
            exists|observations: Seq<u64>|
                observations.len() == 2 * len && #[trigger] list.is_middle_of(
                    observations,
                    len as int,
                ),
    {
        let mut current_solution = self.create_greedy_solution(greedy_range);
        let mut priority_list: Vec<u64> = Vec::new();
        while priority_list.len() < 2 * len
            invariant
                self.wf(),
                self.cities == old(self).cities,
                self.distance_matrix == old(self).distance_matrix,
                self.metropolis == old(self).metropolis,
                self.accepted == old(self).accepted,
                self.moves == old(self).moves,
                len <= 0xffff,
                priority_list@.len() <= 2 * len,
                current_solution.is_valid(self.distance_matrix@, self.n()),
            decreases 2 * len - priority_list@.len(),
        {
            let new_solution = current_solution.clone().swap(&self.distance_matrix, &mut self.rng);
            let distance_new = new_solution.distance;
            let distance_curr = current_solution.distance;
            let change = if distance_new < distance_curr {
                distance_curr - distance_new
            } else {
                distance_new - distance_curr
            };
            priority_list.push(change);
            if distance_new < distance_curr {
                current_solution = new_solution;
            }
        }
        let list = TemperatureList::from_observations(&priority_list, len);
        proof {
            assert(list.is_middle_of(priority_list@, len as int));
        }
        list
    }

    /// The first temperatures of `size` slots.
    pub fn create_temperature_lists_matrix(
        &mut self,
        size: usize,
        temp_list_len: usize,
        greedy_range: usize,
    ) -> (matrix: Vec<TemperatureList>)
        requires
            old(self).wf(),
            1 <= greedy_range < usize::MAX,
            temp_list_len <= 0xffff,
        ensures
            final(self).cities == old(self).cities,
            final(self).distance_matrix == old(self).distance_matrix,
            final(self).metropolis == old(self).metropolis,
            final(self).accepted == old(self).accepted,
            final(self).moves == old(self).moves,
            matrix@.len() == size,
            forall|k: int|
                0 <= k < size ==> (#[trigger] matrix@[k]).wf() && matrix@[k].readings@.len()
                    == temp_list_len,
    {
        let mut matrix: Vec<TemperatureList> = Vec::with_capacity(size);
        while matrix.len() < size
            invariant
                self.wf(),
                self.cities == old(self).cities,
                self.distance_matrix == old(self).distance_matrix,
                self.metropolis == old(self).metropolis,
                self.accepted == old(self).accepted,
                self.moves == old(self).moves,
                1 <= greedy_range < usize::MAX,
                temp_list_len <= 0xffff,
                matrix@.len() <= size,
                forall|k: int|
                    0 <= k < matrix@.len() ==> (#[trigger] matrix@[k]).wf()
                        && matrix@[k].readings@.len() == temp_list_len,
            decreases size - matrix@.len(),
        {
            let temperature_list = self.create_temperature_list(temp_list_len, greedy_range);
            matrix.push(temperature_list);
        }
        matrix
    }
}

/// Settles one trial move of a chain.
///
/// A candidate that is no longer than the current tour takes its place,
/// and becomes the best tour where it is shorter than that. A longer
/// candidate takes the place of the current tour only where `answer` holds
/// a reading, which is then added to `sum`, with `count` raised by one;
/// with no reading nothing changes.
pub fn settle_move(
    current: &mut Solution,
    best: &mut Solution,
    sum: &mut u128,
    count: &mut u64,
    candidate: Solution,
    answer: Option<u64>,
)
    requires
        *old(count) < u64::MAX,
        *old(sum) <= *old(count) * 0xffff_ffff_ffff_ffff,
    ensures
        *final(sum) <= *final(count) * 0xffff_ffff_ffff_ffff,
        candidate.distance <= old(current).distance ==> {
            &&& *final(current) == candidate
            &&& *final(sum) == *old(sum)
            &&& *final(count) == *old(count)
            &&& if candidate.distance < old(best).distance {
                final(best).same_as(&candidate)
            } else {
                *final(best) == *old(best)
            }
        },
        candidate.distance > old(current).distance ==> {
            &&& *final(best) == *old(best)
            &&& match answer {
                Some(reading) => {
                    &&& *final(current) == candidate
                    &&& *final(sum) == *old(sum) + reading
                    &&& *final(count) == *old(count) + 1
                },
                None => {
                    &&& *final(current) == *old(current)
                    &&& *final(sum) == *old(sum)
                    &&& *final(count) == *old(count)
                },
            }
        },
{
    if candidate.distance <= current.distance {
        if candidate.distance < best.distance {
            *best = candidate.clone();
        }
        *current = candidate;
    } else {
        match answer {
            Some(reading) => {
                assert((*count + 1) * 0xffff_ffff_ffff_ffff == *count * 0xffff_ffff_ffff_ffff
                    + 0xffff_ffff_ffff_ffff) by (nonlinear_arith);
                assert(*count * 0xffff_ffff_ffff_ffff <= 0xffff_ffff_ffff_ffff
                    * 0xffff_ffff_ffff_ffff) by (nonlinear_arith)
                    requires
                        *count <= 0xffff_ffff_ffff_ffff,
                ;
                *sum = *sum + reading as u128;
                *count = *count + 1;
                *current = candidate;
            },
            None => {},
        }
    }
}

impl<M: Metropolis> SimulatedAnnealing<M> {
    /// The best tour is no longer than any tour of the pool.
    pub open spec fn leads(best: Solution, pool: Seq<Solution>) -> bool {
        forall|k: int| 0 <= k < pool.len() ==> best.distance <= (#[trigger] pool[k]).distance
    }

    /// One chain of trial moves on the tour in slot `i` at its current
    /// temperature, the largest reading of the slot. Each move is proposed
    /// by `create_new_solution_by_heuristic_strategy` for the next point
    /// of the slot's cursor and settled by `settle_move`; a longer
    /// candidate is put to the Metropolis rule. Afterwards the mean of the
    /// readings of the accepted longer moves, if any, replaces the slot's
    /// largest temperature.
    ///
    /// The pool stays a pool of tours; the best tour never gets longer,
    /// and where it was no longer than any tour of the pool before, it is
    /// so after. The length of every candidate that takes the slot is added
    /// to `accepted`, so that the slot ends on the last length added, and
    /// the best tour is no longer than any of them.
    pub fn run_chain(
        &mut self,
        i: usize,
        chain: usize,
        a_sol: &mut Vec<Solution>,
        temperatures: &mut Vec<TemperatureList>,
        a_city: &mut Vec<u16>,
        best: &mut Solution,
    )
        requires
            old(self).wf(),
            old(self).is_pool(old(a_sol)@),
            old(a_sol)@.len() >= 2,
            i < old(a_sol)@.len(),
            old(temperatures)@.len() == old(a_sol)@.len(),
            old(a_city)@.len() == old(a_sol)@.len(),
            forall|k: int|
                0 <= k < old(temperatures)@.len() ==> (#[trigger] old(temperatures)@[k]).wf() && old(
                    temperatures,
                )@[k].readings@.len() > 0,
            old(best).is_valid(old(self).distance_matrix@, old(self).n()),
        ensures
            final(self).cities == old(self).cities,
            final(self).distance_matrix == old(self).distance_matrix,
            final(self).is_pool(final(a_sol)@),
            final(a_sol)@.len() == old(a_sol)@.len(),
            final(temperatures)@.len() == old(temperatures)@.len(),
            final(a_city)@.len() == old(a_city)@.len(),
            forall|k: int|
                0 <= k < final(temperatures)@.len() ==> (#[trigger] final(temperatures)@[k]).wf()
                    && final(temperatures)@[k].readings@.len() == old(
                    temperatures,
                )@[k].readings@.len(),
            final(best).is_valid(old(self).distance_matrix@, old(self).n()),
            final(best).distance <= old(best).distance,
            final(best).distance == old(best).distance ==> final(best).same_as(old(best)),
            Self::leads(*old(best), old(a_sol)@) ==> Self::leads(*final(best), final(a_sol)@),
            final(self).accepted@.len() >= old(self).accepted@.len(),
            final(self).accepted@.take(old(self).accepted@.len() as int) == old(self).accepted@,
            Self::leads(*old(best), old(a_sol)@) ==> forall|k: int|
                old(self).accepted@.len() <= k < final(self).accepted@.len()
                    ==> final(best).distance <= #[trigger] final(self).accepted@[k],
            final(self).accepted@.len() - old(self).accepted@.len() <= chain,
            final(self).moves@ == old(self).moves@ + chain,
            final(a_sol)@[i as int].distance == if final(self).accepted@.len() > old(self).accepted@.len() {
                final(self).accepted@.last()
            } else {
                old(a_sol)@[i as int].distance
            },
            forall|k: int|
                0 <= k < old(a_sol)@.len() && k != i ==> #[trigger] final(a_sol)@[k] == old(a_sol)@[k],
            forall|k: int|
                0 <= k < old(a_sol)@.len() && k != i ==> #[trigger] final(temperatures)@[k] == old(
                    temperatures,
                )@[k],
            forall|k: int|
                0 <= k < old(a_sol)@.len() && k != i ==> #[trigger] final(a_city)@[k] == old(
                    a_city,
                )@[k],
            final(a_city)@[i as int] == if chain == 0 {
                old(a_city)@[i as int] as int
            } else {
                (old(a_city)@[i as int] + chain) % (old(self).n() as int)
            },
            final(temperatures)@[i as int] == old(temperatures)@[i as int] || exists|mean: u64| #[trigger]
                final(temperatures)@[i as int].is_fold_of(&old(temperatures)@[i as int], mean),
    {
        let cities_len = self.cities.len();
        let top = temperatures[i].peek();
        let temperature = match top {
            Some(t) => t,
            None => 0,
        };
        let mut k: usize = 0;
        let mut c: u64 = 0;
        let mut s: u128 = 0;
        proof {
            assert(self.accepted@.take(self.accepted@.len() as int) =~= self.accepted@);
        }
        while k < chain
            invariant
                self.wf(),
                self.cities == old(self).cities,
                self.distance_matrix == old(self).distance_matrix,
                cities_len == self.n(),
                self.is_pool(a_sol@),
                a_sol@.len() == old(a_sol)@.len(),
                a_sol@.len() >= 2,
                i < a_sol@.len(),
                a_city@.len() == a_sol@.len(),
                temperatures@ == old(temperatures)@,
                old(a_city)@.len() == a_sol@.len(),
                forall|w: int|
                    0 <= w < a_sol@.len() && w != i ==> #[trigger] a_sol@[w] == old(a_sol)@[w],
                forall|w: int|
                    0 <= w < a_sol@.len() && w != i ==> #[trigger] a_city@[w] == old(a_city)@[w],
                a_city@[i as int] == if k == 0 {
                    old(a_city)@[i as int] as int
                } else {
                    (old(a_city)@[i as int] + k) % (cities_len as int)
                },
                best.is_valid(self.distance_matrix@, self.n()),
                best.distance <= old(best).distance,
                best.distance == old(best).distance ==> best.same_as(old(best)),
                Self::leads(*old(best), old(a_sol)@) ==> Self::leads(*best, a_sol@),
                self.accepted@.len() >= old(self).accepted@.len(),
                self.accepted@.take(old(self).accepted@.len() as int) == old(self).accepted@,
                Self::leads(*old(best), old(a_sol)@) ==> forall|w: int|
                    old(self).accepted@.len() <= w < self.accepted@.len() ==> best.distance
                        <= #[trigger] self.accepted@[w],
                self.accepted@.len() - old(self).accepted@.len() <= k,
                self.moves@ == old(self).moves@ + k,
                a_sol@[i as int].distance == if self.accepted@.len() > old(self).accepted@.len() {
                    self.accepted@.last()
                } else {
                    old(a_sol)@[i as int].distance
                },
                k <= chain,
                c <= k,
                s <= c * 0xffff_ffff_ffff_ffff,
            decreases chain - k,
        {
            let next_city = ((a_city[i] as usize + 1) % cities_len) as u16;
            proof {
                let start = old(a_city)@[i as int] as int;
                let m = cities_len as int;
                vstd::arithmetic::div_mod::lemma_add_mod_noop(start + k, 1, m);
                vstd::arithmetic::div_mod::lemma_mod_pos_bound(start + k, m);
                assert(1int % m == 1) by (nonlinear_arith)
                    requires
                        m >= 2,
                ;
                if k > 0 {
                    assert((start + k) % m % m == (start + k) % m) by (nonlinear_arith)
                        requires
                            m >= 2,
                            0 <= (start + k) % m < m,
                    ;
                }
            }
            a_city.set(i, next_city);
            let solution_y = self.create_new_solution_by_heuristic_strategy(
                next_city,
                &a_sol[i],
                a_sol,
            );
            let mut current = a_sol[i].clone();
            let answer = if solution_y.distance > current.distance {
                self.metropolis.accept(solution_y.distance - current.distance, temperature)
            } else {
                None
            };
            let ghost pool = a_sol@;
            let ghost led = *best;
            let ghost noted = self.accepted@;
            let length = solution_y.distance;
            let taken = length <= current.distance || answer.is_some();
            settle_move(&mut current, best, &mut s, &mut c, solution_y, answer);
            a_sol.set(i, current);
            self.moves = Ghost(self.moves@ + 1);
            if taken {
                self.accepted = Ghost(self.accepted@.push(length));
            }
            proof {
                assert(self.accepted@.take(old(self).accepted@.len() as int) =~= noted.take(
                    old(self).accepted@.len() as int,
                ));
                if Self::leads(*old(best), old(a_sol)@) {
                    assert(led.distance <= pool[i as int].distance);
                    assert forall|w: int|
                        old(self).accepted@.len() <= w < self.accepted@.len() implies best.distance
                        <= #[trigger] self.accepted@[w] by {
                        if w < noted.len() {
                            assert(self.accepted@[w] == noted[w]);
                            assert(led.distance <= noted[w]);
                        }
                    }
                }
            }
            proof {
                assert(pool[i as int].is_valid(self.distance_matrix@, self.n()));
                assert forall|w: int| 0 <= w < a_sol@.len() implies (#[trigger] a_sol@[w]).is_valid(
                    self.distance_matrix@,
                    self.n(),
                ) by {
                    if w != i {
                        assert(a_sol@[w] == pool[w]);
                        assert(pool[w].is_valid(self.distance_matrix@, self.n()));
                    }
                }
                if Self::leads(*old(best), old(a_sol)@) {
                    assert forall|w: int| 0 <= w < a_sol@.len() implies best.distance <= (
                    #[trigger] a_sol@[w]).distance by {
                        assert(led.distance <= pool[w].distance);
                        if w != i {
                            assert(a_sol@[w] == pool[w]);
                        }
                    }
                }
            }
            k += 1;
        }
        if c > 0 {
            assert(s as int / c as int <= 0xffff_ffff_ffff_ffff) by (nonlinear_arith)
                requires
                    s <= c * 0xffff_ffff_ffff_ffff,
                    c > 0,
            ;
            let mean = (s / c as u128) as u64;
            let ghost before = temperatures@;
            let mut list = temperatures.remove(i);
            assert(list == before[i as int]);
            let top = list.pop();
            list.push(mean);
            proof {
                assert(before[i as int].is_largest(top->0));
                assert(list.is_fold_of(&before[i as int], mean));
            }
            temperatures.insert(i, list);
            proof {
                assert(temperatures@ =~= before.update(i as int, list));
                assert(before[i as int].wf());
                assert forall|k: int| 0 <= k < temperatures@.len() implies (
                #[trigger] temperatures@[k]).wf() && temperatures@[k].readings@.len()
                    == before[k].readings@.len() by {
                    if k != i {
                        assert(before[k].wf());
                    }
                }
            }
        }
    }

    /// Anneals the pool through the generations of `a_mcl`, each slot by a
    /// chain of trial moves of the generation's length, and returns the
    /// best tour.
    ///
    /// The best tour is the shortest tour of the pool handed in unless a
    /// move arrived at a shorter one, and it is no longer than any tour of
    /// the pool at the end. As it never gets longer, it is as short as any
    /// tour that the pool has held.
    pub fn anneal(
        &mut self,
        a_sol: &mut Vec<Solution>,
        temperatures: &mut Vec<TemperatureList>,
        a_city: &mut Vec<u16>,
        a_mcl: &Vec<usize>,
    ) -> (best: Solution)
        requires
            old(self).wf(),
            old(self).is_pool(old(a_sol)@),
            old(a_sol)@.len() >= 2,
            old(temperatures)@.len() == old(a_sol)@.len(),
            old(a_city)@.len() == old(a_sol)@.len(),
            forall|k: int|
                0 <= k < old(temperatures)@.len() ==> (#[trigger] old(temperatures)@[k]).wf() && old(
                    temperatures,
                )@[k].readings@.len() > 0,
        ensures
            final(self).cities == old(self).cities,
            final(self).distance_matrix == old(self).distance_matrix,
            final(self).is_pool(final(a_sol)@),
            final(a_sol)@.len() == old(a_sol)@.len(),
            best.is_valid(old(self).distance_matrix@, old(self).n()),
            Self::leads(best, old(a_sol)@),
            Self::leads(best, final(a_sol)@),
            final(self).moves@ == old(self).moves@ + old(a_sol)@.len() * total_of(a_mcl@),
            final(self).accepted@.len() >= old(self).accepted@.len(),
            final(self).accepted@.take(old(self).accepted@.len() as int) == old(self).accepted@,
            forall|k: int|
                old(self).accepted@.len() <= k < final(self).accepted@.len() ==> best.distance
                    <= #[trigger] final(self).accepted@[k],
            (exists|k: int|
                0 <= k < old(a_sol)@.len() && best.same_as(&#[trigger] old(a_sol)@[k])) || exists|
                k: int,
            |
                0 <= k < old(a_sol)@.len() && Self::leads(#[trigger] old(a_sol)@[k], old(a_sol)@)
                    && best.distance < old(a_sol)@[k].distance,
    {
        let population_size = a_sol.len();
        proof {
            assert(self.accepted@.take(self.accepted@.len() as int) =~= self.accepted@);
            assert(a_mcl@.take(0) =~= Seq::<usize>::empty());
            assert(population_size * total_of(a_mcl@.take(0)) == 0) by (nonlinear_arith)
                requires
                    total_of(a_mcl@.take(0)) == 0,
            ;
        }
        let mut best = self.find_best_solution(a_sol);
        let ghost first = best;
        let ghost at: int = choose|k: int|
            {
                &&& 0 <= k < a_sol@.len()
                &&& best.path@ == (#[trigger] a_sol@[k]).path@
                &&& best.distance == a_sol@[k].distance
                &&& forall|j: int| 0 <= j < a_sol@.len() ==> best.distance <= a_sol@[j].distance
                &&& forall|j: int| 0 <= j < k ==> best.distance < a_sol@[j].distance
            };
        proof {
            assert(a_sol@[at].is_valid(self.distance_matrix@, self.n()));
            assert(best.same_as(&a_sol@[at]));
        }
        let mut g: usize = 0;
        while g < a_mcl.len()
            invariant
                self.wf(),
                self.cities == old(self).cities,
                self.distance_matrix == old(self).distance_matrix,
                g <= a_mcl@.len(),
                population_size >= 2,
                a_sol@.len() == population_size,
                old(a_sol)@.len() == population_size,
                temperatures@.len() == population_size,
                a_city@.len() == population_size,
                self.is_pool(a_sol@),
                forall|k: int|
                    0 <= k < temperatures@.len() ==> (#[trigger] temperatures@[k]).wf()
                        && temperatures@[k].readings@.len() > 0,
                best.is_valid(self.distance_matrix@, self.n()),
                best.distance <= first.distance,
                best.distance == first.distance ==> best.same_as(&first),
                Self::leads(best, a_sol@),
                self.accepted@.len() >= old(self).accepted@.len(),
                self.accepted@.take(old(self).accepted@.len() as int) == old(self).accepted@,
                forall|w: int|
                    old(self).accepted@.len() <= w < self.accepted@.len() ==> best.distance
                        <= #[trigger] self.accepted@[w],
                self.moves@ == old(self).moves@ + population_size * total_of(a_mcl@.take(g as int)),
            decreases a_mcl@.len() - g,
        {
            let ghost settled = self.moves@;
            let mut i: usize = 0;
            while i < population_size
                invariant
                    self.wf(),
                    self.cities == old(self).cities,
                    self.distance_matrix == old(self).distance_matrix,
                    g < a_mcl@.len(),
                    i <= population_size,
                    population_size >= 2,
                    a_sol@.len() == population_size,
                    temperatures@.len() == population_size,
                    a_city@.len() == population_size,
                    self.is_pool(a_sol@),
                    forall|k: int|
                        0 <= k < temperatures@.len() ==> (#[trigger] temperatures@[k]).wf()
                            && temperatures@[k].readings@.len() > 0,
                    best.is_valid(self.distance_matrix@, self.n()),
                    best.distance <= first.distance,
                    best.distance == first.distance ==> best.same_as(&first),
                    Self::leads(best, a_sol@),
                    self.accepted@.len() >= old(self).accepted@.len(),
                    self.accepted@.take(old(self).accepted@.len() as int) == old(self).accepted@,
                    forall|w: int|
                        old(self).accepted@.len() <= w < self.accepted@.len() ==> best.distance
                            <= #[trigger] self.accepted@[w],
                    self.moves@ == settled + i * a_mcl@[g as int],
                decreases population_size - i,
            {
                let ghost noted = self.accepted@;
                let ghost led = best;
                self.run_chain(i, a_mcl[g], a_sol, temperatures, a_city, &mut best);
                proof {
                    assert(self.accepted@.take(old(self).accepted@.len() as int) =~= noted.take(
                        old(self).accepted@.len() as int,
                    ));
                    assert forall|w: int|
                        old(self).accepted@.len() <= w < self.accepted@.len() implies best.distance
                        <= #[trigger] self.accepted@[w] by {
                        if w < noted.len() {
                            assert(self.accepted@.take(noted.len() as int)[w] == self.accepted@[w]);
                            assert(led.distance <= noted[w]);
                        }
                    }
                    assert((i + 1) * a_mcl@[g as int] == i * a_mcl@[g as int] + a_mcl@[g as int])
                        by (nonlinear_arith);
                }
                i += 1;
            }
            proof {
                let upto = a_mcl@.take(g + 1);
                assert(upto.drop_last() =~= a_mcl@.take(g as int));
                assert(upto.last() == a_mcl@[g as int]);
                assert(population_size * total_of(upto) == population_size * total_of(
                    a_mcl@.take(g as int),
                ) + population_size * a_mcl@[g as int]) by (nonlinear_arith)
                    requires
                        total_of(upto) == total_of(a_mcl@.take(g as int)) + a_mcl@[g as int],
                ;
            }
            g += 1;
        }
        proof {
            assert(a_mcl@.take(a_mcl@.len() as int) =~= a_mcl@);
        }
        proof {
            assert(Self::leads(first, old(a_sol)@));
            if best.distance == first.distance {
                assert(best.same_as(&old(a_sol)@[at]));
            } else {
                assert(Self::leads(old(a_sol)@[at], old(a_sol)@));
                assert(best.distance < old(a_sol)@[at].distance);
            }
        }
        best
    }
}

impl<M: Metropolis> Algorithm for SimulatedAnnealing<M> {
    open spec fn instance(&self) -> Seq<City> {
        self.cities@
    }

    open spec fn distances(&self) -> Seq<u64> {
        self.distance_matrix@
    }

    open spec fn ready(&self) -> bool {
        self.wf()
    }

    /// Anneals a pool of random tours over 1000 generations by `anneal` and
    /// returns the best tour, together with the shortest tour of the first
    /// pool. The pool has 50 tours, 20 from 1000 points on; their lengths
    /// are added to `accepted` before those of the moves. The best tour is
    /// no longer than any tour that the pool has held in this run. In each
    /// generation every tour of the pool goes through a chain of trial
    /// moves of the generation's length in `schedule_of`.
    fn execute(&mut self) -> (response: ExecuteResponse)
        ensures
            response.initial_path@.len() > 0,
            final(self).moves@ == old(self).moves@ + pool_size(old(self).n()) * total_of(
                schedule_of(old(self).n()),
            ),
            final(self).accepted@.len() >= old(self).accepted@.len() + pool_size(old(self).n()),
            final(self).accepted@.take(old(self).accepted@.len() as int) == old(self).accepted@,
            forall|k: int|
                old(self).accepted@.len() <= k < final(self).accepted@.len() ==> response.distance
                    <= #[trigger] final(self).accepted@[k],
            forall|k: int|
                old(self).accepted@.len() <= k < old(self).accepted@.len() + pool_size(old(self).n())
                    ==> tour_length(
                    response.initial_path@,
                    old(self).distance_matrix@,
                    old(self).n(),
                ) <= #[trigger] final(self).accepted@[k],
            exists|k: int|
                old(self).accepted@.len() <= k < old(self).accepted@.len() + pool_size(old(self).n())
                    && tour_length(
                    response.initial_path@,
                    old(self).distance_matrix@,
                    old(self).n(),
                ) == #[trigger] final(self).accepted@[k],
    {
        let start_time = clock_now();
        let cities_len = self.cities.len();
        let greedy_range = if cities_len < 20 {
            20
        } else {
            cities_len
        };
        let temp_list_len: usize = 150;
        let population_size: usize = if cities_len < 1000 {
            50
        } else {
            20
        };
        let generations: usize = 1000;
        let markov_chain_len = cities_len;
        let mut a_sol = self.create_random_solutions(population_size);
        let mut temperature_matrix = self.create_temperature_lists_matrix(
            population_size,
            temp_list_len,
            greedy_range,
        );
        let mut a_city: Vec<u16> = Vec::with_capacity(population_size);
        while a_city.len() < population_size
            invariant
                a_city@.len() <= population_size,
            decreases population_size - a_city@.len(),
        {
            a_city.push(0);
        }
        let a_mcl = create_mcl_list(375, markov_chain_len, generations);
        proof {
            assert(peak_generation(1000, 375) == 375);
            assert(a_mcl@ =~= schedule_of(self.n()));
        }
        let initial_best = self.find_best_solution(&a_sol);
        let ghost pool = a_sol@;
        let ghost earlier = self.accepted@;
        self.accepted = Ghost(earlier + Seq::new(pool.len(), |k: int| pool[k].distance));
        let ghost started = self.accepted@;
        proof {
            assert(started.take(earlier.len() as int) =~= earlier);
            let at = choose|k: int|
                {
                    &&& 0 <= k < a_sol@.len()
                    &&& initial_best.path@ == (#[trigger] a_sol@[k]).path@
                    &&& initial_best.distance == a_sol@[k].distance
                    &&& forall|j: int|
                        0 <= j < a_sol@.len() ==> initial_best.distance <= a_sol@[j].distance
                    &&& forall|j: int| 0 <= j < k ==> initial_best.distance < a_sol@[j].distance
                };
            assert(a_sol@[at].is_valid(self.distance_matrix@, self.n()));
        }
        let best = self.anneal(&mut a_sol, &mut temperature_matrix, &mut a_city, &a_mcl);
        proof {
            let at = choose|k: int|
                {
                    &&& 0 <= k < pool.len()
                    &&& initial_best.path@ == (#[trigger] pool[k]).path@
                    &&& initial_best.distance == pool[k].distance
                    &&& forall|j: int| 0 <= j < pool.len() ==> initial_best.distance <= pool[j].distance
                    &&& forall|j: int| 0 <= j < k ==> initial_best.distance < pool[j].distance
                };
            assert(best.distance <= pool[at].distance);
            assert(pool[at].is_valid(self.distance_matrix@, self.n()));
            assert(self.accepted@.take(earlier.len() as int) =~= self.accepted@.take(
                started.len() as int,
            ).take(earlier.len() as int));
            assert forall|k: int| earlier.len() <= k < self.accepted@.len() implies best.distance
                <= #[trigger] self.accepted@[k] by {
                if k < started.len() {
                    assert(self.accepted@[k] == self.accepted@.take(started.len() as int)[k]);
                    assert(started[k] == pool[k - earlier.len()].distance);
                }
            }
            assert forall|k: int| earlier.len() <= k < earlier.len() + pool.len() implies tour_length(
                initial_best.path@,
                self.distance_matrix@,
                self.n(),
            ) <= #[trigger] self.accepted@[k] by {
                assert(self.accepted@[k] == self.accepted@.take(started.len() as int)[k]);
                assert(started[k] == pool[k - earlier.len()].distance);
            }
            assert(self.accepted@[earlier.len() + at] == self.accepted@.take(started.len() as int)[earlier.len()
                + at]);
            assert(started[earlier.len() + at] == pool[at].distance);
        }
        ExecuteResponse::new(
            initial_best.path,
            best.path,
            best.distance,
            clock_elapsed(&start_time),
            String::new(),
        )
    }
}

} // verus!
