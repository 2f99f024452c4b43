//! A tour of the genetic population and the mutation operators. Every
//! operator proposes one rearranged tour and keeps it only where it is
//! shorter than the tour it came from.

use rand::rngs::ThreadRng;
use vstd::prelude::*;

use crate::chance::{choose_one, draw_between, toss};
use crate::distance::{floor_sqrt, integer_sqrt, is_matrix, lemma_floor_sqrt_exists};
use crate::greedy::as_indices;
use crate::length::{calculate_path_distance, in_range, tour_length};
use crate::moves::{
    joined, lemma_relocated_multiset, lemma_swapped_multiset, relocate, relocated, swap_entries, swapped,
};
use crate::neighbours::{
    best_neighbour, find_best_neighbour, find_n_best_neighbours, is_candidate, is_nearest_list,
};
use crate::tour::{
    is_tour, lemma_full_tour_contains, lemma_place, lemma_rearranged_tour,
    lemma_with_reversed_multiset, place, position_of, reverse_range, slice_of, with_reversed,
};

verus! {

/// A tour, its length, and the name of the mutation that last shortened it.
pub struct Chromossome {
    pub path: Vec<u16>,
    pub distance: u64,
    pub mutation: String,
}

impl Clone for Chromossome {
    fn clone(&self) -> (copy: Self)
        ensures
            copy.path@ == self.path@,
            copy.distance == self.distance,
            copy.mutation@ == self.mutation@,
    {
        Chromossome {
            path: self.path.clone(),
            distance: self.distance,
            mutation: self.mutation.clone(),
        }
    }
}

/// The mutation operators.
#[derive(Clone, Copy, Debug, PartialEq, Eq)]
pub enum MutationKind {
    Swap,
    Displacement,
    Insertion,
    SimpleInversion,
    Inversion,
    GreedySubTour,
    GreedyInsertion,
}

/// The operator that a draw from 0 to 99 selects: 18 draws in 100 each for
/// the exchange, the displacement, the insertion and the simple inversion,
/// 24 for the inversion, 2 each for the two greedy operators.
pub open spec fn kind_for(draw: int) -> MutationKind {
    if draw < 18 {
        MutationKind::Swap
    } else if draw < 36 {
        MutationKind::Displacement
    } else if draw < 54 {
        MutationKind::Insertion
    } else if draw < 72 {
        MutationKind::SimpleInversion
    } else if draw < 96 {
        MutationKind::Inversion
    } else if draw < 98 {
        MutationKind::GreedySubTour
    } else {
        MutationKind::GreedyInsertion
    }
}

/// The operator that a draw selects.
pub fn mutation_for(draw: usize) -> (kind: MutationKind)
    ensures
        kind == kind_for(draw as int),
{
    if draw < 18 {
        MutationKind::Swap
    } else if draw < 36 {
        MutationKind::Displacement
    } else if draw < 54 {
        MutationKind::Insertion
    } else if draw < 72 {
        MutationKind::SimpleInversion
    } else if draw < 96 {
        MutationKind::Inversion
    } else if draw < 98 {
        MutationKind::GreedySubTour
    } else {
        MutationKind::GreedyInsertion
    }
}

/// `path` after the exchanges at the given pairs of positions, one after
/// another.
pub open spec fn swaps_applied(path: Seq<u16>, pairs: Seq<(usize, usize)>) -> Seq<u16>
    decreases pairs.len(),
{
    if pairs.len() == 0 {
        path
    } else {
        swapped(
            swaps_applied(path, pairs.drop_last()),
            pairs.last().0 as int,
            pairs.last().1 as int,
        )
    }
}

/// The tour that the greedy relocation of the block of `size` entries at
/// `start` proposes: the block is put behind the point nearest to its
/// first entry or in front of the point nearest to its last entry,
/// whichever gives the shorter tour, the former where both are as short.
pub open spec fn greedy_sub_tour_path(
    path: Seq<u16>,
    start: int,
    size: int,
    matrix: Seq<u64>,
) -> Seq<u16> {
    let n = path.len();
    let block = path.subrange(start, start + size);
    let rest = path.subrange(0, start) + path.subrange(start + size, n as int);
    let filter = as_indices(block);
    let first_best = best_neighbour(matrix, n, block.first() as int, filter) as u16;
    let second_best = best_neighbour(matrix, n, block.last() as int, filter) as u16;
    let first_i = place(rest, first_best);
    let second_i = place(rest, second_best);
    let first_path = relocated(path, start, size, first_i + 1, false);
    let second_path = relocated(path, start, size, second_i, false);
    if first_i + 1 != second_i && tour_length(second_path, matrix, n) < tour_length(
        first_path,
        matrix,
        n,
    ) {
        second_path
    } else {
        first_path
    }
}

/// Among how many of its nearest points the greedy insertion looks for the
/// new neighbour of a point: the square root of the number of points,
/// rounded down, and 5 at least.
pub open spec fn insertion_reach(n: nat) -> nat {
    if floor_sqrt(n) < 5 {
        5
    } else {
        floor_sqrt(n)
    }
}

/// The tour that the greedy insertion proposes: `city` is taken out and put
/// back next to `chosen`, behind it if `behind` and in front of it
/// otherwise.
pub open spec fn greedy_insertion_path(path: Seq<u16>, city: u16, chosen: u16, behind: bool) -> Seq<
    u16,
> {
    let at = place(path, city);
    let rest = path.remove(at);
    relocated(path, at, 1, place(rest, chosen) + if behind {
        1int
    } else {
        0int
    }, false)
}

impl Chromossome {
    /// The path is a tour through `n` points and the recorded distance is
    /// its length.
    pub open spec fn is_valid(&self, matrix: Seq<u64>, n: nat) -> bool {
        &&& is_tour(self.path@, n)
        &&& self.distance == tour_length(self.path@, matrix, n)
    }

    /// `self` is what is left of `before` once `candidate` was proposed
    /// under `name`: the candidate where it is shorter, `before` otherwise.
    pub open spec fn is_outcome_of(
        &self,
        before: &Self,
        candidate: Seq<u16>,
        name: Seq<char>,
        matrix: Seq<u64>,
    ) -> bool {
        if tour_length(candidate, matrix, candidate.len()) < before.distance {
            &&& self.path@ == candidate
            &&& self.distance == tour_length(candidate, matrix, candidate.len())
            &&& self.mutation@ == name
        } else {
            self.same_as(before)
        }
    }

    /// The same tour, the same length and the same name.
    pub open spec fn same_as(&self, other: &Self) -> bool {
        &&& self.path@ == other.path@
        &&& self.distance == other.distance
        &&& self.mutation@ == other.mutation@
    }

    /// `self` is what the exchange mutation leaves of `before`: the outcome
    /// of `swaps` exchanges at positions other than the last, or of none
    /// where the tour has fewer than 2 points.
    pub open spec fn is_swapped_from(&self, before: &Self, matrix: Seq<u64>, swaps: nat) -> bool {
        exists|pairs: Seq<(usize, usize)>|
            {
                &&& pairs.len() == if before.path@.len() >= 2 {
                    swaps
                } else {
                    0
                }
                &&& forall|k: int|
                    0 <= k < pairs.len() ==> (#[trigger] pairs[k]).0 < before.path@.len() - 1
                        && pairs[k].1 < before.path@.len() - 1
                &&& self.is_outcome_of(
                    before,
                    #[trigger] swaps_applied(before.path@, pairs),
                    "swap_mutation"@,
                    matrix,
                )
            }
    }

    /// `self` is what the displacement leaves of `before`, or the inversion
    /// if `turned`: the outcome of moving a block that has at least 2
    /// entries, leaves at least 2 out and ends before the last entry;
    /// `before` itself where the tour has fewer than 4 points.
    pub open spec fn is_displaced_from(&self, before: &Self, matrix: Seq<u64>, turned: bool) -> bool {
        if before.path@.len() < 4 {
            self.same_as(before)
        } else {
            exists|size: int, far: int, at: int|
                2 <= size < before.path@.len() - 1 && 0 <= far < before.path@.len() - 1 && 0 <= at
                    < before.path@.len() - size - 1 && self.is_outcome_of(
                    before,
                    #[trigger] relocated(
                        before.path@,
                        at,
                        size,
                        (at + far) % (before.path@.len() - size),
                        turned,
                    ),
                    if turned {
                        "inversion_mutation"@
                    } else {
                        "displacement_mutation"@
                    },
                    matrix,
                )
        }
    }

    /// `self` is what the insertion leaves of `before`: the outcome of
    /// moving one entry to another place, both places other than the first
    /// and the last; `before` itself where the tour has fewer than 4
    /// points.
    pub open spec fn is_inserted_from(&self, before: &Self, matrix: Seq<u64>) -> bool {
        if before.path@.len() < 4 {
            self.same_as(before)
        } else {
            exists|old_pos: int, new_pos: int|
                1 <= old_pos < before.path@.len() - 1 && 1 <= new_pos < before.path@.len() - 1
                    && old_pos != new_pos && self.is_outcome_of(
                    before,
                    #[trigger] relocated(before.path@, old_pos, 1, new_pos, false),
                    "insertion_mutation"@,
                    matrix,
                )
        }
    }

    /// `self` is what the simple inversion leaves of `before`: the outcome
    /// of turning round a stretch of at least 2 entries that starts before
    /// the last three and ends before the last; `before` itself where the
    /// tour has fewer than 4 points.
    pub open spec fn is_inverted_from(&self, before: &Self, matrix: Seq<u64>) -> bool {
        if before.path@.len() < 4 {
            self.same_as(before)
        } else {
            exists|start: int, size: int|
                0 <= start < before.path@.len() - 3 && 2 <= size < before.path@.len() - start
                    && self.is_outcome_of(
                    before,
                    #[trigger] with_reversed(before.path@, start, start + size - 1),
                    "simple_inversion_mutation"@,
                    matrix,
                )
        }
    }

    /// `self` is what the greedy relocation leaves of `before`: the outcome
    /// for a block of at least 2 entries and fewer than the square root of
    /// the number of points, rounded down; `before` itself where the tour
    /// has fewer than 9 points.
    pub open spec fn is_sub_tour_moved_from(&self, before: &Self, matrix: Seq<u64>) -> bool {
        if before.path@.len() < 9 {
            self.same_as(before)
        } else {
            exists|start: int, size: int|
                0 <= start < before.path@.len() - floor_sqrt(before.path@.len()) && 2 <= size
                    < floor_sqrt(before.path@.len()) && self.is_outcome_of(
                    before,
                    #[trigger] greedy_sub_tour_path(before.path@, start, size, matrix),
                    "greedy_sub_tour_mutation"@,
                    matrix,
                )
        }
    }

    /// `self` is what the greedy insertion leaves of `before`: the outcome
    /// of putting a point, not the one with the largest index, next to one
    /// of its nearest points; `before` itself where the tour has fewer than
    /// 2 points.
    pub open spec fn is_greedily_inserted_from(&self, before: &Self, matrix: Seq<u64>) -> bool {
        if before.path@.len() < 2 {
            self.same_as(before)
        } else {
            exists|city: u16, chosen: u16, behind: bool, near: Seq<usize>|
                {
                    &&& city < before.path@.len() - 1
                    &&& #[trigger] is_nearest_list(
                        near,
                        matrix,
                        before.path@.len(),
                        city as int,
                        insertion_reach(before.path@.len()),
                        Seq::<usize>::empty(),
                    )
                    &&& near.contains(chosen as usize)
                    &&& self.is_outcome_of(
                        before,
                        #[trigger] greedy_insertion_path(before.path@, city, chosen, behind),
                        "greedy_insertion_mutation"@,
                        matrix,
                    )
                }
        }
    }

    /// `self` is what the operator of the given kind leaves of `before`.
    pub open spec fn is_mutation_by(
        &self,
        before: &Self,
        kind: MutationKind,
        matrix: Seq<u64>,
        swaps: nat,
    ) -> bool {
        match kind {
            MutationKind::Swap => self.is_swapped_from(before, matrix, swaps),
            MutationKind::Displacement => self.is_displaced_from(before, matrix, false),
            MutationKind::Insertion => self.is_inserted_from(before, matrix),
            MutationKind::SimpleInversion => self.is_inverted_from(before, matrix),
            MutationKind::Inversion => self.is_displaced_from(before, matrix, true),
            MutationKind::GreedySubTour => self.is_sub_tour_moved_from(before, matrix),
            MutationKind::GreedyInsertion => self.is_greedily_inserted_from(before, matrix),
        }
    }

    /// A chromosome that no mutation has shortened yet.
    pub fn new(path: Vec<u16>, distance: u64) -> (chromossome: Self)
        ensures
            chromossome.path == path,
            chromossome.distance == distance,
            chromossome.mutation@ == Seq::<char>::empty(),
    {
        Chromossome { path, distance, mutation: String::new() }
    }

    pub fn get_path(&self) -> (path: &Vec<u16>)
        ensures
            *path == self.path,
    {
        &self.path
    }

    pub fn get_distance(&self) -> (distance: &u64)
        ensures
            *distance == self.distance,
    {
        &self.distance
    }

    pub fn get_mutation(&self) -> (mutation: &String)
        ensures
            *mutation == self.mutation,
    {
        &self.mutation
    }

    /// Whether two chromosomes hold the same tour, length and name.
    pub fn equals(&self, other: &Self) -> (same: bool)
        ensures
            same == self.same_as(other),
    {
        if self.distance != other.distance || self.path.len() != other.path.len() {
            return false;
        }
        let mut i: usize = 0;
        while i < self.path.len()
            invariant
                i <= self.path@.len(),
                self.path@.len() == other.path@.len(),
                forall|k: int| 0 <= k < i ==> self.path@[k] == other.path@[k],
            decreases self.path@.len() - i,
        {
            if self.path[i] != other.path[i] {
                return false;
            }
            i += 1;
        }
        assert(self.path@ =~= other.path@);
        self.mutation == other.mutation
    }

    /// Takes `path` over, with its length and `mutation` as its name, where
    /// it is shorter than the present tour.
    pub fn update_distance(self, path: Vec<u16>, distance_matrix: &Vec<u64>, mutation: &str) -> (updated:
        Self)
        requires
            path@.len() <= 0x1_0000,
            is_matrix(distance_matrix@, path@.len()),
            in_range(path@, path@.len()),
        ensures
            updated.is_outcome_of(&self, path@, mutation@, distance_matrix@),
    {
        let updated_distance = calculate_path_distance(&path, distance_matrix);
        if updated_distance < self.distance {
            Chromossome { path, distance: updated_distance, mutation: mutation.to_owned() }
        } else {
            self
        }
    }

    /// Proposes the tour with the given exchanges made.
    pub fn swap_mutation_at(self, distance_matrix: &Vec<u64>, pairs: &Vec<(usize, usize)>) -> (updated:
        Self)
        requires
            self.path@.len() <= 0x1_0000,
            is_matrix(distance_matrix@, self.path@.len()),
            self.is_valid(distance_matrix@, self.path@.len()),
            forall|k: int|
                0 <= k < pairs@.len() ==> (#[trigger] pairs@[k]).0 < self.path@.len() && pairs@[k].1
                    < self.path@.len(),
        ensures
            updated.is_valid(distance_matrix@, self.path@.len()),
            updated.is_outcome_of(
                &self,
                swaps_applied(self.path@, pairs@),
                "swap_mutation"@,
                distance_matrix@,
            ),
    {
        let mut path = self.path.clone();
        let mut i: usize = 0;
        while i < pairs.len()
            invariant
                i <= pairs@.len(),
                path@.len() == self.path@.len(),
                path@ == swaps_applied(self.path@, pairs@.take(i as int)),
                path@.to_multiset() == self.path@.to_multiset(),
                forall|k: int|
                    0 <= k < pairs@.len() ==> (#[trigger] pairs@[k]).0 < self.path@.len()
                        && pairs@[k].1 < self.path@.len(),
            decreases pairs@.len() - i,
        {
            let pair = pairs[i];
            proof {
                assert(pairs@.take(i + 1).drop_last() =~= pairs@.take(i as int));
                lemma_swapped_multiset(path@, pair.0 as int, pair.1 as int);
            }
            swap_entries(&mut path, pair.0, pair.1);
            i += 1;
        }
        proof {
            assert(pairs@.take(pairs@.len() as int) =~= pairs@);
            lemma_rearranged_tour(self.path@, path@, self.path@.len());
        }
        self.update_distance(path, distance_matrix, "swap_mutation")
    }

    /// Proposes the tour after `swaps` exchanges at random positions, none
    /// of them the last.
    pub fn swap_mutation(self, distance_matrix: &Vec<u64>, swaps: usize, generator: &mut ThreadRng) -> (updated:
        Self)
        requires
            self.path@.len() <= 0x1_0000,
            is_matrix(distance_matrix@, self.path@.len()),
            self.is_valid(distance_matrix@, self.path@.len()),
        ensures
            updated.is_valid(distance_matrix@, self.path@.len()),
            updated.distance <= self.distance,
            updated.is_swapped_from(&self, distance_matrix@, swaps as nat),
    {
        let n = self.path.len();
        let mut pairs: Vec<(usize, usize)> = Vec::new();
        if n >= 2 {
            let mut i: usize = 0;
            while i < swaps
                invariant
                    n >= 2,
                    n == self.path@.len(),
                    i <= swaps,
                    pairs@.len() == i,
                    forall|k: int|
                        0 <= k < pairs@.len() ==> (#[trigger] pairs@[k]).0 < n - 1 && pairs@[k].1
                            < n - 1,
                decreases swaps - i,
            {
                let first = draw_between(generator, 0, n - 1);
                let second = draw_between(generator, 0, n - 1);
                pairs.push((first, second));
                i += 1;
            }
        }
        let ghost before = self;
        let updated = self.swap_mutation_at(distance_matrix, &pairs);
        proof {
            assert(updated.is_outcome_of(
                &before,
                swaps_applied(before.path@, pairs@),
                "swap_mutation"@,
                distance_matrix@,
            ));
        }
        updated
    }

    /// Proposes the tour with the block of `shift_size` entries at
    /// `shift_position` moved `distance2` places on in what is left, round
    /// the end where it runs past it; turned round on the way if `turned`.
    pub fn displacement_at(
        self,
        distance_matrix: &Vec<u64>,
        shift_size: usize,
        distance2: usize,
        shift_position: usize,
        turned: bool,
    ) -> (updated: Self)
        requires
            self.path@.len() <= 0x1_0000,
            is_matrix(distance_matrix@, self.path@.len()),
            self.is_valid(distance_matrix@, self.path@.len()),
            shift_position + shift_size < self.path@.len(),
            distance2 <= 0x1_0000,
        ensures
            updated.is_valid(distance_matrix@, self.path@.len()),
            updated.is_outcome_of(
                &self,
                relocated(
                    self.path@,
                    shift_position as int,
                    shift_size as int,
                    (shift_position + distance2) % (self.path@.len() - shift_size),
                    turned,
                ),
                if turned {
                    "inversion_mutation"@
                } else {
                    "displacement_mutation"@
                },
                distance_matrix@,
            ),
    {
        let n = self.path.len();
        let new_position = (shift_position + distance2) % (n - shift_size);
        proof {
            lemma_relocated_multiset(
                self.path@,
                shift_position as int,
                shift_size as int,
                new_position as int,
                turned,
            );
        }
        let path = relocate(&self.path, shift_position, shift_size, new_position, turned);
        proof {
            lemma_rearranged_tour(self.path@, path@, self.path@.len());
        }
        if turned {
            self.update_distance(path, distance_matrix, "inversion_mutation")
        } else {
            self.update_distance(path, distance_matrix, "displacement_mutation")
        }
    }

    /// Draws a block and how far to move it: the block has at least 2
    /// entries and leaves at least 2 out, and starts so that it ends before
    /// the last entry. A tour of fewer than 4 points has no such block and
    /// is left as it is.
    fn displacement_drawn(
        self,
        distance_matrix: &Vec<u64>,
        generator: &mut ThreadRng,
        turned: bool,
    ) -> (updated: Self)
        requires
            self.path@.len() <= 0x1_0000,
            is_matrix(distance_matrix@, self.path@.len()),
            self.is_valid(distance_matrix@, self.path@.len()),
        ensures
            updated.is_valid(distance_matrix@, self.path@.len()),
            updated.distance <= self.distance,
            updated.is_displaced_from(&self, distance_matrix@, turned),
    {
        let n = self.path.len();
        if n < 4 {
            return self;
        }
        let shift_size = draw_between(generator, 2, n - 1);
        let distance2 = draw_between(generator, 0, n - 1);
        let shift_position = draw_between(generator, 0, n - shift_size - 1);
        self.displacement_at(distance_matrix, shift_size, distance2, shift_position, turned)
    }

    /// Proposes the tour with a block drawn at random moved elsewhere.
    pub fn displacement_mutation(self, distance_matrix: &Vec<u64>, generator: &mut ThreadRng) -> (updated:
        Self)
        requires
            self.path@.len() <= 0x1_0000,
            is_matrix(distance_matrix@, self.path@.len()),
            self.is_valid(distance_matrix@, self.path@.len()),
        ensures
            updated.is_valid(distance_matrix@, self.path@.len()),
            updated.distance <= self.distance,
            updated.is_displaced_from(&self, distance_matrix@, false),
    {
        self.displacement_drawn(distance_matrix, generator, false)
    }

    /// Proposes the tour with a block drawn at random turned round and
    /// moved elsewhere.
    pub fn inversion_mutation(self, distance_matrix: &Vec<u64>, generator: &mut ThreadRng) -> (updated:
        Self)
        requires
            self.path@.len() <= 0x1_0000,
            is_matrix(distance_matrix@, self.path@.len()),
            self.is_valid(distance_matrix@, self.path@.len()),
        ensures
            updated.is_valid(distance_matrix@, self.path@.len()),
            updated.distance <= self.distance,
            updated.is_displaced_from(&self, distance_matrix@, true),
    {
        self.displacement_drawn(distance_matrix, generator, true)
    }

    /// Proposes the tour with the entry at `old_pos` moved to `new_pos`.
    pub fn insertion_mutation_at(self, distance_matrix: &Vec<u64>, old_pos: usize, new_pos: usize) -> (updated:
        Self)
        requires
            self.path@.len() <= 0x1_0000,
            is_matrix(distance_matrix@, self.path@.len()),
            self.is_valid(distance_matrix@, self.path@.len()),
            old_pos < self.path@.len(),
            new_pos < self.path@.len(),
        ensures
            updated.is_valid(distance_matrix@, self.path@.len()),
            updated.is_outcome_of(
                &self,
                relocated(self.path@, old_pos as int, 1, new_pos as int, false),
                "insertion_mutation"@,
                distance_matrix@,
            ),
    {
        proof {
            lemma_relocated_multiset(self.path@, old_pos as int, 1, new_pos as int, false);
        }
        let path = relocate(&self.path, old_pos, 1, new_pos, false);
        proof {
            lemma_rearranged_tour(self.path@, path@, self.path@.len());
        }
        self.update_distance(path, distance_matrix, "insertion_mutation")
    }

    /// Proposes the tour with one entry moved to another place, both drawn
    /// at random among the places other than the first and the last. A
    /// tour of fewer than 4 points is left as it is.
    pub fn insertion_mutation(self, distance_matrix: &Vec<u64>, generator: &mut ThreadRng) -> (updated:
        Self)
        requires
            self.path@.len() <= 0x1_0000,
            is_matrix(distance_matrix@, self.path@.len()),
            self.is_valid(distance_matrix@, self.path@.len()),
        ensures
            updated.is_valid(distance_matrix@, self.path@.len()),
            updated.distance <= self.distance,
            updated.is_inserted_from(&self, distance_matrix@),
    {
        let n = self.path.len();
        if n < 4 {
            return self;
        }
        let old_pos = draw_between(generator, 1, n - 1);
        let other = draw_between(generator, 1, n - 2);
        let new_pos = if other >= old_pos {
            other + 1
        } else {
            other
        };
        self.insertion_mutation_at(distance_matrix, old_pos, new_pos)
    }

    /// Proposes the tour with the `size` entries from `start` on turned
    /// round.
    pub fn simple_inversion_mutation_at(
        self,
        distance_matrix: &Vec<u64>,
        start: usize,
        size: usize,
    ) -> (updated: Self)
        requires
            self.path@.len() <= 0x1_0000,
            is_matrix(distance_matrix@, self.path@.len()),
            self.is_valid(distance_matrix@, self.path@.len()),
            1 <= size,
            start + size <= self.path@.len(),
        ensures
            updated.is_valid(distance_matrix@, self.path@.len()),
            updated.is_outcome_of(
                &self,
                with_reversed(self.path@, start as int, start + size - 1),
                "simple_inversion_mutation"@,
                distance_matrix@,
            ),
    {
        let mut path = self.path.clone();
        reverse_range(&mut path, start, start + size - 1);
        proof {
            lemma_with_reversed_multiset(self.path@, start as int, start + size - 1);
            lemma_rearranged_tour(self.path@, path@, self.path@.len());
        }
        self.update_distance(path, distance_matrix, "simple_inversion_mutation")
    }

    /// Proposes the tour with a stretch of at least 2 entries, drawn at
    /// random, turned round. A tour of fewer than 4 points is left as it
    /// is.
    pub fn simple_inversion_mutation(self, distance_matrix: &Vec<u64>, generator: &mut ThreadRng) -> (updated:
        Self)
        requires
            self.path@.len() <= 0x1_0000,
            is_matrix(distance_matrix@, self.path@.len()),
            self.is_valid(distance_matrix@, self.path@.len()),
        ensures
            updated.is_valid(distance_matrix@, self.path@.len()),
            updated.distance <= self.distance,
            updated.is_inverted_from(&self, distance_matrix@),
    {
        let n = self.path.len();
        if n < 4 {
            return self;
        }
        let start = draw_between(generator, 0, n - 3);
        let size = draw_between(generator, 2, n - start);
        self.simple_inversion_mutation_at(distance_matrix, start, size)
    }
}

/// What is left of a tour once a block is taken out: the other points, once
/// each.
pub proof fn lemma_block_and_rest(path: Seq<u16>, n: nat, start: int, size: int)
    requires
        is_tour(path, n),
        0 <= start,
        0 <= size,
        start + size <= n,
    ensures
        ({
            let block = path.subrange(start, start + size);
            let rest = path.subrange(0, start) + path.subrange(start + size, n as int);
            &&& rest.no_duplicates()
            &&& rest.len() == n - size
            &&& forall|k: int| 0 <= k < rest.len() ==> (#[trigger] rest[k]) < n && !block.contains(rest[k])
            &&& forall|c: u16| c < n && !block.contains(c) ==> #[trigger] rest.contains(c)
            &&& forall|x: usize| #[trigger]
                as_indices(block).contains(x) ==> x < n && block.contains(x as u16)
            &&& forall|c: u16| block.contains(c) ==> #[trigger] as_indices(block).contains(c as usize)
        }),
{
    let block = path.subrange(start, start + size);
    let rest = path.subrange(0, start) + path.subrange(start + size, n as int);
    assert forall|k: int| 0 <= k < rest.len() implies (#[trigger] rest[k]) < n && !block.contains(
        rest[k],
    ) by {
        let from = if k < start {
            k
        } else {
            k + size
        };
        assert(rest[k] == path[from]);
        if block.contains(rest[k]) {
            let w = choose|w: int| 0 <= w < block.len() && block[w] == rest[k];
            assert(path[start + w] == path[from]);
        }
    }
    assert forall|i: int, j: int| 0 <= i < rest.len() && 0 <= j < rest.len() && i != j implies rest[i]
        != rest[j] by {
        let from_i = if i < start {
            i
        } else {
            i + size
        };
        let from_j = if j < start {
            j
        } else {
            j + size
        };
        assert(rest[i] == path[from_i] && rest[j] == path[from_j]);
    }
    assert forall|c: u16| c < n && !block.contains(c) implies #[trigger] rest.contains(c) by {
        lemma_full_tour_contains(path, n, c);
        let w = choose|w: int| 0 <= w < path.len() && path[w] == c;
        if w < start {
            assert(rest[w] == c);
        } else if w < start + size {
            assert(block[w - start] == c);
        } else {
            assert(rest[w - size] == c);
        }
    }
    assert forall|x: usize| #[trigger] as_indices(block).contains(x) implies x < n && block.contains(
        x as u16,
    ) by {
        let w = choose|w: int| 0 <= w < as_indices(block).len() && as_indices(block)[w] == x;
        assert(block[w] as usize == x);
        assert(path[start + w] < n);
    }
    assert forall|c: u16| block.contains(c) implies #[trigger] as_indices(block).contains(
        c as usize,
    ) by {
        let w = choose|w: int| 0 <= w < block.len() && block[w] == c;
        assert(as_indices(block)[w] == c as usize);
    }
}

impl Chromossome {
    /// Proposes the tour with the block of `size` entries at `start` put
    /// next to the point nearest to one of its ends.
    pub fn greedy_sub_tour_mutation_at(
        self,
        distance_matrix: &Vec<u64>,
        start: usize,
        size: usize,
    ) -> (updated: Self)
        requires
            self.path@.len() <= 0x1_0000,
            is_matrix(distance_matrix@, self.path@.len()),
            self.is_valid(distance_matrix@, self.path@.len()),
            1 <= size,
            start + size < self.path@.len(),
        ensures
            updated.is_valid(distance_matrix@, self.path@.len()),
            updated.is_outcome_of(
                &self,
                greedy_sub_tour_path(self.path@, start as int, size as int, distance_matrix@),
                "greedy_sub_tour_mutation"@,
                distance_matrix@,
            ),
    {
        let n = self.path.len();
        let ghost before = self.path@;
        let ghost matrix = distance_matrix@;
        let sub_tour = slice_of(&self.path, start, start + size);
        let head = slice_of(&self.path, 0, start);
        let tail = slice_of(&self.path, start + size, n);
        let rest = joined(&head, &tail);
        let mut sub_tour_usize: Vec<usize> = Vec::with_capacity(size);
        let mut k: usize = 0;
        while k < size
            invariant
                k <= size,
                sub_tour@.len() == size,
                sub_tour_usize@.len() == k,
                forall|w: int| 0 <= w < k ==> sub_tour_usize@[w] == sub_tour@[w] as usize,
            decreases size - k,
        {
            sub_tour_usize.push(sub_tour[k] as usize);
            k += 1;
        }
        proof {
            assert(sub_tour_usize@ =~= as_indices(sub_tour@));
            lemma_block_and_rest(before, n as nat, start as int, size as int);
            assert(before[start as int] < n && before[start + size - 1] < n);
            assert(sub_tour@[0] == before[start as int]);
            assert(sub_tour@[size - 1] == before[start + size - 1]);
            assert(sub_tour@.contains(sub_tour@[0]));
            assert(sub_tour@.contains(sub_tour@[size - 1]));
            assert(rest@.contains(rest@[0]));
            assert(is_candidate(rest@[0] as int, sub_tour@[0] as int, n as nat, sub_tour_usize@));
            assert(is_candidate(
                rest@[0] as int,
                sub_tour@[size - 1] as int,
                n as nat,
                sub_tour_usize@,
            ));
        }
        let first_best = find_best_neighbour(
            distance_matrix,
            sub_tour[0] as usize,
            n,
            &sub_tour_usize,
        );
        let second_best = find_best_neighbour(
            distance_matrix,
            sub_tour[size - 1] as usize,
            n,
            &sub_tour_usize,
        );
        proof {
            assert(!sub_tour@.contains(first_best as u16));
            assert(!sub_tour@.contains(second_best as u16));
        }
        let first_i = position_of(&rest, first_best as u16);
        let second_i = position_of(&rest, second_best as u16);
        proof {
            lemma_place(rest@, first_best as u16, first_i as int);
            lemma_place(rest@, second_best as u16, second_i as int);
            lemma_relocated_multiset(before, start as int, size as int, first_i + 1, false);
            lemma_relocated_multiset(before, start as int, size as int, second_i as int, false);
            lemma_rearranged_tour(
                before,
                relocated(before, start as int, size as int, first_i + 1, false),
                n as nat,
            );
            lemma_rearranged_tour(
                before,
                relocated(before, start as int, size as int, second_i as int, false),
                n as nat,
            );
        }
        let first_path = relocate(&self.path, start, size, first_i + 1, false);
        let path = if first_i + 1 != second_i {
            let second_path = relocate(&self.path, start, size, second_i, false);
            let first_path_distance = calculate_path_distance(&first_path, distance_matrix);
            let second_path_distance = calculate_path_distance(&second_path, distance_matrix);
            if second_path_distance < first_path_distance {
                second_path
            } else {
                first_path
            }
        } else {
            first_path
        };
        self.update_distance(path, distance_matrix, "greedy_sub_tour_mutation")
    }

    /// Proposes the greedy relocation of a block drawn at random: of at
    /// least 2 entries and fewer than the square root of the number of
    /// points, rounded down. A tour of fewer than 9 points has no such
    /// block and is left as it is.
    pub fn greedy_sub_tour_mutation(self, distance_matrix: &Vec<u64>, generator: &mut ThreadRng) -> (updated:
        Self)
        requires
            self.path@.len() <= 0x1_0000,
            is_matrix(distance_matrix@, self.path@.len()),
            self.is_valid(distance_matrix@, self.path@.len()),
        ensures
            updated.is_valid(distance_matrix@, self.path@.len()),
            updated.distance <= self.distance,
            updated.is_sub_tour_moved_from(&self, distance_matrix@),
    {
        let n = self.path.len();
        if n < 9 {
            return self;
        }
        let root = integer_sqrt(n as u128);
        proof {
            lemma_floor_sqrt_exists(n as nat);
            let r = floor_sqrt(n as nat);
            assert(3 <= r < n) by (nonlinear_arith)
                requires
                    r * r <= n < (r + 1) * (r + 1),
                    n >= 9,
            ;
        }
        let max_sub_tour = root as usize;
        let start = draw_between(generator, 0, n - max_sub_tour);
        let size = draw_between(generator, 2, max_sub_tour);
        self.greedy_sub_tour_mutation_at(distance_matrix, start, size)
    }

    /// Proposes the tour with `city` put next to `chosen`.
    pub fn greedy_insertion_mutation_at(
        self,
        distance_matrix: &Vec<u64>,
        city: u16,
        chosen: u16,
        behind: bool,
    ) -> (updated: Self)
        requires
            self.path@.len() <= 0x1_0000,
            is_matrix(distance_matrix@, self.path@.len()),
            self.is_valid(distance_matrix@, self.path@.len()),
            city < self.path@.len(),
            chosen < self.path@.len(),
            city != chosen,
        ensures
            updated.is_valid(distance_matrix@, self.path@.len()),
            updated.is_outcome_of(
                &self,
                greedy_insertion_path(self.path@, city, chosen, behind),
                "greedy_insertion_mutation"@,
                distance_matrix@,
            ),
    {
        let n = self.path.len();
        let ghost before = self.path@;
        proof {
            lemma_full_tour_contains(before, n as nat, city);
        }
        let at = position_of(&self.path, city);
        let head = slice_of(&self.path, 0, at);
        let tail = slice_of(&self.path, at + 1, n);
        let rest = joined(&head, &tail);
        proof {
            lemma_place(before, city, at as int);
            lemma_block_and_rest(before, n as nat, at as int, 1);
            assert(rest@ =~= before.remove(at as int));
            let block = before.subrange(at as int, at + 1);
            if block.contains(chosen) {
                let w = choose|w: int| 0 <= w < block.len() && block[w] == chosen;
                assert(block[w] == before[at + w]);
            }
            assert(rest@.contains(chosen));
        }
        let chosen_i = position_of(&rest, chosen);
        let to = if behind {
            chosen_i + 1
        } else {
            chosen_i
        };
        proof {
            lemma_place(rest@, chosen, chosen_i as int);
            lemma_relocated_multiset(before, at as int, 1, to as int, false);
        }
        let path = relocate(&self.path, at, 1, to, false);
        proof {
            lemma_rearranged_tour(before, path@, n as nat);
        }
        self.update_distance(path, distance_matrix, "greedy_insertion_mutation")
    }

    /// Proposes the tour with a point drawn at random, not the one with the
    /// largest index, put next to one of its nearest points: one drawn from
    /// as many of them as the square root of the number of points, rounded
    /// down, and 5 at least.
    pub fn greedy_insertion_mutation(self, distance_matrix: &Vec<u64>, generator: &mut ThreadRng) -> (updated:
        Self)
        requires
            self.path@.len() <= 0x1_0000,
            is_matrix(distance_matrix@, self.path@.len()),
            self.is_valid(distance_matrix@, self.path@.len()),
        ensures
            updated.is_valid(distance_matrix@, self.path@.len()),
            updated.distance <= self.distance,
            updated.is_greedily_inserted_from(&self, distance_matrix@),
    {
        let n = self.path.len();
        if n < 2 {
            return self;
        }
        let root = integer_sqrt(n as u128);
        proof {
            lemma_floor_sqrt_exists(n as nat);
            let r = floor_sqrt(n as nat);
            assert(r <= n) by (nonlinear_arith)
                requires
                    r * r <= n,
            ;
        }
        let max_neighbour = root as usize;
        let size = if max_neighbour < 5 {
            5
        } else {
            max_neighbour
        };
        let city = draw_between(generator, 0, n - 1);
        let near_neighbours = find_n_best_neighbours(distance_matrix, city, n, size);
        proof {
            let other: int = if city == 0 {
                1
            } else {
                0
            };
            assert(is_candidate(other, city as int, n as nat, Seq::<usize>::empty()));
        }
        let chosen = choose_one(generator, &near_neighbours);
        proof {
            let p = choose|p: int| 0 <= p < near_neighbours@.len() && near_neighbours@[p] == chosen;
            assert(is_candidate(
                near_neighbours@[p] as int,
                city as int,
                n as nat,
                Seq::<usize>::empty(),
            ));
        }
        let behind = toss(generator);
        let ghost before = self;
        let updated = self.greedy_insertion_mutation_at(
            distance_matrix,
            city as u16,
            chosen as u16,
            behind,
        );
        proof {
            assert(near_neighbours@.contains((chosen as u16) as usize));
            assert(size as nat == insertion_reach(n as nat));
            assert(is_nearest_list(
                near_neighbours@,
                distance_matrix@,
                before.path@.len(),
                (city as u16) as int,
                insertion_reach(before.path@.len()),
                Seq::<usize>::empty(),
            ));
            assert(updated.is_outcome_of(
                &before,
                greedy_insertion_path(before.path@, city as u16, chosen as u16, behind),
                "greedy_insertion_mutation"@,
                distance_matrix@,
            ));
        }
        updated
    }

    /// Applies the mutation operator that a draw from 0 to 99 selects. The
    /// outcome is the tour as it was, or the shorter tour that the operator
    /// proposed.
    pub fn mutate(self, distance_matrix: &Vec<u64>, swaps: usize, generator: &mut ThreadRng) -> (updated:
        Self)
        requires
            self.path@.len() <= 0x1_0000,
            is_matrix(distance_matrix@, self.path@.len()),
            self.is_valid(distance_matrix@, self.path@.len()),
        ensures
            updated.is_valid(distance_matrix@, self.path@.len()),
            updated.distance <= self.distance,
            updated.distance == self.distance ==> updated.same_as(&self),
            exists|draw: int|
                0 <= draw < 100 && #[trigger] updated.is_mutation_by(
                    &self,
                    kind_for(draw),
                    distance_matrix@,
                    swaps as nat,
                ),
    {
        let prob = draw_between(generator, 0, 100);
        let ghost before = self;
        let updated = match mutation_for(prob) {
            MutationKind::Swap => self.swap_mutation(distance_matrix, swaps, generator),
            MutationKind::Displacement => self.displacement_mutation(distance_matrix, generator),
            MutationKind::Insertion => self.insertion_mutation(distance_matrix, generator),
            MutationKind::SimpleInversion => self.simple_inversion_mutation(
                distance_matrix,
                generator,
            ),
            MutationKind::Inversion => self.inversion_mutation(distance_matrix, generator),
            MutationKind::GreedySubTour => self.greedy_sub_tour_mutation(
                distance_matrix,
                generator,
            ),
            MutationKind::GreedyInsertion => self.greedy_insertion_mutation(
                distance_matrix,
                generator,
            ),
        };
        proof {
            assert(updated.is_mutation_by(
                &before,
                kind_for(prob as int),
                distance_matrix@,
                swaps as nat,
            ));
        }
        updated
    }
}

} // verus!
