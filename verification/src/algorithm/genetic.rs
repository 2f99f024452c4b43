//! The genetic engine: a population of tours, kept by steady-state
//! replacement of the longest tour by children that are shorter, with the
//! intensity of mutation adapted to how the search fares.

use rand::rngs::ThreadRng;
use vstd::prelude::*;
use vstd::seq_lib::*;

use super::algorithm::{clock_elapsed, clock_now, is_instance, Algorithm, ExecuteResponse};
use super::chromossome::Chromossome;
use crate::chance::{draw_between, shuffle, thread_generator, total_weight, weighted_index};
use crate::distance::{create_distance_matrix, get_in_matrix};
use crate::length::lemma_edge_bounds;
use crate::length::{calculate_path_distance, in_range};
use crate::models::city::City;
use crate::moves::{joined, lemma_swapped_multiset, swap_entries, swapped, turned_round};
use crate::greedy::{follows_nearest, grow_greedy_tour, is_greedy_path};
use crate::select::{
    lemma_completed, lemma_concat_counts, lemma_equal_losses, lemma_no_longer_than_cover,
    lemma_picked, lemma_reordered, lemma_stretch_partial, lemma_tour_by_cover, membership, pick,
    picked,
};
use crate::tour::{
    identity, is_partial_tour, is_tour, lemma_full_tour_contains, lemma_place,
    lemma_rearranged_tour, place, position_of, slice_of,
};

verus! {

/// The child of the order crossover: the stretch of the first parent from
/// `start` up to `end` stays where it is; the other points follow in the
/// order of the second parent, first to the right of the stretch and then,
/// from the stretch backwards, to its left.
pub open spec fn order_child(lead: Seq<u16>, mate: Seq<u16>, start: int, end: int) -> Seq<u16> {
    let n = lead.len() as int;
    let stretch = lead.subrange(start, end);
    let rest = picked(mate, stretch, false);
    rest.subrange(n - end, rest.len() as int).reverse() + stretch + rest.subrange(0, n - end)
}

/// The child of the order-based crossover: the first parent, with the
/// points of its stretch from `start` up to `end` put in the order that
/// they have in the second parent.
pub open spec fn order_based_child(lead: Seq<u16>, mate: Seq<u16>, start: int, end: int) -> Seq<u16> {
    let stretch = lead.subrange(start, end);
    lead.subrange(0, start) + picked(mate, stretch, true) + lead.subrange(end, lead.len() as int)
}

/// The child of the maximal-preservative crossover: the stretch of the
/// first parent from `start` up to `end`, followed by the other points in
/// the order of the second parent.
pub open spec fn maximal_preservative_child(lead: Seq<u16>, mate: Seq<u16>, start: int, end: int) -> Seq<
    u16,
> {
    let stretch = lead.subrange(start, end);
    stretch + picked(mate, stretch, false)
}

/// The child of the alternating-position crossover after `k` positions:
/// the points of the parents in turn, each where it first occurs.
pub open spec fn alternated(lead: Seq<u16>, mate: Seq<u16>, k: int) -> Seq<u16>
    decreases k,
{
    if k <= 0 {
        Seq::empty()
    } else {
        let so_far = alternated(lead, mate, k - 1);
        let with_first = if so_far.contains(lead[k - 1]) {
            so_far
        } else {
            so_far.push(lead[k - 1])
        };
        if with_first.contains(mate[k - 1]) {
            with_first
        } else {
            with_first.push(mate[k - 1])
        }
    }
}

/// The child of the position-based crossover: at each of the given
/// positions in turn, the point that the second parent has there is
/// brought there by an exchange.
pub open spec fn positions_taken(lead: Seq<u16>, mate: Seq<u16>, positions: Seq<usize>) -> Seq<u16>
    decreases positions.len(),
{
    if positions.len() == 0 {
        lead
    } else {
        let so_far = positions_taken(lead, mate, positions.drop_last());
        let i = positions.last() as int;
        swapped(so_far, i, place(so_far, mate[i]))
    }
}

/// Whether position `i` lies outside the stretch and holds, in the first
/// parent, a point that the stretch receives from the second parent.
pub open spec fn is_displaced(lead: Seq<u16>, mate: Seq<u16>, start: int, end: int, i: int) -> bool {
    !(start <= i < end) && mate.subrange(start, end).contains(lead[i])
}

/// How many positions before `i` are displaced.
pub open spec fn used_before(lead: Seq<u16>, mate: Seq<u16>, start: int, end: int, i: int) -> int
    decreases i,
{
    if i <= 0 {
        0
    } else {
        used_before(lead, mate, start, end, i - 1) + if is_displaced(lead, mate, start, end, i - 1) {
            1int
        } else {
            0int
        }
    }
}

/// The points of the first parent at the displaced positions before `i`.
pub open spec fn displaced_before(lead: Seq<u16>, mate: Seq<u16>, start: int, end: int, i: int) -> Seq<
    u16,
>
    decreases i,
{
    if i <= 0 {
        Seq::empty()
    } else if is_displaced(lead, mate, start, end, i - 1) {
        displaced_before(lead, mate, start, end, i - 1).push(lead[i - 1])
    } else {
        displaced_before(lead, mate, start, end, i - 1)
    }
}

/// The child of the partially-mapped crossover: the stretch from `start`
/// up to `end` comes from the second parent; elsewhere the child has the
/// points of the first parent, but where such a point has come in with the
/// stretch, the next of the points that the stretch has driven out.
pub open spec fn partially_mapped_child(lead: Seq<u16>, mate: Seq<u16>, start: int, end: int) -> Seq<
    u16,
> {
    let lost = picked(lead.subrange(start, end), mate.subrange(start, end), false);
    Seq::new(
        lead.len(),
        |i: int|
            if start <= i < end {
                mate[i]
            } else if is_displaced(lead, mate, start, end, i) {
                lost[used_before(lead, mate, start, end, i)]
            } else {
                lead[i]
            },
    )
}

/// The displaced positions before `i` hold different points, all of them
/// brought in by the stretch and none of them driven out by it; so there
/// are no more of them than points driven out.
pub proof fn lemma_displaced(lead: Seq<u16>, mate: Seq<u16>, n: nat, start: int, end: int, i: int)
    requires
        is_tour(lead, n),
        is_tour(mate, n),
        0 <= start <= end <= n,
        0 <= i <= n,
    ensures
        displaced_before(lead, mate, start, end, i).len() == used_before(lead, mate, start, end, i),
        displaced_before(lead, mate, start, end, i).no_duplicates(),
        forall|k: int|
            0 <= k < displaced_before(lead, mate, start, end, i).len() ==> {
                let x = #[trigger] displaced_before(lead, mate, start, end, i)[k];
                &&& mate.subrange(start, end).contains(x)
                &&& !lead.subrange(start, end).contains(x)
                &&& exists|j: int| 0 <= j < i && lead[j] == x
            },
        0 <= used_before(lead, mate, start, end, i) <= picked(
            lead.subrange(start, end),
            mate.subrange(start, end),
            false,
        ).len(),
    decreases i,
{
    let initial = lead.subrange(start, end);
    let replace = mate.subrange(start, end);
    let all = displaced_before(lead, mate, start, end, i);
    if i > 0 {
        lemma_displaced(lead, mate, n, start, end, i - 1);
        let front = displaced_before(lead, mate, start, end, i - 1);
        if is_displaced(lead, mate, start, end, i - 1) {
            let x = lead[i - 1];
            if initial.contains(x) {
                let w = choose|w: int| 0 <= w < initial.len() && initial[w] == x;
                assert(lead[start + w] == lead[i - 1]);
            }
            assert forall|k: int| 0 <= k < all.len() implies {
                let y = #[trigger] all[k];
                &&& replace.contains(y)
                &&& !initial.contains(y)
                &&& exists|j: int| 0 <= j < i && lead[j] == y
            } by {
                if k < front.len() {
                    let y = front[k];
                    let j = choose|j: int| 0 <= j < i - 1 && lead[j] == y;
                    assert(0 <= j < i && lead[j] == y);
                } else {
                    assert(0 <= i - 1 < i && lead[i - 1] == all[k]);
                }
            }
            assert forall|a: int, b: int| 0 <= a < all.len() && 0 <= b < all.len() && a
                != b implies all[a] != all[b] by {
                if a < front.len() && b < front.len() {
                    assert(front[a] != front[b]);
                } else if a < front.len() {
                    let y = front[a];
                    let j = choose|j: int| 0 <= j < i - 1 && lead[j] == y;
                    assert(lead[j] != lead[i - 1]);
                } else {
                    let y = front[b];
                    let j = choose|j: int| 0 <= j < i - 1 && lead[j] == y;
                    assert(lead[j] != lead[i - 1]);
                }
            }
        } else {
            assert forall|k: int| 0 <= k < all.len() implies {
                let y = #[trigger] all[k];
                &&& replace.contains(y)
                &&& !initial.contains(y)
                &&& exists|j: int| 0 <= j < i && lead[j] == y
            } by {
                let y = front[k];
                let j = choose|j: int| 0 <= j < i - 1 && lead[j] == y;
                assert(0 <= j < i && lead[j] == y);
            }
        }
    }
    lemma_stretch_partial(lead, n, start, end);
    lemma_stretch_partial(mate, n, start, end);
    lemma_equal_losses(initial, replace);
    lemma_picked(replace, initial, false);
    let gained = picked(replace, initial, false);
    assert forall|k: int| 0 <= k < all.len() implies gained.contains(#[trigger] all[k]) by {
        let y = all[k];
        assert(replace.contains(y) && !initial.contains(y));
    }
    lemma_no_longer_than_cover(all, gained);
}

/// Later positions have used up at least as many of the points driven out,
/// and more once a displaced position lies between.
pub proof fn lemma_used_before_grows(
    lead: Seq<u16>,
    mate: Seq<u16>,
    start: int,
    end: int,
    a: int,
    b: int,
)
    requires
        0 <= a <= b,
    ensures
        used_before(lead, mate, start, end, a) <= used_before(lead, mate, start, end, b),
        a < b && is_displaced(lead, mate, start, end, a) ==> used_before(lead, mate, start, end, a)
            < used_before(lead, mate, start, end, b),
    decreases b - a,
{
    if a < b {
        lemma_used_before_grows(lead, mate, start, end, a, b - 1);
    }
}

/// The child of the partially-mapped crossover is a tour.
pub proof fn lemma_partially_mapped_child(lead: Seq<u16>, mate: Seq<u16>, n: nat, start: int, end: int)
    requires
        is_tour(lead, n),
        is_tour(mate, n),
        0 <= start <= end <= n,
    ensures
        is_tour(partially_mapped_child(lead, mate, start, end), n),
{
    let child = partially_mapped_child(lead, mate, start, end);
    let initial = lead.subrange(start, end);
    let replace = mate.subrange(start, end);
    let lost = picked(initial, replace, false);
    lemma_picked(initial, replace, false);
    lemma_stretch_partial(lead, n, start, end);
    lemma_stretch_partial(mate, n, start, end);
    assert forall|i: int| 0 <= i < n implies {
        &&& (start <= i < end ==> replace.contains(#[trigger] child[i]))
        &&& (is_displaced(lead, mate, start, end, i) ==> lost.contains(child[i]) && initial.contains(
            child[i],
        ) && !replace.contains(child[i]) && child[i] == lost[used_before(lead, mate, start, end, i)]
            && 0 <= used_before(lead, mate, start, end, i) < lost.len())
        &&& (!(start <= i < end) && !is_displaced(lead, mate, start, end, i) ==> child[i] == lead[i]
            && !replace.contains(child[i]) && !initial.contains(child[i]))
        &&& child[i] < n
    } by {
        if start <= i < end {
            assert(replace[i - start] == mate[i]);
        } else if is_displaced(lead, mate, start, end, i) {
            lemma_displaced(lead, mate, n, start, end, i + 1);
            let u = used_before(lead, mate, start, end, i);
            lemma_displaced(lead, mate, n, start, end, i);
            assert(0 <= u < lost.len());
            assert(lost.contains(lost[u]));
            let w = choose|w: int| 0 <= w < initial.len() && initial[w] == lost[u];
            assert(initial[w] < n);
        } else {
            if initial.contains(lead[i]) {
                let w = choose|w: int| 0 <= w < initial.len() && initial[w] == lead[i];
                assert(lead[start + w] == lead[i]);
            }
        }
    }
    assert forall|a: int, b: int| 0 <= a < child.len() && 0 <= b < child.len() && a
        != b implies child[a] != child[b] by {
        let in_a = start <= a < end;
        let in_b = start <= b < end;
        let dis_a = is_displaced(lead, mate, start, end, a);
        let dis_b = is_displaced(lead, mate, start, end, b);
        if in_a && in_b {
            assert(mate[a] != mate[b]);
        } else if dis_a && dis_b {
            if a < b {
                lemma_used_before_grows(lead, mate, start, end, a, b);
            } else {
                lemma_used_before_grows(lead, mate, start, end, b, a);
            }
        } else if !in_a && !dis_a && !in_b && !dis_b {
            assert(lead[a] != lead[b]);
        } else {
            assert(replace.contains(child[a]) != replace.contains(child[b]) || initial.contains(
                child[a],
            ) != initial.contains(child[b]));
        }
    }
}

/// What a path holds once an entry is added at its end.
pub proof fn lemma_push_contains(path: Seq<u16>, city: u16)
    ensures
        forall|c: u16| #[trigger] path.push(city).contains(c) <==> path.contains(c) || c == city,
        path.no_duplicates() && !path.contains(city) ==> path.push(city).no_duplicates(),
{
    let longer = path.push(city);
    assert forall|c: u16| #[trigger] longer.contains(c) <==> path.contains(c) || c == city by {
        if longer.contains(c) {
            let k = choose|k: int| 0 <= k < longer.len() && longer[k] == c;
            if k < path.len() {
                assert(path[k] == c);
            }
        }
        if path.contains(c) {
            let k = choose|k: int| 0 <= k < path.len() && path[k] == c;
            assert(longer[k] == c);
        }
        if c == city {
            assert(longer[path.len() as int] == c);
        }
    }
    if path.no_duplicates() && !path.contains(city) {
        assert forall|i: int, j: int| 0 <= i < longer.len() && 0 <= j < longer.len() && i
            != j implies longer[i] != longer[j] by {
            if i < path.len() && j < path.len() {
            } else if i < path.len() {
                assert(path.contains(path[i]));
            } else {
                assert(path.contains(path[j]));
            }
        }
    }
}

/// Adds `city` at the end of `path` unless the path holds it, and keeps
/// the marks of the points held in step.
pub fn push_unseen(path: &mut Vec<u16>, seen: &mut Vec<bool>, city: u16)
    requires
        city < old(seen)@.len(),
        old(seen)@.len() <= 0x1_0000,
        old(path)@.no_duplicates(),
        forall|c: int|
            0 <= c < old(seen)@.len() ==> #[trigger] old(seen)@[c] == old(path)@.contains(c as u16),
    ensures
        final(path)@ == if old(path)@.contains(city) {
            old(path)@
        } else {
            old(path)@.push(city)
        },
        final(path)@.no_duplicates(),
        final(seen)@.len() == old(seen)@.len(),
        forall|c: int|
            0 <= c < final(seen)@.len() ==> #[trigger] final(seen)@[c] == final(path)@.contains(
                c as u16,
            ),
{
    if !seen[city as usize] {
        proof {
            lemma_push_contains(path@, city);
        }
        path.push(city);
        seen.set(city as usize, true);
    }
}

/// `format!` of the figures of a run. Nothing is claimed of the text.
#[verifier::external_body]
fn describe_run(
    population_size: usize,
    generations: u32,
    crossover: &String,
    mutations: &Vec<String>,
) -> (text: String) {
    format!(
        "Population Size: {}\nGenerations: {}\nCrossover: {}\nMutations: {:?}\n",
        population_size, generations, crossover, mutations
    )
}

/// The chromosome at `at` is the longest of the population, the last where
/// several are as long.
pub open spec fn is_longest_at(population: Seq<Chromossome>, at: int) -> bool {
    &&& 0 <= at < population.len()
    &&& forall|j: int|
        0 <= j < population.len() ==> population[at].distance >= (#[trigger] population[j]).distance
    &&& forall|j: int|
        at < j < population.len() ==> population[at].distance > (#[trigger] population[j]).distance
}

/// The chromosome at `at` is the first of the population that equals
/// `target`.
pub open spec fn is_first_like(population: Seq<Chromossome>, at: int, target: Chromossome) -> bool {
    &&& 0 <= at < population.len()
    &&& target.same_as(&population[at])
    &&& forall|j: int| 0 <= j < at ==> !target.same_as(&#[trigger] population[j])
}

/// The population holds a chromosome equal to `target`.
pub open spec fn is_member(population: Seq<Chromossome>, target: Chromossome) -> bool {
    exists|j: int| 0 <= j < population.len() && target.same_as(&#[trigger] population[j])
}

/// `after` is what offering `child` makes of the population `before`:
/// where the child is shorter than the longest chromosome, it takes the
/// place of the first chromosome equal to that one and stands last;
/// otherwise nothing changes. `replaced` tells which.
pub open spec fn is_offer_outcome(
    after: Seq<Chromossome>,
    before: Seq<Chromossome>,
    child: Chromossome,
    replaced: bool,
) -> bool {
    exists|worst: int|
        {
            &&& #[trigger] is_longest_at(before, worst)
            &&& replaced == (child.distance < before[worst].distance)
            &&& if replaced {
                takes_place_of(after, before, child, before[worst])
            } else {
                after == before
            }
        }
}

/// `after` is the population `before` without the first chromosome equal
/// to `target` and with `child` at its end.
pub open spec fn takes_place_of(
    after: Seq<Chromossome>,
    before: Seq<Chromossome>,
    child: Chromossome,
    target: Chromossome,
) -> bool {
    exists|at: int| #[trigger] is_first_like(before, at, target) && after == before.remove(at).push(child)
}

/// The number of exchanges, the patience and the count of stalled
/// generations after one generation.
pub open spec fn adapted(swap: int, patience: int, stalled: int, improved: bool, n: int) -> (
    int,
    int,
    int,
) {
    let eased = if improved && swap > 1 {
        swap - 1
    } else {
        swap
    };
    let waited = if improved {
        0
    } else {
        stalled + 1
    };
    if waited > patience {
        (
            if eased < n {
                eased + 1
            } else {
                1
            },
            patience * 2,
            waited,
        )
    } else {
        (eased, patience, waited)
    }
}

/// Where, from position `from` on, the second parent first holds a point
/// that `path` lacks; the length of the parent where it holds none.
pub open spec fn first_missing_at(mate: Seq<u16>, path: Seq<u16>, from: int) -> int
    decreases mate.len() - from,
{
    if from >= mate.len() {
        mate.len() as int
    } else if !path.contains(mate[from]) {
        from
    } else {
        first_missing_at(mate, path, from + 1)
    }
}

/// `path` after the way from `current` has been walked to its end: at
/// every second step, the first among them where `even`, the point of the
/// step is added, and the way ends where such a point is one that the
/// path has; each step leads to the point which the second parent holds
/// where the first parent holds this one. `fuel` steps are walked at the
/// most.
pub open spec fn walked(
    lead: Seq<u16>,
    mate: Seq<u16>,
    path: Seq<u16>,
    current: u16,
    even: bool,
    fuel: nat,
) -> Seq<u16>
    decreases fuel,
{
    if fuel == 0 || (even && path.contains(current)) {
        path
    } else {
        walked(
            lead,
            mate,
            if even {
                path.push(current)
            } else {
                path
            },
            mate[place(lead, current)],
            !even,
            (fuel - 1) as nat,
        )
    }
}

/// `path` after ways have been walked, each from the first point of the
/// second parent that the path lacks, until it lacks none; `rounds` ways
/// at the most.
pub open spec fn skipped_on(lead: Seq<u16>, mate: Seq<u16>, path: Seq<u16>, rounds: nat) -> Seq<u16>
    decreases rounds,
{
    let at = first_missing_at(mate, path, 0);
    if rounds == 0 || at >= mate.len() {
        path
    } else {
        skipped_on(
            lead,
            mate,
            walked(lead, mate, path, mate[at], true, (2 * mate.len()) as nat),
            (rounds - 1) as nat,
        )
    }
}

/// The child of the variant of the cycle crossover. Every way adds a point,
/// and a way of twice as many steps as there are points comes to its end:
/// so as many ways as there are points, each of so many steps, are enough.
pub open spec fn skipping_child(lead: Seq<u16>, mate: Seq<u16>) -> Seq<u16> {
    skipped_on(lead, mate, Seq::<u16>::empty(), mate.len())
}

/// Where the path holds all that the second parent holds up to `from`, the
/// first point that it lacks stands at `from` or later.
pub proof fn lemma_first_missing_skips(mate: Seq<u16>, path: Seq<u16>, start: int, from: int)
    requires
        0 <= start <= from <= mate.len(),
        forall|k: int| 0 <= k < from ==> path.contains(#[trigger] mate[k]),
    ensures
        first_missing_at(mate, path, start) == first_missing_at(mate, path, from),
    decreases from - start,
{
    if start < from {
        lemma_first_missing_skips(mate, path, start + 1, from);
    }
}

/// A path of fewer than all points lacks a point of the parent at `from`
/// or later where it holds all before.
pub proof fn lemma_unvisited_in(mate: Seq<u16>, path: Seq<u16>, n: nat, from: int)
    requires
        is_tour(mate, n),
        n <= 0xffff,
        is_partial_tour(path, n),
        path.len() < n,
        0 <= from <= n,
        forall|k: int| 0 <= k < from ==> path.contains(#[trigger] mate[k]),
    ensures
        from < n,
{
    if from >= n {
        assert forall|c: u16| c < n implies #[trigger] path.contains(c) by {
            lemma_full_tour_contains(mate, n, c);
            let k = choose|k: int| 0 <= k < mate.len() && mate[k] == c;
            assert(path.contains(mate[k]));
        }
        crate::tour::lemma_covering_len(path, n);
    }
}

/// The state of a genetic run.
pub struct Genetic {
    pub distance_matrix: Vec<u64>,
    pub cities: Vec<City>,
    /// The name of the crossover last used.
    pub crossover: String,
    /// The names of the mutations that have shortened the best tour.
    pub mutations: Vec<String>,
    /// The generations gone through, as far as 32 bits count.
    pub generations: u32,
    pub rng: ThreadRng,
    /// The lengths of the children that have been put up against those
    /// alive, in the order of their generations, all runs of this engine
    /// together.
    pub offered: Ghost<Seq<u64>>,
}

impl Genetic {
    /// The number of points.
    pub open spec fn n(&self) -> nat {
        self.cities@.len()
    }

    /// The engine holds the distance matrix of its points.
    pub open spec fn wf(&self) -> bool {
        is_instance(self.cities@, self.distance_matrix@)
    }

    /// The mutation of this name is among those noted.
    pub open spec fn has_noted(&self, name: Seq<char>) -> bool {
        exists|i: int| 0 <= i < self.mutations@.len() && (#[trigger] self.mutations@[i])@ == name
    }

    /// The same instance, and no generation in between.
    pub open spec fn same_task(&self, other: &Self) -> bool {
        &&& self.cities == other.cities
        &&& self.distance_matrix == other.distance_matrix
        &&& self.offered == other.offered
    }

    /// The children put up since `earlier` follow those known then, and
    /// `length` exceeds none of them.
    pub open spec fn leads_since(&self, earlier: &Self, length: u64) -> bool {
        &&& self.offered@.len() >= earlier.offered@.len()
        &&& self.offered@.take(earlier.offered@.len() as int) == earlier.offered@
        &&& forall|g: int|
            earlier.offered@.len() <= g < self.offered@.len() ==> length <= #[trigger] self.offered@[g]
    }

    /// Every chromosome of the population is a tour of the instance with
    /// its length.
    pub open spec fn is_population(&self, population: Seq<Chromossome>) -> bool {
        forall|k: int|
            0 <= k < population.len() ==> (#[trigger] population[k]).is_valid(
                self.distance_matrix@,
                self.n(),
            )
    }

    /// An engine for `cities`.
    pub fn new(cities: &Vec<City>) -> (engine: Self)
        requires
            2 <= cities@.len() <= 0xffff,
        ensures
            engine.wf(),
            engine.cities@ == cities@,
            engine.generations == 0,
            engine.offered@.len() == 0,
    {
        let size = cities.len();
        assert(size * size <= usize::MAX) by (nonlinear_arith)
            requires
                size <= 0xffff,
        ;
        Genetic {
            distance_matrix: create_distance_matrix(cities),
            cities: cities.clone(),
            crossover: String::new(),
            mutations: Vec::new(),
            generations: 0,
            rng: thread_generator(),
            offered: Ghost(Seq::empty()),
        }
    }

    /// A chromosome for `path` with its length.
    fn chromossome_of(&self, path: Vec<u16>) -> (child: Chromossome)
        requires
            self.wf(),
            is_tour(path@, self.n()),
        ensures
            child.is_valid(self.distance_matrix@, self.n()),
            child.path@ == path@,
            child.mutation@ == Seq::<char>::empty(),
    {
        let distance = calculate_path_distance(&path, &self.distance_matrix);
        Chromossome::new(path, distance)
    }

    /// `n` chromosomes in random order.
    pub fn create_random_population(&mut self, n: usize) -> (population: Vec<Chromossome>)
        requires
            old(self).wf(),
        ensures
            final(self).wf(),
            final(self).same_task(old(self)),
            final(self).generations == old(self).generations,
            population@.len() == n,
            final(self).is_population(population@),
    {
        let mut population: Vec<Chromossome> = Vec::with_capacity(n);
        let mut current_path = identity(self.cities.len());
        while population.len() < n
            invariant
                self.wf(),
                self.same_task(old(self)),
                self.generations == old(self).generations,
                population@.len() <= n,
                self.is_population(population@),
                is_tour(current_path@, self.n()),
            decreases n - population@.len(),
        {
            let ghost before = current_path@;
            shuffle(&mut self.rng, &mut current_path);
            proof {
                lemma_rearranged_tour(before, current_path@, self.n());
            }
            let chromossome = self.chromossome_of(current_path.clone());
            population.push(chromossome);
        }
        population
    }

    /// `n` chromosomes grown greedily, each from the nearest points not yet
    /// visited, as many of them as a number drawn from 1 to `greedy_range`.
    pub fn create_greedy_population(&mut self, n: usize, greedy_range: usize) -> (population: Vec<
        Chromossome,
    >)
        requires
            old(self).wf(),
            1 <= greedy_range < usize::MAX,
        ensures
            final(self).wf(),
            final(self).same_task(old(self)),
            final(self).generations == old(self).generations,
            population@.len() == n,
            final(self).is_population(population@),
            forall|k: int|
                0 <= k < n ==> is_greedy_path(
                    (#[trigger] population@[k]).path@,
                    old(self).distance_matrix@,
                    old(self).n(),
                    greedy_range as nat,
                ),
    {
        let mut population: Vec<Chromossome> = Vec::with_capacity(n);
        while population.len() < n
            invariant
                self.wf(),
                self.same_task(old(self)),
                self.generations == old(self).generations,
                1 <= greedy_range < usize::MAX,
                population@.len() <= n,
                self.is_population(population@),
                forall|k: int|
                    0 <= k < population@.len() ==> is_greedy_path(
                        (#[trigger] population@[k]).path@,
                        self.distance_matrix@,
                        self.n(),
                        greedy_range as nat,
                    ),
            decreases n - population@.len(),
        {
            let greedy_n = draw_between(&mut self.rng, 1, greedy_range + 1);
            let path = grow_greedy_tour(
                &self.distance_matrix,
                self.cities.len(),
                greedy_n,
                &mut self.rng,
            );
            let chromossome = self.chromossome_of(path);
            proof {
                assert(follows_nearest(
                    chromossome.path@,
                    self.distance_matrix@,
                    self.n(),
                    greedy_n as nat,
                ));
            }
            population.push(chromossome);
        }
        population
    }

    /// The position of the shortest chromosome, the first where several are
    /// as short.
    pub fn best_position(population: &Vec<Chromossome>) -> (at: usize)
        requires
            population@.len() > 0,
        ensures
            at < population@.len(),
            forall|j: int|
                0 <= j < population@.len() ==> population@[at as int].distance
                    <= population@[j].distance,
            forall|j: int| 0 <= j < at ==> population@[at as int].distance < population@[j].distance,
    {
        let mut at: usize = 0;
        let mut i: usize = 1;
        while i < population.len()
            invariant
                0 <= at < i <= population@.len(),
                forall|j: int|
                    0 <= j < i ==> population@[at as int].distance <= population@[j].distance,
                forall|j: int|
                    0 <= j < at ==> population@[at as int].distance < population@[j].distance,
            decreases population@.len() - i,
        {
            if population[i].distance < population[at].distance {
                at = i;
            }
            i += 1;
        }
        at
    }

    /// The position of the longest chromosome, the last where several are
    /// as long.
    pub fn worst_position(population: &Vec<Chromossome>) -> (at: usize)
        requires
            population@.len() > 0,
        ensures
            at < population@.len(),
            forall|j: int|
                0 <= j < population@.len() ==> population@[at as int].distance
                    >= population@[j].distance,
            forall|j: int|
                at < j < population@.len() ==> population@[at as int].distance
                    > population@[j].distance,
    {
        let mut at: usize = 0;
        let mut i: usize = 1;
        while i < population.len()
            invariant
                0 <= at < i <= population@.len(),
                forall|j: int|
                    0 <= j < i ==> population@[at as int].distance >= population@[j].distance,
                forall|j: int|
                    at < j < i ==> population@[at as int].distance > population@[j].distance,
            decreases population@.len() - i,
        {
            if population[i].distance >= population[at].distance {
                at = i;
            }
            i += 1;
        }
        at
    }

    /// A copy of the shortest chromosome.
    pub fn get_best_chromossome(&self, population: &Vec<Chromossome>) -> (best: Chromossome)
        requires
            population@.len() > 0,
        ensures
            exists|k: int|
                0 <= k < population@.len() && best.same_as(&#[trigger] population@[k]),
            forall|j: int| 0 <= j < population@.len() ==> best.distance <= population@[j].distance,
    {
        let at = Self::best_position(population);
        population[at].clone()
    }

    /// A copy of the longest chromosome.
    pub fn get_worst_chromossome(&self, population: &Vec<Chromossome>) -> (worst: Chromossome)
        requires
            population@.len() > 0,
        ensures
            exists|k: int|
                0 <= k < population@.len() && worst.same_as(&#[trigger] population@[k]),
            forall|j: int| 0 <= j < population@.len() ==> worst.distance >= population@[j].distance,
    {
        let at = Self::worst_position(population);
        population[at].clone()
    }

    /// The first position at which the population holds a chromosome equal
    /// to `target`.
    pub fn find_chromossome(population: &Vec<Chromossome>, target: &Chromossome) -> (at: usize)
        requires
            exists|k: int| 0 <= k < population@.len() && target.same_as(&#[trigger] population@[k]),
        ensures
            at < population@.len(),
            target.same_as(&population@[at as int]),
            forall|j: int| 0 <= j < at ==> !target.same_as(&population@[j]),
    {
        let mut i: usize = 0;
        while i < population.len()
            invariant
                i <= population@.len(),
                forall|j: int| 0 <= j < i ==> !target.same_as(&population@[j]),
            decreases population@.len() - i,
        {
            if target.equals(&population[i]) {
                return i;
            }
            i += 1;
        }
        proof {
            let k = choose|k: int|
                0 <= k < population@.len() && target.same_as(&#[trigger] population@[k]);
            assert(!target.same_as(&population@[k]));
        }
        0
    }

    /// Copies of two different chromosomes of the population, drawn at
    /// random.
    pub fn select_parents(&mut self, population: &Vec<Chromossome>) -> (parents: (
        Chromossome,
        Chromossome,
    ))
        requires
            population@.len() >= 2,
        ensures
            final(self).same_task(old(self)),
            final(self).generations == old(self).generations,
            final(self).crossover == old(self).crossover,
            final(self).mutations == old(self).mutations,
            exists|a: int, b: int|
                0 <= a < population@.len() && 0 <= b < population@.len() && a != b
                    && parents.0.same_as(&#[trigger] population@[a]) && parents.1.same_as(
                    &#[trigger] population@[b],
                ),
    {
        let n = population.len();
        let parent_1 = draw_between(&mut self.rng, 0, n);
        let other = draw_between(&mut self.rng, 0, n - 1);
        let parent_2 = if other >= parent_1 {
            other + 1
        } else {
            other
        };
        let parents = (population[parent_1].clone(), population[parent_2].clone());
        proof {
            assert(parents.0.same_as(&population@[parent_1 as int]));
            assert(parents.1.same_as(&population@[parent_2 as int]));
        }
        parents
    }

    /// The order crossover with the stretch from `start` up to `end`.
    pub fn order_crossover_at(
        &self,
        parent_1: &Chromossome,
        parent_2: &Chromossome,
        start: usize,
        end: usize,
    ) -> (child: Chromossome)
        requires
            self.wf(),
            parent_1.is_valid(self.distance_matrix@, self.n()),
            parent_2.is_valid(self.distance_matrix@, self.n()),
            start <= end <= self.n(),
        ensures
            child.is_valid(self.distance_matrix@, self.n()),
            child.mutation@ == Seq::<char>::empty(),
            child.path@ == order_child(parent_1.path@, parent_2.path@, start as int, end as int),
    {
        let n = parent_1.path.len();
        let ghost lead = parent_1.path@;
        let ghost mate = parent_2.path@;
        let stretch = slice_of(&parent_1.path, start, end);
        proof {
            lemma_stretch_partial(lead, n as nat, start as int, end as int);
            lemma_completed(stretch@, mate, n as nat);
        }
        let rest = pick(&parent_2.path, &stretch, false, n);
        let right = slice_of(&rest, 0, n - end);
        let left_source = slice_of(&rest, n - end, rest.len());
        let left = turned_round(&left_source);
        let front = joined(&left, &stretch);
        let path = joined(&front, &right);
        proof {
            let whole = stretch@ + rest@;
            assert(rest@ =~= right@ + left_source@);
            left_source@.lemma_reverse_to_multiset();
            lemma_concat_counts(stretch@, rest@);
            lemma_concat_counts(right@, left_source@);
            lemma_concat_counts(left@, stretch@);
            lemma_concat_counts(left@ + stretch@, right@);
            assert forall|x: u16| path@.to_multiset().count(x) == whole.to_multiset().count(x) by {
                assert((left@ + stretch@ + right@).to_multiset().count(x) == (left@
                    + stretch@).to_multiset().count(x) + right@.to_multiset().count(x));
                assert((stretch@ + rest@).to_multiset().count(x) == stretch@.to_multiset().count(x)
                    + rest@.to_multiset().count(x));
                assert((right@ + left_source@).to_multiset().count(x) == right@.to_multiset().count(
                    x,
                ) + left_source@.to_multiset().count(x));
                assert((left@ + stretch@).to_multiset().count(x) == left@.to_multiset().count(x)
                    + stretch@.to_multiset().count(x));
            }
            assert(path@.to_multiset() =~= whole.to_multiset());
            lemma_rearranged_tour(whole, path@, n as nat);
        }
        self.chromossome_of(path)
    }

    /// The order crossover with a stretch drawn at random: it starts
    /// before the last two positions and ends, at least one entry on,
    /// before the last position. Parents of fewer than 3 points hand on the
    /// first parent's tour.
    pub fn order_crossover(&mut self, parent_1: &Chromossome, parent_2: &Chromossome) -> (child:
        Chromossome)
        requires
            old(self).wf(),
            parent_1.is_valid(old(self).distance_matrix@, old(self).n()),
            parent_2.is_valid(old(self).distance_matrix@, old(self).n()),
        ensures
            final(self).same_task(old(self)),
            final(self).generations == old(self).generations,
            final(self).mutations == old(self).mutations,
            final(self).crossover@ == "order_crossover"@,
            child.is_valid(old(self).distance_matrix@, old(self).n()),
            child.mutation@ == Seq::<char>::empty(),
            old(self).n() < 3 ==> child.path@ == parent_1.path@,
            old(self).n() >= 3 ==> exists|start: int, end: int|
                0 <= start < old(self).n() - 2 && start < end < old(self).n() - 1 && child.path@
                    == #[trigger] order_child(parent_1.path@, parent_2.path@, start, end),
    {
        self.crossover = "order_crossover".to_owned();
        let n = parent_1.path.len();
        if n < 3 {
            return self.chromossome_of(parent_1.path.clone());
        }
        let start = draw_between(&mut self.rng, 0, n - 2);
        let end = draw_between(&mut self.rng, start + 1, n - 1);
        self.order_crossover_at(parent_1, parent_2, start, end)
    }

    /// The order-based crossover with the stretch from `start` up to
    /// `end`.
    pub fn order_based_crossover_at(
        &self,
        parent_1: &Chromossome,
        parent_2: &Chromossome,
        start: usize,
        end: usize,
    ) -> (child: Chromossome)
        requires
            self.wf(),
            parent_1.is_valid(self.distance_matrix@, self.n()),
            parent_2.is_valid(self.distance_matrix@, self.n()),
            start <= end <= self.n(),
        ensures
            child.is_valid(self.distance_matrix@, self.n()),
            child.mutation@ == Seq::<char>::empty(),
            child.path@ == order_based_child(
                parent_1.path@,
                parent_2.path@,
                start as int,
                end as int,
            ),
    {
        let n = parent_1.path.len();
        let ghost lead = parent_1.path@;
        let ghost mate = parent_2.path@;
        let removed_cities = slice_of(&parent_1.path, start, end);
        proof {
            lemma_stretch_partial(lead, n as nat, start as int, end as int);
            lemma_reordered(removed_cities@, mate, n as nat);
        }
        let ordered = pick(&parent_2.path, &removed_cities, true, n);
        let head = slice_of(&parent_1.path, 0, start);
        let tail = slice_of(&parent_1.path, end, n);
        let front = joined(&head, &ordered);
        let path = joined(&front, &tail);
        proof {
            assert(lead =~= head@ + removed_cities@ + tail@);
            lemma_concat_counts(head@, removed_cities@);
            lemma_concat_counts(head@ + removed_cities@, tail@);
            lemma_concat_counts(head@, ordered@);
            lemma_concat_counts(head@ + ordered@, tail@);
            assert forall|x: u16| path@.to_multiset().count(x) == lead.to_multiset().count(x) by {
                assert((head@ + ordered@ + tail@).to_multiset().count(x) == (head@
                    + ordered@).to_multiset().count(x) + tail@.to_multiset().count(x));
                assert((head@ + removed_cities@ + tail@).to_multiset().count(x) == (head@
                    + removed_cities@).to_multiset().count(x) + tail@.to_multiset().count(x));
                assert((head@ + ordered@).to_multiset().count(x) == head@.to_multiset().count(x)
                    + ordered@.to_multiset().count(x));
                assert((head@ + removed_cities@).to_multiset().count(x) == head@.to_multiset().count(
                    x,
                ) + removed_cities@.to_multiset().count(x));
            }
            assert(path@.to_multiset() =~= lead.to_multiset());
            lemma_rearranged_tour(lead, path@, n as nat);
        }
        self.chromossome_of(path)
    }

    /// The order-based crossover with a stretch drawn at random, as for
    /// the order crossover.
    pub fn order_based_crossover(&mut self, parent_1: &Chromossome, parent_2: &Chromossome) -> (child:
        Chromossome)
        requires
            old(self).wf(),
            parent_1.is_valid(old(self).distance_matrix@, old(self).n()),
            parent_2.is_valid(old(self).distance_matrix@, old(self).n()),
        ensures
            final(self).same_task(old(self)),
            final(self).generations == old(self).generations,
            final(self).mutations == old(self).mutations,
            final(self).crossover@ == "order_based_crossover"@,
            child.is_valid(old(self).distance_matrix@, old(self).n()),
            child.mutation@ == Seq::<char>::empty(),
            old(self).n() < 3 ==> child.path@ == parent_1.path@,
            old(self).n() >= 3 ==> exists|start: int, end: int|
                0 <= start < old(self).n() - 2 && start < end < old(self).n() - 1 && child.path@
                    == #[trigger] order_based_child(parent_1.path@, parent_2.path@, start, end),
    {
        self.crossover = "order_based_crossover".to_owned();
        let n = parent_1.path.len();
        if n < 3 {
            return self.chromossome_of(parent_1.path.clone());
        }
        let start = draw_between(&mut self.rng, 0, n - 2);
        let end = draw_between(&mut self.rng, start + 1, n - 1);
        self.order_based_crossover_at(parent_1, parent_2, start, end)
    }

    /// The maximal-preservative crossover with the stretch from `start` up
    /// to `end`.
    pub fn maximal_preservative_crossover_at(
        &self,
        parent_1: &Chromossome,
        parent_2: &Chromossome,
        start: usize,
        end: usize,
    ) -> (child: Chromossome)
        requires
            self.wf(),
            parent_1.is_valid(self.distance_matrix@, self.n()),
            parent_2.is_valid(self.distance_matrix@, self.n()),
            start <= end <= self.n(),
        ensures
            child.is_valid(self.distance_matrix@, self.n()),
            child.mutation@ == Seq::<char>::empty(),
            child.path@ == maximal_preservative_child(
                parent_1.path@,
                parent_2.path@,
                start as int,
                end as int,
            ),
    {
        let n = parent_1.path.len();
        let stretch = slice_of(&parent_1.path, start, end);
        proof {
            lemma_stretch_partial(parent_1.path@, n as nat, start as int, end as int);
            lemma_completed(stretch@, parent_2.path@, n as nat);
        }
        let rest = pick(&parent_2.path, &stretch, false, n);
        let path = joined(&stretch, &rest);
        self.chromossome_of(path)
    }

    /// The maximal-preservative crossover with a stretch drawn at random:
    /// it starts more than 10 positions before the end; it ends, at least
    /// 10 entries on, before the middle of the tour, or, where that is not
    /// to be had, before the last position. Parents of 10 points or fewer
    /// hand on the first parent's tour.
    pub fn maximal_preservative_crossover(
        &mut self,
        parent_1: &Chromossome,
        parent_2: &Chromossome,
    ) -> (child: Chromossome)
        requires
            old(self).wf(),
            parent_1.is_valid(old(self).distance_matrix@, old(self).n()),
            parent_2.is_valid(old(self).distance_matrix@, old(self).n()),
        ensures
            final(self).same_task(old(self)),
            final(self).generations == old(self).generations,
            final(self).mutations == old(self).mutations,
            final(self).crossover@ == "maximal_preservative_crossover"@,
            child.is_valid(old(self).distance_matrix@, old(self).n()),
            child.mutation@ == Seq::<char>::empty(),
            old(self).n() <= 10 ==> child.path@ == parent_1.path@,
            old(self).n() > 10 ==> exists|start: int, end: int|
                0 <= start < old(self).n() - 10 && start + 10 <= end < old(self).n() && (end
                    < old(self).n() / 2 || end == old(self).n() - 1) && child.path@
                    == #[trigger] maximal_preservative_child(
                    parent_1.path@,
                    parent_2.path@,
                    start,
                    end,
                ),
    {
        self.crossover = "maximal_preservative_crossover".to_owned();
        let n = parent_1.path.len();
        if n <= 10 {
            return self.chromossome_of(parent_1.path.clone());
        }
        let start = draw_between(&mut self.rng, 0, n - 10);
        let end = if start + 10 < n / 2 {
            draw_between(&mut self.rng, start + 10, n / 2)
        } else {
            n - 1
        };
        self.maximal_preservative_crossover_at(parent_1, parent_2, start, end)
    }

    /// The alternating-position crossover: the points of the two parents
    /// in turn, each where it first occurs.
    pub fn alternating_position_crossover(
        &mut self,
        parent_1: &Chromossome,
        parent_2: &Chromossome,
    ) -> (child: Chromossome)
        requires
            old(self).wf(),
            parent_1.is_valid(old(self).distance_matrix@, old(self).n()),
            parent_2.is_valid(old(self).distance_matrix@, old(self).n()),
        ensures
            final(self).same_task(old(self)),
            final(self).generations == old(self).generations,
            final(self).mutations == old(self).mutations,
            final(self).crossover@ == "alternating_position_crossover"@,
            child.is_valid(old(self).distance_matrix@, old(self).n()),
            child.mutation@ == Seq::<char>::empty(),
            child.path@ == alternated(parent_1.path@, parent_2.path@, old(self).n() as int),
    {
        self.crossover = "alternating_position_crossover".to_owned();
        let n = parent_1.path.len();
        let ghost lead = parent_1.path@;
        let ghost mate = parent_2.path@;
        let mut path: Vec<u16> = Vec::with_capacity(n);
        let empty: Vec<u16> = Vec::new();
        let mut seen = membership(&empty, n);
        let mut i: usize = 0;
        while i < n
            invariant
                i <= n,
                n == lead.len(),
                n <= 0xffff,
                lead == parent_1.path@,
                mate == parent_2.path@,
                is_tour(lead, n as nat),
                is_tour(mate, n as nat),
                path@ == alternated(lead, mate, i as int),
                path@.no_duplicates(),
                in_range(path@, n as nat),
                seen@.len() == n,
                forall|c: int| 0 <= c < n ==> #[trigger] seen@[c] == path@.contains(c as u16),
                forall|k: int| 0 <= k < i ==> path@.contains(#[trigger] lead[k]),
            decreases n - i,
        {
            let ghost before = path@;
            assert(lead[i as int] < n && mate[i as int] < n);
            push_unseen(&mut path, &mut seen, parent_1.path[i]);
            let ghost middle = path@;
            push_unseen(&mut path, &mut seen, parent_2.path[i]);
            proof {
                lemma_push_contains(before, lead[i as int]);
                lemma_push_contains(middle, mate[i as int]);
                assert forall|k: int| 0 <= k < i + 1 implies path@.contains(#[trigger] lead[k]) by {
                    if k < i {
                        assert(before.contains(lead[k]));
                    }
                    assert(middle.contains(lead[k]));
                }
                assert forall|k: int| 0 <= k < path@.len() implies (#[trigger] path@[k]) < n by {
                    if k < before.len() {
                        assert(path@[k] == before[k]);
                    }
                }
            }
            i += 1;
        }
        proof {
            assert forall|c: u16| c < n implies #[trigger] path@.contains(c) by {
                lemma_full_tour_contains(lead, n as nat, c);
                let w = choose|w: int| 0 <= w < lead.len() && lead[w] == c;
                assert(path@.contains(lead[w]));
            }
            lemma_tour_by_cover(path@, n as nat);
        }
        self.chromossome_of(path)
    }

    /// The position-based crossover at the given positions.
    pub fn position_based_crossover_at(
        &self,
        parent_1: &Chromossome,
        parent_2: &Chromossome,
        positions: &Vec<usize>,
    ) -> (child: Chromossome)
        requires
            self.wf(),
            parent_1.is_valid(self.distance_matrix@, self.n()),
            parent_2.is_valid(self.distance_matrix@, self.n()),
            forall|k: int| 0 <= k < positions@.len() ==> #[trigger] positions@[k] < self.n(),
        ensures
            child.is_valid(self.distance_matrix@, self.n()),
            child.mutation@ == Seq::<char>::empty(),
            child.path@ == positions_taken(parent_1.path@, parent_2.path@, positions@),
    {
        let n = parent_1.path.len();
        let ghost lead = parent_1.path@;
        let ghost mate = parent_2.path@;
        let mut path = parent_1.path.clone();
        let mut k: usize = 0;
        while k < positions.len()
            invariant
                k <= positions@.len(),
                n == lead.len(),
                mate == parent_2.path@,
                is_tour(mate, n as nat),
                is_tour(path@, n as nat),
                path@ == positions_taken(lead, mate, positions@.take(k as int)),
                forall|w: int| 0 <= w < positions@.len() ==> #[trigger] positions@[w] < n,
            decreases positions@.len() - k,
        {
            let i = positions[k];
            let wanted = parent_2.path[i];
            proof {
                assert(mate[i as int] < n);
                lemma_full_tour_contains(path@, n as nat, wanted);
                assert(positions@.take(k + 1).drop_last() =~= positions@.take(k as int));
            }
            let j = position_of(&path, wanted);
            let ghost before = path@;
            proof {
                lemma_place(before, wanted, j as int);
                lemma_swapped_multiset(before, i as int, j as int);
            }
            swap_entries(&mut path, i, j);
            proof {
                lemma_rearranged_tour(before, path@, n as nat);
            }
            k += 1;
        }
        proof {
            assert(positions@.take(positions@.len() as int) =~= positions@);
        }
        self.chromossome_of(path)
    }

    /// The position-based crossover at positions drawn at random: fewer
    /// than a fifth of the number of points, none of them the last and
    /// none of them twice. A draw that falls on a position already taken
    /// is made again, 4194304 draws in all at the most. Parents of fewer
    /// than 10 points hand on the first parent's tour.
    pub fn position_based_crossover(&mut self, parent_1: &Chromossome, parent_2: &Chromossome) -> (child:
        Chromossome)
        requires
            old(self).wf(),
            parent_1.is_valid(old(self).distance_matrix@, old(self).n()),
            parent_2.is_valid(old(self).distance_matrix@, old(self).n()),
        ensures
            final(self).same_task(old(self)),
            final(self).generations == old(self).generations,
            final(self).mutations == old(self).mutations,
            final(self).crossover@ == "position_based_crossover"@,
            child.is_valid(old(self).distance_matrix@, old(self).n()),
            child.mutation@ == Seq::<char>::empty(),
            exists|positions: Seq<usize>|
                {
                    &&& positions.no_duplicates()
                    &&& positions.len() < old(self).n() / 5 || positions.len() == 0
                    &&& forall|k: int|
                        0 <= k < positions.len() ==> #[trigger] positions[k] < old(self).n() - 1
                    &&& child.path@ == #[trigger] positions_taken(
                        parent_1.path@,
                        parent_2.path@,
                        positions,
                    )
                },
    {
        self.crossover = "position_based_crossover".to_owned();
        let n = parent_1.path.len();
        let mut positions: Vec<usize> = Vec::new();
        if n >= 10 {
            let swap_size = draw_between(&mut self.rng, 1, n / 5);
            let mut swaped_positions: Vec<bool> = Vec::with_capacity(n);
            while swaped_positions.len() < n
                invariant
                    swaped_positions@.len() <= n,
                    forall|c: int| 0 <= c < swaped_positions@.len() ==> !swaped_positions@[c],
                decreases n - swaped_positions@.len(),
            {
                swaped_positions.push(false);
            }
            let mut attempts: usize = 0;
            while positions.len() < swap_size && attempts < 0x40_0000
                invariant
                    self.wf(),
                    self.same_task(old(self)),
                    self.generations == old(self).generations,
                    self.mutations == old(self).mutations,
                    self.crossover@ == "position_based_crossover"@,
                    n == self.n(),
                    n >= 10,
                    swap_size < n / 5,
                    positions@.len() <= swap_size,
                    swaped_positions@.len() == n,
                    positions@.no_duplicates(),
                    forall|k: int| 0 <= k < positions@.len() ==> #[trigger] positions@[k] < n - 1,
                    forall|k: int|
                        0 <= k < positions@.len() ==> swaped_positions@[#[trigger] positions@[k] as int],
                    attempts <= 0x40_0000,
                decreases 0x40_0000 - attempts,
            {
                let i = draw_between(&mut self.rng, 0, n - 1);
                if !swaped_positions[i] {
                    proof {
                        assert forall|a: int, b: int|
                            0 <= a < positions@.push(i).len() && 0 <= b < positions@.push(i).len()
                                && a != b implies positions@.push(i)[a] != positions@.push(i)[b] by {
                            if a < positions@.len() && b < positions@.len() {
                            } else if a < positions@.len() {
                                assert(swaped_positions@[positions@[a] as int]);
                            } else {
                                assert(swaped_positions@[positions@[b] as int]);
                            }
                        }
                    }
                    positions.push(i);
                    swaped_positions.set(i, true);
                }
                attempts += 1;
            }
        }
        self.position_based_crossover_at(parent_1, parent_2, &positions)
    }

    /// The partially-mapped crossover with the stretch from `start` up to
    /// `end`.
    pub fn partially_mapped_crossover_at(
        &self,
        parent_1: &Chromossome,
        parent_2: &Chromossome,
        start: usize,
        end: usize,
    ) -> (child: Chromossome)
        requires
            self.wf(),
            parent_1.is_valid(self.distance_matrix@, self.n()),
            parent_2.is_valid(self.distance_matrix@, self.n()),
            start <= end <= self.n(),
        ensures
            child.is_valid(self.distance_matrix@, self.n()),
            child.mutation@ == Seq::<char>::empty(),
            child.path@ == partially_mapped_child(
                parent_1.path@,
                parent_2.path@,
                start as int,
                end as int,
            ),
    {
        let n = parent_1.path.len();
        let ghost lead = parent_1.path@;
        let ghost mate = parent_2.path@;
        let ghost target = partially_mapped_child(lead, mate, start as int, end as int);
        let initial = slice_of(&parent_1.path, start, end);
        let replace = slice_of(&parent_2.path, start, end);
        proof {
            lemma_stretch_partial(lead, n as nat, start as int, end as int);
            lemma_stretch_partial(mate, n as nat, start as int, end as int);
        }
        let to_replace = pick(&initial, &replace, false, n);
        let duplicated = membership(&replace, n);
        let mut path: Vec<u16> = Vec::with_capacity(n);
        let mut used: usize = 0;
        let mut i: usize = 0;
        while i < n
            invariant
                i <= n,
                n == lead.len(),
                n <= 0xffff,
                lead == parent_1.path@,
                mate == parent_2.path@,
                is_tour(lead, n as nat),
                is_tour(mate, n as nat),
                start <= end <= n,
                target == partially_mapped_child(lead, mate, start as int, end as int),
                replace@ == mate.subrange(start as int, end as int),
                to_replace@ == picked(
                    lead.subrange(start as int, end as int),
                    mate.subrange(start as int, end as int),
                    false,
                ),
                duplicated@.len() == n,
                forall|c: int| 0 <= c < n ==> #[trigger] duplicated@[c] == replace@.contains(c as u16),
                used == used_before(lead, mate, start as int, end as int, i as int),
                path@.len() == i,
                forall|k: int| 0 <= k < i ==> path@[k] == target[k],
            decreases n - i,
        {
            let city = parent_1.path[i];
            proof {
                assert(lead[i as int] < n);
                lemma_displaced(lead, mate, n as nat, start as int, end as int, i + 1);
            }
            if start <= i && i < end {
                path.push(parent_2.path[i]);
            } else if duplicated[city as usize] {
                let available = to_replace.len();
                assert(used < available);
                path.push(to_replace[used]);
                used += 1;
            } else {
                path.push(city);
            }
            i += 1;
        }
        proof {
            assert(path@ =~= target);
            lemma_partially_mapped_child(lead, mate, n as nat, start as int, end as int);
        }
        self.chromossome_of(path)
    }

    /// The partially-mapped crossover with a stretch drawn at random, as
    /// for the order crossover.
    pub fn partially_mapped_crossover(&mut self, parent_1: &Chromossome, parent_2: &Chromossome) -> (child:
        Chromossome)
        requires
            old(self).wf(),
            parent_1.is_valid(old(self).distance_matrix@, old(self).n()),
            parent_2.is_valid(old(self).distance_matrix@, old(self).n()),
        ensures
            final(self).same_task(old(self)),
            final(self).generations == old(self).generations,
            final(self).mutations == old(self).mutations,
            final(self).crossover@ == "partially_mapped_crossover"@,
            child.is_valid(old(self).distance_matrix@, old(self).n()),
            child.mutation@ == Seq::<char>::empty(),
            old(self).n() < 3 ==> child.path@ == parent_1.path@,
            old(self).n() >= 3 ==> exists|start: int, end: int|
                0 <= start < old(self).n() - 2 && start < end < old(self).n() - 1 && child.path@
                    == #[trigger] partially_mapped_child(parent_1.path@, parent_2.path@, start, end),
    {
        self.crossover = "partially_mapped_crossover".to_owned();
        let n = parent_1.path.len();
        if n < 3 {
            return self.chromossome_of(parent_1.path.clone());
        }
        let start = draw_between(&mut self.rng, 0, n - 2);
        let end = draw_between(&mut self.rng, start + 1, n - 1);
        self.partially_mapped_crossover_at(parent_1, parent_2, start, end)
    }
}

/// The position that the cycle reaches after `k` steps from position 0:
/// each step goes from a position to where the first parent holds the
/// point that the second parent holds there.
pub open spec fn orbit(lead: Seq<u16>, mate: Seq<u16>, k: nat) -> int
    decreases k,
{
    if k == 0 {
        0
    } else {
        place(lead, mate[orbit(lead, mate, (k - 1) as nat)])
    }
}

/// Position `i` lies on the cycle through position 0.
pub open spec fn on_cycle(lead: Seq<u16>, mate: Seq<u16>, i: int) -> bool {
    exists|k: nat| #[trigger] orbit(lead, mate, k) == i
}

/// The child of the cycle crossover: the first parent on the cycle through
/// position 0, the second parent elsewhere.
pub open spec fn cycle_child(lead: Seq<u16>, mate: Seq<u16>) -> Seq<u16> {
    Seq::new(
        lead.len(),
        |i: int|
            if on_cycle(lead, mate, i) {
                lead[i]
            } else {
                mate[i]
            },
    )
}

/// One step of the cycle stays inside the tour and leads to the point
/// that the second parent holds at the position left.
pub proof fn lemma_orbit_step(lead: Seq<u16>, mate: Seq<u16>, n: nat, k: nat)
    requires
        is_tour(lead, n),
        is_tour(mate, n),
        n > 0,
    ensures
        0 <= orbit(lead, mate, k) < n,
        0 <= orbit(lead, mate, k + 1) < n,
        lead[orbit(lead, mate, k + 1)] == mate[orbit(lead, mate, k)],
    decreases k,
{
    if k > 0 {
        lemma_orbit_step(lead, mate, n, (k - 1) as nat);
    }
    let here = orbit(lead, mate, k);
    assert(mate[here] < n);
    lemma_full_tour_contains(lead, n, mate[here]);
}

/// Once the cycle is back at position 0 after `m` steps, it repeats.
pub proof fn lemma_orbit_period(lead: Seq<u16>, mate: Seq<u16>, m: nat, k: nat)
    requires
        orbit(lead, mate, m) == 0,
    ensures
        orbit(lead, mate, k + m) == orbit(lead, mate, k),
    decreases k,
{
    if k > 0 {
        lemma_orbit_period(lead, mate, m, (k - 1) as nat);
        assert(orbit(lead, mate, k + m) == place(lead, mate[orbit(lead, mate, (k + m - 1) as nat)]));
    }
}

/// Once the cycle is back at position 0 after `m` steps, every position
/// on it is reached within the first `m` steps.
pub proof fn lemma_orbit_reduces(lead: Seq<u16>, mate: Seq<u16>, m: nat, k: nat) -> (r: nat)
    requires
        m > 0,
        orbit(lead, mate, m) == 0,
    ensures
        r < m,
        orbit(lead, mate, r) == orbit(lead, mate, k),
    decreases k,
{
    if k < m {
        k
    } else {
        lemma_orbit_period(lead, mate, m, (k - m) as nat);
        lemma_orbit_reduces(lead, mate, m, (k - m) as nat)
    }
}

/// The points next to `current` in `parent`, the one before it and the one
/// after it, as far as the parent has them and `path` does not.
pub open spec fn side_neighbours(parent: Seq<u16>, current: u16, path: Seq<u16>) -> Seq<u16> {
    let i = place(parent, current);
    let before = if i > 0 && !path.contains(parent[i - 1]) {
        seq![parent[i - 1]]
    } else {
        Seq::<u16>::empty()
    };
    let after = if i + 1 < parent.len() && !path.contains(parent[i + 1]) {
        seq![parent[i + 1]]
    } else {
        Seq::<u16>::empty()
    };
    before + after
}

/// The points next to `current` in either parent that `path` does not
/// hold yet.
pub open spec fn parent_neighbours(lead: Seq<u16>, mate: Seq<u16>, current: u16, path: Seq<u16>) -> Seq<
    u16,
> {
    side_neighbours(lead, current, path) + side_neighbours(mate, current, path)
}

/// Wherever a point of `child` has a neighbour in a parent that the child
/// has not visited before, the child goes on to such a neighbour.
pub open spec fn follows_parents(child: Seq<u16>, lead: Seq<u16>, mate: Seq<u16>) -> bool {
    forall|k: int|
        0 <= k < child.len() - 1 ==> parent_neighbours(lead, mate, child[k], child.take(k + 1)).len()
            > 0 ==> parent_neighbours(lead, mate, child[k], child.take(k + 1)).contains(
            #[trigger] child[k + 1],
        )
}

/// The weight of an edge in the draw among several neighbours: the
/// reciprocal of its length in units of a 2^50th, a length of zero
/// counting as one.
pub open spec fn edge_weight(length: int) -> int {
    0x4_0000_0000_0000int / (if length < 1 {
        1
    } else {
        length
    })
}

/// `list` with `city` added unless the list or `path` holds it.
pub open spec fn with_open(list: Seq<u16>, city: u16, path: Seq<u16>) -> Seq<u16> {
    if path.contains(city) || list.contains(city) {
        list
    } else {
        list.push(city)
    }
}

/// The points that follow and precede `city` in `parent`, taken as a
/// ring.
pub open spec fn ring_neighbours(parent: Seq<u16>, city: u16) -> Seq<u16> {
    let n = parent.len() as int;
    let i = place(parent, city);
    seq![parent[(i + 1) % n], parent[(i + n - 1) % n]]
}

/// The different points next to `city` in either parent, taken as rings,
/// that `path` does not hold.
pub open spec fn open_edges(lead: Seq<u16>, mate: Seq<u16>, city: u16, path: Seq<u16>) -> Seq<u16> {
    let a = ring_neighbours(lead, city);
    let b = ring_neighbours(mate, city);
    with_open(
        with_open(with_open(with_open(Seq::<u16>::empty(), a[0], path), a[1], path), b[0], path),
        b[1],
        path,
    )
}

/// Wherever a point of `child` has a neighbour in a parent, taken as a
/// ring, that the child has not visited before, the child goes on to such
/// a neighbour, and to one that has itself as few such neighbours as any.
pub open spec fn follows_edges(child: Seq<u16>, lead: Seq<u16>, mate: Seq<u16>) -> bool {
    forall|k: int|
        0 <= k < child.len() - 1 ==> open_edges(lead, mate, child[k], child.take(k + 1)).len() > 0 ==> {
            &&& open_edges(lead, mate, child[k], child.take(k + 1)).contains(#[trigger] child[k + 1])
            &&& forall|x: u16|
                open_edges(lead, mate, child[k], child.take(k + 1)).contains(x) ==> open_edges(
                    lead,
                    mate,
                    child[k + 1],
                    child.take(k + 1),
                ).len() <= (#[trigger] open_edges(lead, mate, x, child.take(k + 1))).len()
        }
}

/// The next point of the heuristic crossover for the pick drawn: the only
/// open neighbour of `current`; where there are several, the one picked;
/// where there is none, the picked one of the points left.
pub open spec fn heuristic_next(
    lead: Seq<u16>,
    mate: Seq<u16>,
    path: Seq<u16>,
    unvisited: Seq<u16>,
    current: u16,
    pick: int,
) -> u16 {
    let open = parent_neighbours(lead, mate, current, path);
    if open.len() == 1 {
        open[0]
    } else if open.len() > 1 {
        open[pick]
    } else {
        unvisited[pick]
    }
}

/// Of the first `upto` of the open neighbours, the first that has itself
/// the fewest open neighbours.
pub open spec fn fewest_upto(
    lead: Seq<u16>,
    mate: Seq<u16>,
    open: Seq<u16>,
    path: Seq<u16>,
    upto: int,
) -> u16
    decreases upto,
{
    if upto <= 1 {
        open[0]
    } else {
        let before = fewest_upto(lead, mate, open, path, upto - 1);
        if open_edges(lead, mate, open[upto - 1], path).len() < open_edges(
            lead,
            mate,
            before,
            path,
        ).len() {
            open[upto - 1]
        } else {
            before
        }
    }
}

/// The next point of the edge-recombination crossover: the first of the
/// open neighbours of `current` that has itself the fewest open
/// neighbours; where there is none, the picked one of the points left.
pub open spec fn edge_recombination_next(
    lead: Seq<u16>,
    mate: Seq<u16>,
    path: Seq<u16>,
    unvisited: Seq<u16>,
    current: u16,
    pick: int,
) -> u16 {
    let open = open_edges(lead, mate, current, path);
    if open.len() > 0 {
        fewest_upto(lead, mate, open, path, open.len() as int)
    } else {
        unvisited[pick]
    }
}

/// What is left of a path without repetitions once an entry is taken out.
pub proof fn lemma_remove_contains(path: Seq<u16>, at: int)
    requires
        path.no_duplicates(),
        0 <= at < path.len(),
    ensures
        path.remove(at).no_duplicates(),
        forall|c: u16| #[trigger] path.remove(at).contains(c) <==> path.contains(c) && c != path[at],
{
    let rest = path.remove(at);
    assert forall|i: int, j: int| 0 <= i < rest.len() && 0 <= j < rest.len() && i != j implies rest[i]
        != rest[j] by {
        let from_i = if i < at {
            i
        } else {
            i + 1
        };
        let from_j = if j < at {
            j
        } else {
            j + 1
        };
        assert(rest[i] == path[from_i] && rest[j] == path[from_j]);
    }
    assert forall|c: u16| #[trigger] rest.contains(c) <==> path.contains(c) && c != path[at] by {
        if rest.contains(c) {
            let k = choose|k: int| 0 <= k < rest.len() && rest[k] == c;
            let from = if k < at {
                k
            } else {
                k + 1
            };
            assert(path[from] == c);
        }
        if path.contains(c) && c != path[at] {
            let k = choose|k: int| 0 <= k < path.len() && path[k] == c;
            if k < at {
                assert(rest[k] == c);
            } else {
                assert(rest[k - 1] == c);
            }
        }
    }
}

/// The search state of a crossover that builds its child point by point.
pub struct Build {
    /// The child so far.
    pub path: Vec<u16>,
    /// The points not yet in the child.
    pub unvisited: Vec<u16>,
    /// For each point whether the child holds it.
    pub seen: Vec<bool>,
}

impl Build {
    /// The child so far and the points left add up to all `n` points, each
    /// once.
    pub open spec fn wf(&self, n: nat) -> bool {
        &&& n <= 0xffff
        &&& is_partial_tour(self.path@, n)
        &&& is_partial_tour(self.unvisited@, n)
        &&& self.path@.len() + self.unvisited@.len() == n
        &&& self.seen@.len() == n
        &&& forall|c: int| 0 <= c < n ==> #[trigger] self.seen@[c] == self.path@.contains(c as u16)
        &&& forall|c: u16| c < n ==> (#[trigger] self.unvisited@.contains(c)) != self.path@.contains(c)
    }

    /// A build with nothing in the child yet.
    pub fn new(parent: &Vec<u16>) -> (build: Self)
        requires
            parent@.len() <= 0xffff,
            is_tour(parent@, parent@.len()),
        ensures
            build.wf(parent@.len()),
            build.path@.len() == 0,
            build.unvisited@ == parent@,
    {
        let n = parent.len();
        let empty: Vec<u16> = Vec::new();
        let seen = membership(&empty, n);
        let build = Build { path: Vec::new(), unvisited: parent.clone(), seen };
        proof {
            assert forall|c: u16| c < n implies (#[trigger] build.unvisited@.contains(c))
                != build.path@.contains(c) by {
                lemma_full_tour_contains(parent@, n as nat, c);
            }
        }
        build
    }

    /// Moves `city` from the points left to the end of the child.
    pub fn visit(&mut self, city: u16, n: usize)
        requires
            old(self).wf(n as nat),
            city < n,
            !old(self).path@.contains(city),
        ensures
            final(self).wf(n as nat),
            final(self).path@ == old(self).path@.push(city),
    {
        proof {
            assert(self.unvisited@.contains(city));
            lemma_push_contains(self.path@, city);
        }
        let at = position_of(&self.unvisited, city);
        proof {
            lemma_remove_contains(self.unvisited@, at as int);
        }
        let ghost before = *self;
        self.unvisited.remove(at);
        self.path.push(city);
        self.seen.set(city as usize, true);
        proof {
            assert forall|k: int| 0 <= k < self.unvisited@.len() implies (
            #[trigger] self.unvisited@[k]) < n by {
                assert(self.unvisited@.contains(self.unvisited@[k]));
                assert(before.unvisited@.contains(self.unvisited@[k]));
                let w = choose|w: int|
                    0 <= w < before.unvisited@.len() && before.unvisited@[w] == self.unvisited@[k];
                assert(before.unvisited@[w] < n);
            }
            assert forall|k: int| 0 <= k < self.path@.len() implies (#[trigger] self.path@[k])
                < n by {
                if k < before.path@.len() {
                    assert(self.path@[k] == before.path@[k]);
                }
            }
        }
    }
}

impl Genetic {
    /// The cycle crossover.
    pub fn cycle_crossover(&mut self, parent_1: &Chromossome, parent_2: &Chromossome) -> (child:
        Chromossome)
        requires
            old(self).wf(),
            parent_1.is_valid(old(self).distance_matrix@, old(self).n()),
            parent_2.is_valid(old(self).distance_matrix@, old(self).n()),
        ensures
            final(self).same_task(old(self)),
            final(self).generations == old(self).generations,
            final(self).mutations == old(self).mutations,
            final(self).crossover@ == "cycle_crossover"@,
            child.is_valid(old(self).distance_matrix@, old(self).n()),
            child.mutation@ == Seq::<char>::empty(),
            child.path@ == cycle_child(parent_1.path@, parent_2.path@),
    {
        self.crossover = "cycle_crossover".to_owned();
        let n = parent_1.path.len();
        let ghost lead = parent_1.path@;
        let ghost mate = parent_2.path@;
        let mut marks: Vec<bool> = Vec::with_capacity(n);
        while marks.len() < n
            invariant
                marks@.len() <= n,
                forall|c: int| 0 <= c < marks@.len() ==> !marks@[c],
            decreases n - marks@.len(),
        {
            marks.push(false);
        }
        let mut pos: usize = 0;
        let ghost mut steps: nat = 0;
        let ghost mut visited: Seq<u16> = Seq::empty();
        while !marks[pos]
            invariant
                n == lead.len(),
                2 <= n <= 0xffff,
                lead == parent_1.path@,
                mate == parent_2.path@,
                is_tour(lead, n as nat),
                is_tour(mate, n as nat),
                marks@.len() == n,
                pos < n,
                pos == orbit(lead, mate, steps),
                visited.len() == steps,
                steps <= n,
                is_partial_tour(visited, n as nat),
                forall|k: nat|
                    k < steps ==> 0 <= #[trigger] orbit(lead, mate, k) < n && marks@[orbit(lead, mate, k)]
                        && visited[k as int] == lead[orbit(lead, mate, k)],
                forall|i: int|
                    0 <= i < n && #[trigger] marks@[i] ==> exists|k: nat|
                        k < steps && orbit(lead, mate, k) == i,
            decreases n - steps,
        {
            proof {
                assert forall|k: int| 0 <= k < visited.len() implies visited[k] != lead[pos as int] by {
                    assert(orbit(lead, mate, k as nat) != pos);
                    assert(visited[k] == lead[orbit(lead, mate, k as nat)]);
                }
                lemma_push_contains(visited, lead[pos as int]);
                assert(!visited.contains(lead[pos as int]));
                let longer = visited.push(lead[pos as int]);
                assert forall|k: int| 0 <= k < longer.len() implies (#[trigger] longer[k]) < n by {
                    if k < visited.len() {
                        assert(longer[k] == visited[k]);
                    }
                }
                crate::tour::lemma_partial_tour_len(longer, n as nat);
                lemma_orbit_step(lead, mate, n as nat, steps);
                lemma_full_tour_contains(lead, n as nat, mate[pos as int]);
            }
            let ghost old_marks = marks@;
            marks.set(pos, true);
            let next = position_of(&parent_1.path, parent_2.path[pos]);
            proof {
                lemma_place(lead, mate[pos as int], next as int);
                visited = visited.push(lead[pos as int]);
                assert forall|i: int| 0 <= i < n && #[trigger] marks@[i] implies exists|k: nat|
                    k < steps + 1 && orbit(lead, mate, k) == i by {
                    if i == pos {
                        assert(orbit(lead, mate, steps) == i);
                    } else {
                        assert(old_marks[i]);
                        let k = choose|k: nat| k < steps && orbit(lead, mate, k) == i;
                        assert(k < steps + 1 && orbit(lead, mate, k) == i);
                    }
                }
                steps = steps + 1;
            }
            pos = next;
        }
        proof {
            assert(steps >= 1) by {
                if steps == 0 {
                    let k = choose|k: nat| k < steps && orbit(lead, mate, k) == pos as int;
                }
            }
            let j = choose|j: nat| j < steps && orbit(lead, mate, j) == pos as int;
            lemma_orbit_step(lead, mate, n as nat, (steps - 1) as nat);
            if j >= 1 {
                lemma_orbit_step(lead, mate, n as nat, (j - 1) as nat);
                let a = orbit(lead, mate, (j - 1) as nat);
                let b = orbit(lead, mate, (steps - 1) as nat);
                assert(mate[a] == mate[b]);
                assert(a == b);
                assert(visited[j - 1] == lead[a]);
                assert(visited[steps - 1] == lead[b]);
            }
            assert(orbit(lead, mate, steps) == 0);
            assert forall|i: int| 0 <= i < n implies marks@[i] == on_cycle(lead, mate, i) by {
                if marks@[i] {
                    let k = choose|k: nat| k < steps && orbit(lead, mate, k) == i;
                    assert(orbit(lead, mate, k) == i);
                }
                if on_cycle(lead, mate, i) {
                    let k = choose|k: nat| #[trigger] orbit(lead, mate, k) == i;
                    let r = lemma_orbit_reduces(lead, mate, steps, k);
                    assert(marks@[orbit(lead, mate, r)]);
                }
            }
        }
        let mut path: Vec<u16> = Vec::with_capacity(n);
        let mut i: usize = 0;
        while i < n
            invariant
                i <= n,
                n == lead.len(),
                n == mate.len(),
                lead == parent_1.path@,
                mate == parent_2.path@,
                marks@.len() == n,
                path@.len() == i,
                forall|k: int|
                    0 <= k < i ==> path@[k] == if marks@[k] {
                        lead[k]
                    } else {
                        mate[k]
                    },
            decreases n - i,
        {
            if marks[i] {
                path.push(parent_1.path[i]);
            } else {
                path.push(parent_2.path[i]);
            }
            i += 1;
        }
        proof {
            assert(path@ =~= cycle_child(lead, mate));
            assert forall|a: int, b: int| 0 <= a < n && 0 <= b < n && a != b && marks@[a]
                && !marks@[b] implies lead[a] != mate[b] by {
                let k = choose|k: nat| k < steps && orbit(lead, mate, k) == a;
                if k >= 1 {
                    lemma_orbit_step(lead, mate, n as nat, (k - 1) as nat);
                    let from = orbit(lead, mate, (k - 1) as nat);
                    assert(marks@[from]);
                    if lead[a] == mate[b] {
                        assert(mate[from] == mate[b]);
                    }
                } else {
                    let from = orbit(lead, mate, (steps - 1) as nat);
                    assert(marks@[from]);
                    if lead[a] == mate[b] {
                        assert(mate[from] == mate[b]);
                    }
                }
            }
            assert forall|a: int, b: int| 0 <= a < n && 0 <= b < n && a != b implies path@[a]
                != path@[b] by {
                if marks@[a] && marks@[b] {
                    assert(lead[a] != lead[b]);
                } else if !marks@[a] && !marks@[b] {
                    assert(mate[a] != mate[b]);
                }
            }
            assert forall|k: int| 0 <= k < n implies (#[trigger] path@[k]) < n by {
                assert(lead[k] < n && mate[k] < n);
            }
        }
        self.chromossome_of(path)
    }

    /// The neighbours of `current` in `parent` that the child does not
    /// hold yet.
    fn open_sides(parent: &Vec<u16>, current: u16, build: &Build) -> (sides: Vec<u16>)
        requires
            build.wf(parent@.len()),
            is_tour(parent@, parent@.len()),
            current < parent@.len(),
        ensures
            sides@ == side_neighbours(parent@, current, build.path@),
            forall|k: int|
                0 <= k < sides@.len() ==> (#[trigger] sides@[k]) < parent@.len()
                    && !build.path@.contains(sides@[k]),
    {
        let n = parent.len();
        proof {
            lemma_full_tour_contains(parent@, n as nat, current);
        }
        let i = position_of(parent, current);
        proof {
            lemma_place(parent@, current, i as int);
        }
        let mut sides: Vec<u16> = Vec::new();
        if i > 0 {
            let before = parent[i - 1];
            assert(parent@[i - 1] < n);
            if !build.seen[before as usize] {
                sides.push(before);
            }
        }
        let ghost first = sides@;
        if i + 1 < n {
            let after = parent[i + 1];
            assert(parent@[i + 1] < n);
            if !build.seen[after as usize] {
                sides.push(after);
            }
        }
        proof {
            assert(sides@ =~= side_neighbours(parent@, current, build.path@));
        }
        sides
    }

    /// The weights of the edges from `current` to each of `edges`.
    fn weigh(&self, current: u16, edges: &Vec<u16>) -> (weights: Vec<u64>)
        requires
            self.wf(),
            current < self.n(),
            edges@.len() <= 4,
            forall|k: int| 0 <= k < edges@.len() ==> (#[trigger] edges@[k]) < self.n(),
        ensures
            weights@.len() == edges@.len(),
            forall|k: int|
                0 <= k < edges@.len() ==> weights@[k] == edge_weight(
                    crate::length::edge(self.distance_matrix@, self.n(), current, #[trigger] edges@[k]),
                ),
            edges@.len() <= total_weight(weights@) <= edges@.len() * 0x4_0000_0000_0000,
    {
        let n = self.cities.len();
        let mut weights: Vec<u64> = Vec::new();
        let mut k: usize = 0;
        while k < edges.len()
            invariant
                self.wf(),
                n == self.n(),
                current < n,
                k <= edges@.len() <= 4,
                forall|w: int| 0 <= w < edges@.len() ==> (#[trigger] edges@[w]) < n,
                weights@.len() == k,
                forall|w: int|
                    0 <= w < k ==> weights@[w] == edge_weight(
                        crate::length::edge(
                            self.distance_matrix@,
                            self.n(),
                            current,
                            #[trigger] edges@[w],
                        ),
                    ),
                k <= total_weight(weights@) <= k * 0x4_0000_0000_0000,
            decreases edges@.len() - k,
        {
            assert(edges@[k as int] < n);
            proof {
                lemma_edge_bounds(self.distance_matrix@, self.n(), current, edges@[k as int]);
            }
            let length = get_in_matrix(
                &self.distance_matrix,
                n,
                current as usize,
                edges[k] as usize,
            );
            let divisor: u64 = if length < 1 {
                1
            } else {
                length
            };
            let weight: u64 = 0x4_0000_0000_0000 / divisor;
            assert(1 <= weight <= 0x4_0000_0000_0000) by (nonlinear_arith)
                requires
                    weight == 0x4_0000_0000_0000int / (divisor as int),
                    1 <= divisor <= 0x800_0000_0000,
            ;
            proof {
                assert(weights@.push(weight).drop_last() =~= weights@);
            }
            weights.push(weight);
            k += 1;
        }
        weights
    }

    /// The neighbours of `current` in the two parents that the child does
    /// not hold yet.
    pub fn open_neighbours(
        parent_1: &Vec<u16>,
        parent_2: &Vec<u16>,
        current: u16,
        build: &Build,
    ) -> (open: Vec<u16>)
        requires
            build.wf(parent_1@.len()),
            is_tour(parent_1@, parent_1@.len()),
            is_tour(parent_2@, parent_1@.len()),
            current < parent_1@.len(),
        ensures
            open@ == parent_neighbours(parent_1@, parent_2@, current, build.path@),
            open@.len() <= 4,
            forall|k: int|
                0 <= k < open@.len() ==> (#[trigger] open@[k]) < parent_1@.len()
                    && !build.path@.contains(open@[k]),
    {
        let first_sides = Self::open_sides(parent_1, current, build);
        let second_sides = Self::open_sides(parent_2, current, build);
        let open = joined(&first_sides, &second_sides);
        proof {
            assert forall|k: int| 0 <= k < open@.len() implies (#[trigger] open@[k])
                < parent_1@.len() && !build.path@.contains(open@[k]) by {
                if k < first_sides@.len() {
                    assert(open@[k] == first_sides@[k]);
                } else {
                    assert(open@[k] == second_sides@[k - first_sides@.len()]);
                }
            }
        }
        open
    }

    /// One step of the heuristic crossover for the pick drawn: on to the
    /// only open neighbour of `current`; where there are several, to the
    /// one picked; where there is none, to the picked one of the points
    /// left.
    pub fn heuristic_step(
        parent_1: &Vec<u16>,
        parent_2: &Vec<u16>,
        build: &Build,
        current: u16,
        pick: usize,
    ) -> (next: u16)
        requires
            build.wf(parent_1@.len()),
            is_tour(parent_1@, parent_1@.len()),
            is_tour(parent_2@, parent_1@.len()),
            current < parent_1@.len(),
            parent_neighbours(parent_1@, parent_2@, current, build.path@).len() > 1 ==> pick
                < parent_neighbours(parent_1@, parent_2@, current, build.path@).len(),
            parent_neighbours(parent_1@, parent_2@, current, build.path@).len() == 0 ==> pick
                < build.unvisited@.len(),
        ensures
            next == heuristic_next(
                parent_1@,
                parent_2@,
                build.path@,
                build.unvisited@,
                current,
                pick as int,
            ),
            next < parent_1@.len(),
            !build.path@.contains(next),
            parent_neighbours(parent_1@, parent_2@, current, build.path@).len() > 0
                ==> parent_neighbours(parent_1@, parent_2@, current, build.path@).contains(next),
    {
        let edges = Self::open_neighbours(parent_1, parent_2, current, build);
        if edges.len() == 1 {
            proof {
                assert(edges@.contains(edges@[0]));
            }
            edges[0]
        } else if edges.len() > 0 {
            proof {
                assert(edges@.contains(edges@[pick as int]));
            }
            edges[pick]
        } else {
            let city = build.unvisited[pick];
            proof {
                assert(build.unvisited@.contains(build.unvisited@[pick as int]));
                assert(build.unvisited@[pick as int] < parent_1@.len());
            }
            city
        }
    }

    /// One step of the edge-recombination crossover: on to the first of
    /// the open neighbours of `current` that has itself the fewest open
    /// neighbours; where there is none, to the picked one of the points
    /// left.
    pub fn edge_recombination_step(
        parent_1: &Vec<u16>,
        parent_2: &Vec<u16>,
        build: &Build,
        current: u16,
        pick: usize,
    ) -> (next: u16)
        requires
            build.wf(parent_1@.len()),
            parent_1@.len() >= 1,
            is_tour(parent_1@, parent_1@.len()),
            is_tour(parent_2@, parent_1@.len()),
            current < parent_1@.len(),
            open_edges(parent_1@, parent_2@, current, build.path@).len() == 0 ==> pick
                < build.unvisited@.len(),
        ensures
            next == edge_recombination_next(
                parent_1@,
                parent_2@,
                build.path@,
                build.unvisited@,
                current,
                pick as int,
            ),
            next < parent_1@.len(),
            !build.path@.contains(next),
            open_edges(parent_1@, parent_2@, current, build.path@).len() > 0 ==> {
                &&& open_edges(parent_1@, parent_2@, current, build.path@).contains(next)
                &&& forall|x: u16|
                    open_edges(parent_1@, parent_2@, current, build.path@).contains(x)
                        ==> open_edges(parent_1@, parent_2@, next, build.path@).len() <= (
                    #[trigger] open_edges(parent_1@, parent_2@, x, build.path@)).len()
            },
    {
        let ghost lead = parent_1@;
        let ghost mate = parent_2@;
        let n = parent_1.len();
        let open = Self::open_edges_of(parent_1, parent_2, current, build);
        if open.len() > 0 {
            let mut less_cities = open[0];
            let mut fewest = Self::open_edges_of(parent_1, parent_2, less_cities, build).len();
            let mut k: usize = 1;
            while k < open.len()
                invariant
                    1 <= k <= open@.len(),
                    n == lead.len(),
                    n >= 1,
                    lead == parent_1@,
                    mate == parent_2@,
                    is_tour(lead, n as nat),
                    is_tour(mate, n as nat),
                    build.wf(n as nat),
                    forall|w: int|
                        0 <= w < open@.len() ==> (#[trigger] open@[w]) < n && !build.path@.contains(
                            open@[w],
                        ),
                    less_cities == fewest_upto(lead, mate, open@, build.path@, k as int),
                    open@.contains(less_cities),
                    less_cities < n,
                    fewest == open_edges(lead, mate, less_cities, build.path@).len(),
                    forall|w: int|
                        0 <= w < k ==> fewest <= open_edges(
                            lead,
                            mate,
                            #[trigger] open@[w],
                            build.path@,
                        ).len(),
                decreases open@.len() - k,
            {
                let rival = open[k];
                let count = Self::open_edges_of(parent_1, parent_2, rival, build).len();
                if count < fewest {
                    less_cities = rival;
                    fewest = count;
                }
                k += 1;
            }
            proof {
                let w = choose|w: int| 0 <= w < open@.len() && open@[w] == less_cities;
                assert(!build.path@.contains(open@[w]));
                assert forall|x: u16| open@.contains(x) implies open_edges(
                    lead,
                    mate,
                    less_cities,
                    build.path@,
                ).len() <= (#[trigger] open_edges(lead, mate, x, build.path@)).len() by {
                    let v = choose|v: int| 0 <= v < open@.len() && open@[v] == x;
                    assert(open@[v] == x);
                }
            }
            less_cities
        } else {
            let city = build.unvisited[pick];
            proof {
                assert(build.unvisited@.contains(build.unvisited@[pick as int]));
                assert(build.unvisited@[pick as int] < n);
            }
            city
        }
    }

    /// The heuristic crossover: the child starts at a point of the first
    /// parent drawn at random, not its last, and goes on, wherever it can,
    /// to a neighbour of its last point in one of the parents: to the only
    /// such neighbour, or to one drawn with a chance that falls with its
    /// distance. Where there is none, it goes on to a point drawn from
    /// those left.
    pub fn heuristic_crossover(&mut self, parent_1: &Chromossome, parent_2: &Chromossome) -> (child:
        Chromossome)
        requires
            old(self).wf(),
            parent_1.is_valid(old(self).distance_matrix@, old(self).n()),
            parent_2.is_valid(old(self).distance_matrix@, old(self).n()),
        ensures
            final(self).same_task(old(self)),
            final(self).generations == old(self).generations,
            final(self).mutations == old(self).mutations,
            final(self).crossover@ == "heuristic_crossover"@,
            child.is_valid(old(self).distance_matrix@, old(self).n()),
            child.mutation@ == Seq::<char>::empty(),
            exists|k: int| 0 <= k < old(self).n() - 1 && child.path@[0] == #[trigger] parent_1.path@[k],
            follows_parents(child.path@, parent_1.path@, parent_2.path@),
    {
        self.crossover = "heuristic_crossover".to_owned();
        let n = parent_1.path.len();
        let ghost lead = parent_1.path@;
        let ghost mate = parent_2.path@;
        let mut build = Build::new(&parent_1.path);
        let first_at = draw_between(&mut self.rng, 0, n - 1);
        let mut current = build.unvisited[first_at];
        assert(lead[first_at as int] < n);
        build.visit(current, n);
        while build.path.len() < n
            invariant
                self.wf(),
                self.same_task(old(self)),
                self.generations == old(self).generations,
                self.mutations == old(self).mutations,
                self.crossover@ == "heuristic_crossover"@,
                n == self.n(),
                lead == parent_1.path@,
                mate == parent_2.path@,
                is_tour(lead, n as nat),
                is_tour(mate, n as nat),
                build.wf(n as nat),
                build.path@.len() >= 1,
                current == build.path@.last(),
                current < n,
                build.path@[0] == lead[first_at as int],
                follows_parents(build.path@, lead, mate),
            decreases n - build.path@.len(),
        {
            let edges = Self::open_neighbours(&parent_1.path, &parent_2.path, current, &build);
            let pick = if edges.len() == 1 {
                0
            } else if edges.len() > 0 {
                let probabilities = self.weigh(current, &edges);
                assert(edges@.len() * 0x4_0000_0000_0000 <= 0x10_0000_0000_0000) by (nonlinear_arith)
                    requires
                        edges@.len() <= 4,
                ;
                weighted_index(&mut self.rng, &probabilities)
            } else {
                draw_between(&mut self.rng, 0, build.unvisited.len())
            };
            let next = Self::heuristic_step(&parent_1.path, &parent_2.path, &build, current, pick);
            let ghost before = build.path@;
            build.visit(next, n);
            proof {
                assert forall|k: int|
                    0 <= k < build.path@.len() - 1 && parent_neighbours(
                        lead,
                        mate,
                        build.path@[k],
                        build.path@.take(k + 1),
                    ).len() > 0 implies parent_neighbours(
                    lead,
                    mate,
                    build.path@[k],
                    build.path@.take(k + 1),
                ).contains(#[trigger] build.path@[k + 1]) by {
                    if k < before.len() - 1 {
                        assert(build.path@.take(k + 1) =~= before.take(k + 1));
                        assert(build.path@[k] == before[k]);
                        assert(build.path@[k + 1] == before[k + 1]);
                    } else {
                        assert(build.path@.take(k + 1) =~= before);
                        assert(build.path@[k] == current);
                        if edges@.len() > 0 {
                            assert(edges@.contains(next));
                        }
                    }
                }
            }
            current = next;
        }
        let Build { path, unvisited, seen } = build;
        self.chromossome_of(path)
    }

    /// The different neighbours of `city` in the two parents, taken as
    /// rings, that the child does not hold yet.
    fn open_edges_of(parent_1: &Vec<u16>, parent_2: &Vec<u16>, city: u16, build: &Build) -> (open:
        Vec<u16>)
        requires
            build.wf(parent_1@.len()),
            parent_1@.len() >= 1,
            is_tour(parent_1@, parent_1@.len()),
            is_tour(parent_2@, parent_1@.len()),
            city < parent_1@.len(),
        ensures
            open@ == open_edges(parent_1@, parent_2@, city, build.path@),
            open@.len() <= 4,
            forall|k: int|
                0 <= k < open@.len() ==> (#[trigger] open@[k]) < parent_1@.len()
                    && !build.path@.contains(open@[k]),
    {
        let n = parent_1.len();
        proof {
            lemma_full_tour_contains(parent_1@, n as nat, city);
            lemma_full_tour_contains(parent_2@, n as nat, city);
        }
        let i = position_of(parent_1, city);
        let j = position_of(parent_2, city);
        proof {
            lemma_place(parent_1@, city, i as int);
            lemma_place(parent_2@, city, j as int);
        }
        let mut around: Vec<u16> = Vec::with_capacity(4);
        around.push(parent_1[(i + 1) % n]);
        around.push(parent_1[(i + n - 1) % n]);
        around.push(parent_2[(j + 1) % n]);
        around.push(parent_2[(j + n - 1) % n]);
        proof {
            assert(around@[0] == ring_neighbours(parent_1@, city)[0]);
            assert(around@[1] == ring_neighbours(parent_1@, city)[1]);
            assert(around@[2] == ring_neighbours(parent_2@, city)[0]);
            assert(around@[3] == ring_neighbours(parent_2@, city)[1]);
            assert(parent_1@[(i + 1) % (n as int)] < n);
            assert(parent_1@[(i + n - 1) % (n as int)] < n);
            assert(parent_2@[(j + 1) % (n as int)] < n);
            assert(parent_2@[(j + n - 1) % (n as int)] < n);
        }
        let mut open: Vec<u16> = Vec::with_capacity(4);
        let mut k: usize = 0;
        while k < 4
            invariant
                k <= 4,
                around@.len() == 4,
                build.wf(n as nat),
                forall|w: int| 0 <= w < 4 ==> (#[trigger] around@[w]) < n,
                open@.len() <= k,
                forall|w: int|
                    0 <= w < open@.len() ==> (#[trigger] open@[w]) < n && !build.path@.contains(
                        open@[w],
                    ),
                k == 0 ==> open@ == Seq::<u16>::empty(),
                k == 1 ==> open@ == with_open(Seq::<u16>::empty(), around@[0], build.path@),
                k == 2 ==> open@ == with_open(
                    with_open(Seq::<u16>::empty(), around@[0], build.path@),
                    around@[1],
                    build.path@,
                ),
                k == 3 ==> open@ == with_open(
                    with_open(
                        with_open(Seq::<u16>::empty(), around@[0], build.path@),
                        around@[1],
                        build.path@,
                    ),
                    around@[2],
                    build.path@,
                ),
                k == 4 ==> open@ == with_open(
                    with_open(
                        with_open(
                            with_open(Seq::<u16>::empty(), around@[0], build.path@),
                            around@[1],
                            build.path@,
                        ),
                        around@[2],
                        build.path@,
                    ),
                    around@[3],
                    build.path@,
                ),
            decreases 4 - k,
        {
            let city_k = around[k];
            assert(around@[k as int] < n);
            if !build.seen[city_k as usize] && !crate::tour::contains(&open, city_k) {
                open.push(city_k);
            }
            k += 1;
        }
        open
    }

    /// The edge-recombination crossover: the child starts at a point of the
    /// first parent drawn at random, not its last, and goes on, wherever it
    /// can, to that neighbour of its last point in one of the parents which
    /// has itself the fewest neighbours left. Where there is none, it goes
    /// on to a point drawn from those left.
    pub fn genetic_edge_recombination_crossover(
        &mut self,
        parent_1: &Chromossome,
        parent_2: &Chromossome,
    ) -> (child: Chromossome)
        requires
            old(self).wf(),
            parent_1.is_valid(old(self).distance_matrix@, old(self).n()),
            parent_2.is_valid(old(self).distance_matrix@, old(self).n()),
        ensures
            final(self).same_task(old(self)),
            final(self).generations == old(self).generations,
            final(self).mutations == old(self).mutations,
            final(self).crossover@ == "genetic_edge_recombination_crossover"@,
            child.is_valid(old(self).distance_matrix@, old(self).n()),
            child.mutation@ == Seq::<char>::empty(),
            exists|k: int| 0 <= k < old(self).n() - 1 && child.path@[0] == #[trigger] parent_1.path@[k],
            follows_edges(child.path@, parent_1.path@, parent_2.path@),
    {
        self.crossover = "genetic_edge_recombination_crossover".to_owned();
        let n = parent_1.path.len();
        let ghost lead = parent_1.path@;
        let ghost mate = parent_2.path@;
        let mut build = Build::new(&parent_1.path);
        let first_at = draw_between(&mut self.rng, 0, n - 1);
        let mut current = build.unvisited[first_at];
        assert(lead[first_at as int] < n);
        build.visit(current, n);
        while build.path.len() < n
            invariant
                self.wf(),
                self.same_task(old(self)),
                self.generations == old(self).generations,
                self.mutations == old(self).mutations,
                self.crossover@ == "genetic_edge_recombination_crossover"@,
                n == self.n(),
                lead == parent_1.path@,
                mate == parent_2.path@,
                is_tour(lead, n as nat),
                is_tour(mate, n as nat),
                build.wf(n as nat),
                build.path@.len() >= 1,
                current == build.path@.last(),
                current < n,
                build.path@[0] == lead[first_at as int],
                follows_edges(build.path@, lead, mate),
            decreases n - build.path@.len(),
        {
            let open = Self::open_edges_of(&parent_1.path, &parent_2.path, current, &build);
            let pick = if open.len() > 0 {
                0
            } else {
                draw_between(&mut self.rng, 0, build.unvisited.len())
            };
            let next = Self::edge_recombination_step(
                &parent_1.path,
                &parent_2.path,
                &build,
                current,
                pick,
            );
            let ghost before = build.path@;
            build.visit(next, n);
            proof {
                assert forall|k: int|
                    0 <= k < build.path@.len() - 1 && open_edges(
                        lead,
                        mate,
                        build.path@[k],
                        build.path@.take(k + 1),
                    ).len() > 0 implies {
                    &&& open_edges(lead, mate, build.path@[k], build.path@.take(k + 1)).contains(
                        #[trigger] build.path@[k + 1],
                    )
                    &&& forall|x: u16|
                        open_edges(lead, mate, build.path@[k], build.path@.take(k + 1)).contains(x)
                            ==> open_edges(
                            lead,
                            mate,
                            build.path@[k + 1],
                            build.path@.take(k + 1),
                        ).len() <= (#[trigger] open_edges(
                            lead,
                            mate,
                            x,
                            build.path@.take(k + 1),
                        )).len()
                } by {
                    if k < before.len() - 1 {
                        assert(build.path@.take(k + 1) =~= before.take(k + 1));
                        assert(build.path@[k] == before[k]);
                        assert(build.path@[k + 1] == before[k + 1]);
                    } else {
                        assert(build.path@.take(k + 1) =~= before);
                        assert(build.path@[k] == current);
                        assert(build.path@[k + 1] == next);
                    }
                }
            }
            current = next;
        }
        let Build { path, unvisited, seen } = build;
        self.chromossome_of(path)
    }

    /// A variant of the cycle crossover: from the first point of the second
    /// parent that the child lacks, the child takes every second point on
    /// the way that leads from a point to the point which the second
    /// parent holds where the first parent holds this one, until that way
    /// comes to a point that the child has; and so on until the child is
    /// complete.
    pub fn cycle_crossover_v2(&mut self, parent_1: &Chromossome, parent_2: &Chromossome) -> (child:
        Chromossome)
        requires
            old(self).wf(),
            parent_1.is_valid(old(self).distance_matrix@, old(self).n()),
            parent_2.is_valid(old(self).distance_matrix@, old(self).n()),
        ensures
            final(self).same_task(old(self)),
            final(self).generations == old(self).generations,
            final(self).mutations == old(self).mutations,
            final(self).crossover@ == "cycle_crossover_v2"@,
            child.is_valid(old(self).distance_matrix@, old(self).n()),
            child.mutation@ == Seq::<char>::empty(),
            child.path@ == skipping_child(parent_1.path@, parent_2.path@),
            child.path@[0] == parent_2.path@[0],
    {
        self.crossover = "cycle_crossover_v2".to_owned();
        let n = parent_1.path.len();
        let ghost lead = parent_1.path@;
        let ghost mate = parent_2.path@;
        let mut path: Vec<u16> = Vec::with_capacity(n);
        let empty: Vec<u16> = Vec::new();
        let mut seen = membership(&empty, n);
        let mut from: usize = 0;
        let ghost mut rounds: nat = n as nat;
        loop
            invariant_except_break
                path@.len() < n ==> from < n,
            invariant
                n == lead.len(),
                2 <= n <= 0xffff,
                lead == parent_1.path@,
                mate == parent_2.path@,
                is_tour(lead, n as nat),
                is_tour(mate, n as nat),
                path@.no_duplicates(),
                in_range(path@, n as nat),
                seen@.len() == n,
                forall|c: int| 0 <= c < n ==> #[trigger] seen@[c] == path@.contains(c as u16),
                from <= n,
                forall|k: int| 0 <= k < from ==> path@.contains(#[trigger] mate[k]),
                rounds + path@.len() >= n,
                skipping_child(lead, mate) == skipped_on(lead, mate, path@, rounds),
                path@.len() > 0 ==> path@[0] == mate[0],
            ensures
                from == n,
                skipping_child(lead, mate) == path@,
            decreases n - path@.len(), n - from,
        {
            proof {
                lemma_first_missing_skips(mate, path@, 0, from as int);
                assert(in_range(path@, n as nat));
                crate::tour::lemma_partial_tour_len(path@, n as nat);
            }
            if from == n {
                break ;
            }
            assert(mate[from as int] < n);
            if seen[parent_2.path[from] as usize] {
                proof {
                    assert(path@.contains(mate[from as int]));
                    if path@.len() >= n {
                    } else {
                        lemma_unvisited_in(mate, path@, n as nat, from + 1);
                    }
                }
                from += 1;
                if from == n {
                    proof {
                        lemma_first_missing_skips(mate, path@, 0, n as int);
                    }
                    break ;
                }
                continue ;
            }
            let start = parent_2.path[from];
            proof {
                lemma_first_missing_skips(mate, path@, 0, from as int);
                assert(first_missing_at(mate, path@, 0) == from);
                if path@.len() == 0 {
                    assert(from == 0);
                }
            }
            let mut current = start;
            let mut even = true;
            let ghost at_start = path@;
            let ghost mut fuel: nat = (2 * n) as nat;
            loop
                invariant
                    !at_start.contains(start),
                    at_start.len() == 0 ==> start == mate[0],
                    n == lead.len(),
                    2 <= n <= 0xffff,
                    lead == parent_1.path@,
                    mate == parent_2.path@,
                    is_tour(lead, n as nat),
                    is_tour(mate, n as nat),
                    path@.no_duplicates(),
                    in_range(path@, n as nat),
                    seen@.len() == n,
                    forall|c: int| 0 <= c < n ==> #[trigger] seen@[c] == path@.contains(c as u16),
                    current < n,
                    path@.len() <= n,
                    at_start.len() <= path@.len(),
                    forall|c: u16| at_start.contains(c) ==> #[trigger] path@.contains(c),
                    path@.len() == at_start.len() ==> even && current == start && path@ == at_start,
                    fuel >= 2 * (n - path@.len()) + (if even { 0int } else { 1int }),
                    walked(lead, mate, at_start, start, true, (2 * n) as nat) == walked(
                        lead,
                        mate,
                        path@,
                        current,
                        even,
                        fuel,
                    ),
                    path@.len() > 0 ==> path@[0] == mate[0],
                ensures
                    path@ == walked(lead, mate, at_start, start, true, (2 * n) as nat),
                    path@.len() > at_start.len(),
                    forall|c: u16| at_start.contains(c) ==> #[trigger] path@.contains(c),
                decreases 2 * (n - path@.len()) + (if even { 0int } else { 1int }),
            {
                if even {
                    if seen[current as usize] {
                        break ;
                    }
                    proof {
                        lemma_push_contains(path@, current);
                        crate::tour::lemma_partial_tour_len(path@.push(current), n as nat);
                    }
                    let ghost before = path@;
                    path.push(current);
                    seen.set(current as usize, true);
                    proof {
                        assert forall|k: int| 0 <= k < path@.len() implies (#[trigger] path@[k])
                            < n by {
                            if k < before.len() {
                                assert(path@[k] == before[k]);
                            }
                        }
                        if before.len() > 0 {
                            assert(path@[0] == before[0]);
                        }
                    }
                }
                proof {
                    lemma_full_tour_contains(lead, n as nat, current);
                }
                let i = position_of(&parent_1.path, current);
                proof {
                    lemma_place(lead, current, i as int);
                    assert(mate[i as int] < n);
                    fuel = (fuel - 1) as nat;
                }
                current = parent_2.path[i];
                even = !even;
            }
            proof {
                rounds = (rounds - 1) as nat;
            }
        }
        proof {
            assert forall|c: u16| c < n implies #[trigger] path@.contains(c) by {
                lemma_full_tour_contains(mate, n as nat, c);
                let k = choose|k: int| 0 <= k < mate.len() && mate[k] == c;
                assert(path@.contains(mate[k]));
            }
            lemma_tour_by_cover(path@, n as nat);
        }
        self.chromossome_of(path)
    }

    /// Notes that the mutation of this name has shortened the best tour:
    /// the name is added to the names noted unless it is among them.
    fn record_mutation(&mut self, mutation: &String)
        ensures
            final(self).same_task(old(self)),
            final(self).generations == old(self).generations,
            final(self).crossover == old(self).crossover,
            final(self).mutations@ == if old(self).has_noted(mutation@) {
                old(self).mutations@
            } else {
                old(self).mutations@.push(*mutation)
            },
    {
        let mut i: usize = 0;
        while i < self.mutations.len()
            invariant
                i <= self.mutations@.len(),
                self.same_task(old(self)),
                self.generations == old(self).generations,
                self.crossover == old(self).crossover,
                self.mutations@ == old(self).mutations@,
                forall|k: int| 0 <= k < i ==> (#[trigger] self.mutations@[k])@ != mutation@,
            decreases self.mutations@.len() - i,
        {
            if self.mutations[i] == *mutation {
                return ;
            }
            i += 1;
        }
        self.mutations.push(mutation.clone());
    }

    /// Counts one generation.
    fn count_generation(&mut self)
        ensures
            final(self).same_task(old(self)),
            final(self).crossover == old(self).crossover,
            final(self).mutations == old(self).mutations,
            final(self).generations == if old(self).generations < u32::MAX {
                (old(self).generations + 1) as u32
            } else {
                old(self).generations
            },
    {
        if self.generations < u32::MAX {
            self.generations += 1;
        }
    }

    /// Offers `child` to the population: where it is shorter than the
    /// longest chromosome, it takes the place of the first chromosome equal
    /// to that one and stands last; otherwise the population stays as it
    /// is.
    pub fn offer_child(population: &mut Vec<Chromossome>, child: Chromossome) -> (replaced: bool)
        requires
            old(population)@.len() > 0,
        ensures
            is_offer_outcome(final(population)@, old(population)@, child, replaced),
    {
        let worst = Self::worst_position(population);
        if child.distance < population[worst].distance {
            let ghost before = population@;
            let at = Self::find_chromossome(population, &population[worst]);
            population.remove(at);
            population.push(child);
            proof {
                assert(is_longest_at(before, worst as int));
                assert(is_first_like(before, at as int, before[worst as int]));
                assert(takes_place_of(population@, before, child, before[worst as int]));
            }
            true
        } else {
            proof {
                assert(is_longest_at(population@, worst as int));
            }
            false
        }
    }

    /// The adaptive control of one generation: the number of exchanges
    /// falls by one, but not below one, with a new best chromosome, and the
    /// count of stalled generations starts again; otherwise that count
    /// rises by one. Where it then outruns the patience, the patience
    /// doubles and the number of exchanges rises by one, or starts again at
    /// one where it has reached the number of points. The result holds the
    /// number of exchanges, the patience and the count, in this order.
    pub fn adapt(swap: usize, patience: usize, stalled: usize, improved: bool, n: usize) -> (next: (
        usize,
        usize,
        usize,
    ))
        requires
            stalled < 0x3fff_ffff,
        ensures
            (next.0 as int, next.1 as int, next.2 as int) == adapted(
                swap as int,
                patience as int,
                stalled as int,
                improved,
                n as int,
            ),
    {
        let eased = if improved && swap > 1 {
            swap - 1
        } else {
            swap
        };
        let waited = if improved {
            0
        } else {
            stalled + 1
        };
        if waited > patience {
            (
                if eased < n {
                    eased + 1
                } else {
                    1
                },
                patience * 2,
                waited,
            )
        } else {
            (eased, patience, waited)
        }
    }

    /// Breeds the population until 200000 generations in a row have
    /// brought no chromosome shorter than all before.
    ///
    /// Each generation crosses two parents by the partially-mapped
    /// crossover, mutates the child, offers it to the population by
    /// `offer_child` and adapts the number of exchanges by `adapt`.
    ///
    /// No survivor is longer than the longest chromosome handed in; every
    /// survivor was handed in or is shorter than that one; and the shortest
    /// survivor is no longer than any chromosome handed in, nor than any
    /// child of a generation, whose lengths are added to `offered`.
    pub fn execute_for_population(&mut self, population: Vec<Chromossome>, initial_swap: usize) -> (survivors:
        Vec<Chromossome>)
        requires
            old(self).wf(),
            population@.len() >= 2,
            old(self).is_population(population@),
        ensures
            final(self).wf(),
            final(self).cities == old(self).cities,
            final(self).distance_matrix == old(self).distance_matrix,
            final(self).crossover@ == "partially_mapped_crossover"@,
            final(self).generations == u32::MAX || final(self).generations >= old(self).generations
                + 200000,
            final(self).offered@.len() >= old(self).offered@.len() + 200000,
            survivors@.len() == population@.len(),
            final(self).is_population(survivors@),
            exists|worst: int| #[trigger]
                is_longest_at(population@, worst) && forall|k: int|
                    0 <= k < survivors@.len() ==> (#[trigger] survivors@[k]).distance
                        <= population@[worst].distance && (survivors@[k].distance
                        < population@[worst].distance || is_member(population@, survivors@[k])),
            exists|k: int|
                0 <= k < survivors@.len() && final(self).leads_since(
                    old(self),
                    (#[trigger] survivors@[k]).distance,
                ) && (forall|j: int|
                    0 <= j < population@.len() ==> survivors@[k].distance <= (
                    #[trigger] population@[j]).distance) && (forall|j: int|
                    0 <= j < survivors@.len() ==> survivors@[k].distance <= (
                    #[trigger] survivors@[j]).distance),
    {
        let ghost first = population@;
        let mut population = population;
        let mut best = self.get_best_chromossome(&population);
        let mut gen_not_changed_best: usize = 0;
        let mut gen_not_changed_best_limit: usize = self.cities.len();
        let gen_not_changed_best_breakpoint: usize = 200000;
        let mut swap = initial_swap;
        let longest_at = Self::worst_position(&population);
        let ghost longest: int = longest_at as int;
        let ghost mut witness: int = choose|k: int|
            0 <= k < population@.len() && best.same_as(&#[trigger] population@[k]);
        proof {
            assert forall|k: int| 0 <= k < first.len() implies is_member(first, #[trigger] first[k]) by {
                assert(first[k].same_as(&first[k]));
            }
        }
        proof {
            assert(self.offered@.take(self.offered@.len() as int) =~= self.offered@);
        }
        while gen_not_changed_best < gen_not_changed_best_breakpoint
            invariant
                self.wf(),
                self.cities == old(self).cities,
                self.distance_matrix == old(self).distance_matrix,
                self.leads_since(old(self), population@[witness].distance),
                self.offered@.len() >= old(self).offered@.len() + gen_not_changed_best,
                forall|j: int|
                    0 <= j < population@.len() ==> population@[witness].distance <= (
                    #[trigger] population@[j]).distance,
                population@.len() == first.len(),
                population@.len() >= 2,
                self.is_population(population@),
                is_longest_at(first, longest),
                forall|k: int|
                    0 <= k < population@.len() ==> (#[trigger] population@[k]).distance
                        <= first[longest].distance && (population@[k].distance
                        < first[longest].distance || is_member(first, population@[k])),
                0 <= witness < population@.len(),
                forall|j: int|
                    0 <= j < first.len() ==> population@[witness].distance <= first[j].distance,
                gen_not_changed_best <= gen_not_changed_best_breakpoint,
                gen_not_changed_best_breakpoint == 200000,
                gen_not_changed_best > 0 ==> self.crossover@ == "partially_mapped_crossover"@,
                self.generations == u32::MAX || self.generations >= old(self).generations
                    + gen_not_changed_best,
            decreases best.distance, gen_not_changed_best_breakpoint - gen_not_changed_best,
        {
            let (parent_1, parent_2) = self.select_parents(&population);
            let crossed = self.partially_mapped_crossover(&parent_1, &parent_2);
            let children = crossed.mutate(&self.distance_matrix, swap, &mut self.rng);
            let ghost before = population@;
            let offered = children.clone();
            let ghost given = offered;
            let replaced = Self::offer_child(&mut population, offered);
            let ghost noted = self.offered@;
            let ghost led = witness;
            self.offered = Ghost(noted.push(given.distance));
            proof {
                assert(self.offered@.take(old(self).offered@.len() as int) =~= noted.take(
                    old(self).offered@.len() as int,
                ));
                let worst = choose|worst: int|
                    {
                        &&& #[trigger] is_longest_at(before, worst)
                        &&& replaced == (given.distance < before[worst].distance)
                        &&& if replaced {
                            takes_place_of(population@, before, given, before[worst])
                        } else {
                            population@ == before
                        }
                    };
                if replaced {
                    let at = choose|at: int| #[trigger]
                        is_first_like(before, at, before[worst]) && population@ == before.remove(
                            at,
                        ).push(given);
                    assert(before[worst].distance <= first[longest].distance);
                    assert forall|k: int| 0 <= k < population@.len() implies (
                    #[trigger] population@[k]).is_valid(self.distance_matrix@, self.n())
                        && population@[k].distance <= first[longest].distance && (
                    population@[k].distance < first[longest].distance || is_member(
                        first,
                        population@[k],
                    )) by {
                        if k < population@.len() - 1 {
                            let from = if k < at {
                                k
                            } else {
                                k + 1
                            };
                            assert(population@[k] == before[from]);
                            assert(before[from].is_valid(self.distance_matrix@, self.n()));
                        }
                    }
                    if given.distance < before[led].distance {
                        witness = population@.len() - 1;
                    } else if witness > at {
                        assert(population@[witness - 1] == before[witness]);
                        witness = witness - 1;
                    } else {
                        assert(before[at].distance == before[worst].distance);
                        assert(population@[witness] == before[witness]);
                    }
                    assert forall|j: int| 0 <= j < population@.len() implies population@[witness].distance
                        <= (#[trigger] population@[j]).distance by {
                        if j < population@.len() - 1 {
                            let from = if j < at {
                                j
                            } else {
                                j + 1
                            };
                            assert(population@[j] == before[from]);
                            assert(before[led].distance <= before[from].distance);
                        }
                    }
                } else {
                    assert(before[led].distance <= before[worst].distance);
                }
                assert(population@[witness].distance <= before[led].distance);
                assert forall|g: int|
                    old(self).offered@.len() <= g < self.offered@.len() implies population@[witness].distance
                    <= #[trigger] self.offered@[g] by {
                    if g < noted.len() {
                        assert(self.offered@[g] == noted[g]);
                    }
                }
            }
            let improved = replaced && children.distance < best.distance;
            if improved {
                best = children;
                self.record_mutation(&best.mutation);
            }
            let next = Self::adapt(
                swap,
                gen_not_changed_best_limit,
                gen_not_changed_best,
                improved,
                self.cities.len(),
            );
            swap = next.0;
            gen_not_changed_best_limit = next.1;
            gen_not_changed_best = next.2;
            self.count_generation();
        }
        population
    }

    /// Mutates one chromosome, keeping each mutation that shortens it,
    /// until 500000 generations in a row have brought no shorter one. The
    /// number of exchanges adapts by `adapt`. The length of what each
    /// generation's mutation gave is added to `offered`, and the chromosome
    /// returned is no longer than any of them.
    pub fn execute_for_one_population_army(&mut self, first_gen: &Chromossome, initial_swap: usize) -> (last_gen:
        Chromossome)
        requires
            old(self).wf(),
            first_gen.is_valid(old(self).distance_matrix@, old(self).n()),
        ensures
            final(self).wf(),
            final(self).cities == old(self).cities,
            final(self).distance_matrix == old(self).distance_matrix,
            final(self).crossover == old(self).crossover,
            final(self).generations == u32::MAX || final(self).generations >= old(self).generations
                + 500000,
            final(self).offered@.len() >= old(self).offered@.len() + 500000,
            final(self).leads_since(old(self), last_gen.distance),
            last_gen.is_valid(old(self).distance_matrix@, old(self).n()),
            last_gen.distance <= first_gen.distance,
            last_gen.distance == first_gen.distance ==> last_gen.same_as(first_gen),
    {
        let mut previous_distance = first_gen.distance;
        let mut gen_not_changed_best: usize = 0;
        let mut gen_not_changed_best_limit: usize = self.cities.len();
        let gen_not_changed_best_breakpoint: usize = 500000;
        let mut swap = initial_swap;
        let mut current_gen = first_gen.clone();
        proof {
            assert(self.offered@.take(self.offered@.len() as int) =~= self.offered@);
        }
        while gen_not_changed_best < gen_not_changed_best_breakpoint
            invariant
                self.wf(),
                self.cities == old(self).cities,
                self.distance_matrix == old(self).distance_matrix,
                self.leads_since(old(self), current_gen.distance),
                self.offered@.len() >= old(self).offered@.len() + gen_not_changed_best,
                self.crossover == old(self).crossover,
                current_gen.is_valid(self.distance_matrix@, self.n()),
                current_gen.distance <= first_gen.distance,
                current_gen.distance == first_gen.distance ==> current_gen.same_as(first_gen),
                previous_distance == current_gen.distance,
                gen_not_changed_best <= gen_not_changed_best_breakpoint,
                gen_not_changed_best_breakpoint == 500000,
                self.generations == u32::MAX || self.generations >= old(self).generations
                    + gen_not_changed_best,
            decreases previous_distance, gen_not_changed_best_breakpoint - gen_not_changed_best,
        {
            let new_gen = current_gen.clone().mutate(&self.distance_matrix, swap, &mut self.rng);
            let ghost noted = self.offered@;
            self.offered = Ghost(noted.push(new_gen.distance));
            proof {
                assert(self.offered@.take(old(self).offered@.len() as int) =~= noted.take(
                    old(self).offered@.len() as int,
                ));
                assert forall|g: int|
                    old(self).offered@.len() <= g < self.offered@.len() implies (if previous_distance
                    > new_gen.distance {
                    new_gen.distance
                } else {
                    current_gen.distance
                }) <= #[trigger] self.offered@[g] by {
                    if g < noted.len() {
                        assert(self.offered@[g] == noted[g]);
                    }
                }
            }
            let improved = previous_distance > new_gen.distance;
            if improved {
                previous_distance = new_gen.distance;
                self.record_mutation(&new_gen.mutation);
                current_gen = new_gen;
            }
            let next = Self::adapt(
                swap,
                gen_not_changed_best_limit,
                gen_not_changed_best,
                improved,
                self.cities.len(),
            );
            swap = next.0;
            gen_not_changed_best_limit = next.1;
            gen_not_changed_best = next.2;
            self.count_generation();
        }
        current_gen
    }
}

impl Algorithm for Genetic {
    open spec fn instance(&self) -> Seq<City> {
        self.cities@
    }

    open spec fn distances(&self) -> Seq<u64> {
        self.distance_matrix@
    }

    open spec fn ready(&self) -> bool {
        self.wf()
    }

    /// Breeds a population of 100 random tours, or mutates a single one
    /// where there are more than 1000 points, and returns the shortest
    /// tour at the end together with the first tour of the first
    /// population. The tour returned is no longer than that one, nor than
    /// any child of a generation of the run.
    fn execute(&mut self) -> (response: ExecuteResponse)
        ensures
            response.initial_path@.len() > 0,
            final(self).leads_since(old(self), response.distance),
            final(self).offered@.len() >= old(self).offered@.len() + 200000,
    {
        let start_time = clock_now();
        let len_cities = self.cities.len();
        let population_size: usize = if len_cities > 1000 {
            1
        } else {
            100
        };
        let mut population = self.create_random_population(population_size);
        let first_gen_best_path = population[0].path.clone();
        let ghost first_distance = population@[0].distance;
        assert(population@[0].is_valid(self.distance_matrix@, self.n()));
        let swap: usize = 1;
        if population_size == 1 {
            let last = self.execute_for_one_population_army(&population[0], swap);
            population.set(0, last);
        } else {
            population = self.execute_for_population(population, swap);
        }
        let metadata = describe_run(
            population_size,
            self.generations,
            &self.crossover,
            &self.mutations,
        );
        let at = Self::best_position(&population);
        proof {
            assert(population@[at as int].is_valid(self.distance_matrix@, self.n()));
            assert(population@[at as int].distance <= first_distance);
        }
        ExecuteResponse::new(
            first_gen_best_path,
            population[at].path.clone(),
            population[at].distance,
            clock_elapsed(&start_time),
            metadata,
        )
    }
}

} // verus!
