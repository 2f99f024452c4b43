//! Exact search: depth-first over the orderings that start at point 0, cut
//! wherever the walk so far is already no shorter than the best tour known,
//! and given up altogether once a ceiling on the number of calls is hit.

use vstd::prelude::*;

use super::algorithm::{clock_elapsed, clock_now, is_instance, Algorithm, ExecuteResponse};
use crate::distance::{create_distance_matrix, entry, get_in_matrix};
use crate::length::{
    in_range, lemma_edge_bounds, lemma_open_length_bounds, lemma_prefix_no_longer,
    lemma_tour_length_rotation, open_length, tour_length,
};
use crate::models::city::City;
use crate::tour::{
    is_partial_tour, is_tour, lemma_covering_len, lemma_full_tour_contains, lemma_rotated_tour,
    rotated,
};

verus! {

/// The state of an exact search.
pub struct BranchAndBound {
    pub cities: Vec<City>,
    pub size: usize,
    pub distance_matrix: Vec<u64>,
    /// The length of the best tour found, `u64::MAX` while there is none.
    pub best_cost: u64,
    pub best_path: Vec<u16>,
    /// The calls made so far, all searches of this engine together.
    pub call_count: usize,
    pub max_call_count: usize,
    /// Whether the ceiling has ended a branch of the search.
    pub cut_short: bool,
}

/// `tour` is a tour through `n` points that begins with `prefix`.
pub open spec fn extends(tour: Seq<u16>, prefix: Seq<u16>, n: nat) -> bool {
    &&& is_tour(tour, n)
    &&& prefix.len() <= tour.len()
    &&& tour.take(prefix.len() as int) == prefix
}

/// The two paths are the same before position `k`, and there `one` holds
/// the smaller point.
pub open spec fn parts_at(one: Seq<u16>, other: Seq<u16>, k: int) -> bool {
    &&& 0 <= k < one.len()
    &&& k < other.len()
    &&& one.take(k) == other.take(k)
    &&& one[k] < other[k]
}

/// `one` comes before `other` in the order of the search: where the two
/// part, `one` holds the smaller point.
pub open spec fn comes_before(one: Seq<u16>, other: Seq<u16>) -> bool {
    exists|k: int| #[trigger] parts_at(one, other, k)
}

/// What comes before a walk comes before every tour that begins with it.
pub proof fn lemma_comes_before_all(best: Seq<u16>, prefix: Seq<u16>, tour: Seq<u16>)
    requires
        comes_before(best, prefix),
        prefix.len() <= tour.len(),
        tour.take(prefix.len() as int) == prefix,
    ensures
        comes_before(best, tour),
{
    let k = choose|k: int| #[trigger] parts_at(best, prefix, k);
    assert(tour.take(k) =~= prefix.take(k));
    assert(tour.take(prefix.len() as int)[k] == tour[k]);
    assert(parts_at(best, tour, k));
}

/// No search over `n` points makes more calls than this for a walk that
/// has `remaining` points to go: one for the walk itself and, for each
/// point but point 0, as many as for a walk that has one point less to go.
pub open spec fn calls_bound(n: nat, remaining: nat) -> int
    decreases remaining,
{
    if remaining == 0 {
        1
    } else {
        1 + (n - 1) * calls_bound(n, (remaining - 1) as nat)
    }
}

/// The bound grows with the number of points and with the points to go.
pub proof fn lemma_calls_bound_grows(n: nat, remaining: nat, m: nat, more: nat)
    requires
        1 <= n <= m,
        remaining <= more,
    ensures
        1 <= calls_bound(n, remaining) <= calls_bound(m, more),
    decreases more,
{
    if more > 0 {
        if remaining > 0 {
            lemma_calls_bound_grows(n, (remaining - 1) as nat, m, (more - 1) as nat);
            let small = calls_bound(n, (remaining - 1) as nat);
            let large = calls_bound(m, (more - 1) as nat);
            assert((n - 1) * small <= (m - 1) * large) by (nonlinear_arith)
                requires
                    1 <= n <= m,
                    1 <= small <= large,
            ;
        } else {
            lemma_calls_bound_grows(n, 0, m, (more - 1) as nat);
            let large = calls_bound(m, (more - 1) as nat);
            assert((m - 1) * large >= 0) by (nonlinear_arith)
                requires
                    1 <= m,
                    1 <= large,
            ;
        }
    }
}

/// A search over 10 points or fewer stays below the ceiling of 500 million
/// calls.
pub proof fn lemma_small_search_fits(n: nat)
    requires
        1 <= n <= 10,
    ensures
        calls_bound(n, (n - 1) as nat) <= 435_848_050,
{
    lemma_calls_bound_grows(n, (n - 1) as nat, 10, 9);
    assert(calls_bound(10, 0) == 1);
    assert(calls_bound(10, 1) == 10);
    assert(calls_bound(10, 2) == 91);
    assert(calls_bound(10, 3) == 820);
    assert(calls_bound(10, 4) == 7381);
    assert(calls_bound(10, 5) == 66430);
    assert(calls_bound(10, 6) == 597871);
    assert(calls_bound(10, 7) == 5380840);
    assert(calls_bound(10, 8) == 48427561);
    assert(calls_bound(10, 9) == 435848050);
}

/// `format!` of the number of calls. Nothing is claimed of the text.
#[verifier::external_body]
fn describe_calls(call_count: usize) -> (text: String) {
    format!("total calls: {}", call_count)
}

impl BranchAndBound {
    /// The side of the matrix as a number.
    pub open spec fn n(&self) -> nat {
        self.size as nat
    }

    /// The best tour is a tour from point 0 and `best_cost` is its length.
    pub open spec fn has_best(&self) -> bool {
        &&& is_tour(self.best_path@, self.n())
        &&& self.best_path@[0] == 0
        &&& self.best_cost == tour_length(self.best_path@, self.distance_matrix@, self.n())
    }

    /// The state is consistent: the matrix is that of the points, and what
    /// is recorded as best is a tour with its length.
    pub open spec fn wf(&self) -> bool {
        &&& self.size == self.cities@.len()
        &&& is_instance(self.cities@, self.distance_matrix@)
        &&& self.best_path@.len() == self.size
        &&& self.best_cost < u64::MAX ==> self.has_best()
    }

    /// `path` holds, in its first `level` entries, a walk from point 0 that
    /// visits no point twice; `visited` marks its points and `cost` is its
    /// length.
    pub open spec fn is_search_state(
        &self,
        path: Seq<u16>,
        visited: Seq<bool>,
        level: int,
        cost: u64,
    ) -> bool {
        &&& path.len() == self.size
        &&& visited.len() == self.size
        &&& 1 <= level <= self.size
        &&& is_partial_tour(path.take(level), self.n())
        &&& path[0] == 0
        &&& forall|c: int|
            0 <= c < self.size ==> #[trigger] visited[c] == path.take(level).contains(c as u16)
        &&& cost == open_length(path.take(level), self.distance_matrix@, self.n())
    }

    /// No tour that begins with `prefix` is shorter than the best one found.
    pub open spec fn beats_all_from(&self, prefix: Seq<u16>) -> bool {
        forall|tour: Seq<u16>| #[trigger]
            extends(tour, prefix, self.n()) ==> self.best_cost <= tour_length(
                tour,
                self.distance_matrix@,
                self.n(),
            )
    }

    /// Of the tours that begin with `prefix`, none as short as the best one
    /// found comes before it in the order of the search.
    pub open spec fn is_first_from(&self, prefix: Seq<u16>) -> bool {
        forall|tour: Seq<u16>|
            (#[trigger] extends(tour, prefix, self.n())) && tour_length(
                tour,
                self.distance_matrix@,
                self.n(),
            ) == self.best_cost ==> (tour == self.best_path@ || comes_before(self.best_path@, tour))
    }

    /// No tour at all is shorter than the best one found.
    pub open spec fn beats_all(&self) -> bool {
        forall|tour: Seq<u16>| #[trigger]
            is_tour(tour, self.n()) ==> self.best_cost <= tour_length(
                tour,
                self.distance_matrix@,
                self.n(),
            )
    }

    /// The same instance and the same ceiling.
    pub open spec fn same_task(&self, other: &Self) -> bool {
        &&& self.cities == other.cities
        &&& self.size == other.size
        &&& self.distance_matrix == other.distance_matrix
        &&& self.max_call_count == other.max_call_count
    }

    /// An engine for `cities` with no tour found yet and a ceiling of
    /// 500 million calls.
    pub fn new(cities: &Vec<City>) -> (engine: Self)
        requires
            2 <= cities@.len() <= 0xffff,
        ensures
            engine.wf(),
            engine.cities@ == cities@,
            engine.best_cost == u64::MAX,
            engine.call_count == 0,
            engine.max_call_count == 500_000_000,
            !engine.cut_short,
    {
        let size = cities.len();
        assert(size * size <= usize::MAX) by (nonlinear_arith)
            requires
                size <= 0xffff,
        ;
        let mut best_path: Vec<u16> = Vec::with_capacity(size);
        let mut i: usize = 0;
        while i < size
            invariant
                i <= size,
                best_path@.len() == i,
            decreases size - i,
        {
            best_path.push(0);
            i += 1;
        }
        BranchAndBound {
            cities: cities.clone(),
            size,
            distance_matrix: create_distance_matrix(cities),
            best_cost: u64::MAX,
            best_path,
            call_count: 0,
            max_call_count: 500_000_000,
            cut_short: false,
        }
    }

    /// Records `path` as the best tour.
    fn update_best_path(&mut self, path: &Vec<u16>)
        requires
            old(self).best_path@.len() == old(self).size,
            path@.len() == old(self).size,
        ensures
            final(self).best_path@ == path@,
            final(self).call_count == old(self).call_count,
            final(self).same_task(old(self)),
            final(self).best_cost == old(self).best_cost,
            final(self).cut_short == old(self).cut_short,
    {
        let mut i: usize = 0;
        while i < self.size
            invariant
                i <= self.size,
                self.best_path@.len() == self.size,
                path@.len() == self.size,
                self.call_count == old(self).call_count,
                self.same_task(old(self)),
                self.best_cost == old(self).best_cost,
                self.cut_short == old(self).cut_short,
                forall|k: int| 0 <= k < i ==> self.best_path@[k] == path@[k],
            decreases self.size - i,
        {
            self.best_path.set(i, path[i]);
            i += 1;
        }
        assert(self.best_path@ =~= path@);
    }

    /// Searches every way of completing the walk held in the first `level`
    /// entries of `path`.
    ///
    /// Afterwards the best tour is no longer than before, and it is another
    /// tour only where it is shorter. Unless the ceiling cut the search
    /// short, no tour that begins with this walk is shorter than the best
    /// tour; and a best tour exists wherever one existed before or the
    /// ceiling left room to reach the end of one walk. The search is cut
    /// short only with the ceiling reached, and with the ceiling reached on
    /// entry nothing is searched. Each call below the ceiling is counted,
    /// and the count never falls.
    ///
    /// The points are tried by ascending index, and a tour replaces the
    /// best one only where it is shorter. So where the best tour of before,
    /// if there was one, comes before the walk in that order and the
    /// search is not cut short, the best tour is the first of the shortest
    /// tours that begin with the walk, unless the one of before is as
    /// short.
    pub fn test(&mut self, path: &mut Vec<u16>, visited: &mut Vec<bool>, level: usize, cost: u64)
        requires
            old(self).wf(),
            old(self).is_search_state(old(path)@, old(visited)@, level as int, cost),
        ensures
            final(self).wf(),
            final(self).same_task(old(self)),
            final(path)@.len() == old(path)@.len(),
            final(path)@.take(level as int) == old(path)@.take(level as int),
            final(visited)@ == old(visited)@,
            final(self).best_cost <= old(self).best_cost,
            final(self).call_count >= old(self).call_count,
            old(self).call_count < old(self).max_call_count ==> final(self).call_count > old(
                self,
            ).call_count,
            old(self).cut_short ==> final(self).cut_short,
            !final(self).cut_short ==> final(self).beats_all_from(old(path)@.take(level as int)),
            old(self).best_cost < u64::MAX || old(self).call_count + (old(self).size - level) < old(
                self,
            ).max_call_count ==> final(self).best_cost < u64::MAX,
            final(self).best_cost == old(self).best_cost ==> final(self).best_path@
                == old(self).best_path@,
            final(self).cut_short && !old(self).cut_short ==> final(self).call_count
                >= final(self).max_call_count,
            old(self).call_count >= old(self).max_call_count ==> {
                &&& final(self).cut_short
                &&& final(self).best_cost == old(self).best_cost
                &&& final(self).call_count == old(self).call_count
                &&& final(path)@ == old(path)@
            },
            !old(self).cut_short && old(self).call_count + calls_bound(
                old(self).n(),
                (old(self).size - level) as nat,
            ) <= old(self).max_call_count ==> !final(self).cut_short && final(self).call_count
                <= old(self).call_count + calls_bound(
                old(self).n(),
                (old(self).size - level) as nat,
            ),
            final(self).best_cost < old(self).best_cost
                ==> final(self).best_path@.take(level as int) == old(path)@.take(level as int),
            (old(self).best_cost == u64::MAX || comes_before(
                old(self).best_path@,
                old(path)@.take(level as int),
            )) && !final(self).cut_short
                ==> final(self).is_first_from(old(path)@.take(level as int)),
        decreases old(self).size - level,
    {
        let ghost prefix = path@.take(level as int);
        let ghost matrix = self.distance_matrix@;
        let ghost n = self.n();
        let ghost goal = self.best_cost < u64::MAX || self.call_count + (self.size - level)
            < self.max_call_count;
        let ghost ahead = self.best_cost == u64::MAX || comes_before(self.best_path@, prefix);
        proof {
            lemma_calls_bound_grows(n, 0, n, (self.size - level) as nat);
        }
        if self.call_count >= self.max_call_count {
            self.cut_short = true;
            return ;
        }
        let ghost entry_count = self.call_count;
        self.call_count += 1;
        proof {
            assert(in_range(prefix, n));
            lemma_open_length_bounds(prefix, matrix, n);
            assert((prefix.len() - 1) * 0x800_0000_0000 <= 0xffff * 0x800_0000_0000) by (nonlinear_arith)
                requires
                    1 <= prefix.len() <= 0xffff,
            ;
        }
        if level == self.size {
            proof {
                assert(prefix =~= path@);
                lemma_edge_bounds(matrix, n, path@[0], path@[level - 1]);
                assert(entry(matrix, n, path@[0] as int, path@[level - 1] as int) == entry(
                    matrix,
                    n,
                    path@[level - 1] as int,
                    path@[0] as int,
                ));
            }
            let total_cost = cost + get_in_matrix(
                &self.distance_matrix,
                self.size,
                path[0] as usize,
                path[level - 1] as usize,
            );
            assert(total_cost == tour_length(path@, matrix, n));
            if total_cost < self.best_cost {
                self.best_cost = total_cost;
                self.update_best_path(path);
            }
            proof {
                assert forall|tour: Seq<u16>| #[trigger] extends(tour, prefix, n) implies self.best_cost
                    <= tour_length(tour, matrix, n) by {
                    assert(tour.take(prefix.len() as int) =~= tour);
                }
                assert(self.best_path@.take(level as int) =~= self.best_path@);
                if ahead {
                    assert forall|tour: Seq<u16>| #[trigger]
                        extends(tour, prefix, n) && tour_length(tour, matrix, n)
                            == self.best_cost implies tour == self.best_path@ || comes_before(
                        self.best_path@,
                        tour,
                    ) by {
                        assert(tour.take(prefix.len() as int) =~= tour);
                        if self.best_cost == old(self).best_cost {
                            lemma_comes_before_all(old(self).best_path@, prefix, tour);
                        }
                    }
                }
            }
            return ;
        }
        proof {
            assert forall|tour: Seq<u16>| #[trigger] extends(tour, prefix, n) implies tour[level as int]
                >= 1 by {
                assert(tour.take(level as int)[0] == tour[0]);
            }
        }
        let mut i: usize = 1;
        while i < self.size
            invariant
                1 <= i <= self.size,
                1 <= level < self.size,
                self.wf(),
                self.same_task(old(self)),
                matrix == self.distance_matrix@,
                n == self.n(),
                old(self).wf(),
                old(self).is_search_state(old(path)@, old(visited)@, level as int, cost),
                prefix == old(path)@.take(level as int),
                path@.len() == old(path)@.len(),
                path@.take(level as int) == prefix,
                visited@ == old(visited)@,
                self.best_cost <= old(self).best_cost,
                self.call_count > old(self).call_count,
                old(self).cut_short ==> self.cut_short,
                self.best_cost == old(self).best_cost ==> self.best_path@ == old(self).best_path@,
                self.cut_short && !old(self).cut_short ==> self.call_count >= self.max_call_count,
                old(self).call_count < old(self).max_call_count,
                !old(self).cut_short && old(self).call_count + calls_bound(
                    n,
                    (self.size - level) as nat,
                ) <= old(self).max_call_count ==> !self.cut_short && self.call_count <= old(
                    self,
                ).call_count + 1 + (i - 1) * calls_bound(n, (self.size - level - 1) as nat),
                cost <= 0xffff * 0x800_0000_0000,
                goal == (old(self).best_cost < u64::MAX || old(self).call_count + (old(self).size
                    - level) < old(self).max_call_count),
                entry_count == old(self).call_count,
                goal && self.best_cost == u64::MAX ==> self.call_count == entry_count + 1
                    && forall|k: int| 1 <= k < i ==> visited@[k],
                !self.cut_short ==> forall|tour: Seq<u16>| #[trigger]
                    extends(tour, prefix, n) && tour[level as int] < i ==> self.best_cost
                        <= tour_length(tour, matrix, n),
                ahead == (old(self).best_cost == u64::MAX || comes_before(
                    old(self).best_path@,
                    prefix,
                )),
                self.best_cost < old(self).best_cost ==> self.best_path@.take(level as int)
                    == prefix && self.best_path@[level as int] < i,
                ahead && !self.cut_short ==> forall|tour: Seq<u16>| #[trigger]
                    extends(tour, prefix, n) && tour[level as int] < i && tour_length(
                        tour,
                        matrix,
                        n,
                    ) == self.best_cost ==> tour == self.best_path@ || comes_before(
                        self.best_path@,
                        tour,
                    ),
            decreases self.size - i,
        {
            let ghost before_cost = self.best_cost;
            let ghost before_cut = self.cut_short;
            proof {
                let below = calls_bound(n, (self.size - level - 1) as nat);
                lemma_calls_bound_grows(n, 0, n, (self.size - level - 1) as nat);
                assert(calls_bound(n, (self.size - level) as nat) == 1 + (n - 1) * below);
                assert((i - 1) * below + below == i * below) by (nonlinear_arith);
                assert(i * below <= (n - 1) * below) by (nonlinear_arith)
                    requires
                        i <= n - 1,
                        below >= 0,
                ;
            }
            if !visited[i] {
                proof {
                    assert(path@[level - 1] == prefix[level - 1]);
                    lemma_edge_bounds(matrix, n, path@[level - 1], i as u16);
                    assert(entry(matrix, n, i as int, path@[level - 1] as int) == entry(
                        matrix,
                        n,
                        path@[level - 1] as int,
                        i as int,
                    ));
                }
                let new_cost = cost + get_in_matrix(
                    &self.distance_matrix,
                    self.size,
                    i,
                    path[level - 1] as usize,
                );
                let ghost longer = prefix.push(i as u16);
                proof {
                    assert(longer.drop_last() =~= prefix);
                    assert(new_cost == open_length(longer, matrix, n));
                }
                if new_cost < self.best_cost {
                    visited.set(i, true);
                    path.set(level, i as u16);
                    proof {
                        assert(path@.take(level + 1) =~= longer);
                        assert(!prefix.contains(i as u16));
                        assert(is_partial_tour(longer, n));
                        assert forall|c: int| 0 <= c < self.size implies #[trigger] visited@[c]
                            == longer.contains(c as u16) by {
                            if c == i {
                                assert(longer[level as int] == i as u16);
                            } else if prefix.contains(c as u16) {
                                let w = choose|w: int| 0 <= w < prefix.len() && prefix[w] == c as u16;
                                assert(longer[w] == c as u16);
                            } else if longer.contains(c as u16) {
                                let w = choose|w: int| 0 <= w < longer.len() && longer[w] == c as u16;
                                assert(prefix[w] == c as u16);
                            }
                        }
                    }
                    proof {
                        assert(path@[0] == longer[0]);
                        assert(longer[0] == prefix[0]);
                        assert(prefix[0] == old(path)@[0]);
                    }
                    let ghost best_before = self.best_path@;
                    proof {
                        if ahead && self.best_cost < u64::MAX {
                            if self.best_cost == old(self).best_cost {
                                lemma_comes_before_all(old(self).best_path@, prefix, longer);
                            } else {
                                assert(longer.take(level as int) =~= prefix);
                                assert(parts_at(self.best_path@, longer, level as int));
                            }
                            assert(comes_before(self.best_path@, path@.take(level + 1)));
                        }
                        assert(!before_cut ==> forall|tour: Seq<u16>| #[trigger]
                            extends(tour, prefix, n) && tour[level as int] < i ==> before_cost
                                <= tour_length(tour, matrix, n));
                        assert(ahead && !before_cut ==> forall|tour: Seq<u16>| #[trigger]
                            extends(tour, prefix, n) && tour[level as int] < i && tour_length(
                                tour,
                                matrix,
                                n,
                            ) == before_cost ==> tour == best_before || comes_before(
                                best_before,
                                tour,
                            ));
                    }
                    self.test(path, visited, level + 1, new_cost);
                    visited.set(i, false);
                    proof {
                        assert(visited@ =~= old(visited)@);
                        assert(path@.take(level as int) =~= path@.take(level + 1).take(level as int));
                        assert(longer.take(level as int) =~= prefix);
                        assert forall|tour: Seq<u16>| #[trigger]
                            extends(tour, prefix, n) && tour[level as int] < i + 1
                                && !self.cut_short implies self.best_cost <= tour_length(
                            tour,
                            matrix,
                            n,
                        ) by {
                            if tour[level as int] == i {
                                assert(tour.take(level + 1) =~= longer);
                                assert(extends(tour, longer, n));
                            } else {
                                assert(!before_cut);
                                assert(before_cost <= tour_length(tour, matrix, n));
                            }
                        }
                        if self.best_cost < before_cost {
                            assert(self.best_path@.take(level + 1) == longer);
                            assert(self.best_path@.take(level as int) =~= longer.take(level as int));
                            assert(self.best_path@.take(level + 1)[level as int]
                                == self.best_path@[level as int]);
                        }
                        if ahead && !self.cut_short {
                            assert forall|tour: Seq<u16>| #[trigger]
                                extends(tour, prefix, n) && tour[level as int] < i + 1
                                    && tour_length(tour, matrix, n)
                                    == self.best_cost implies tour == self.best_path@
                                || comes_before(self.best_path@, tour) by {
                                if tour[level as int] == i {
                                    assert(tour.take(level + 1) =~= longer);
                                    assert(extends(tour, longer, n));
                                    assert(self.is_first_from(longer));
                                    assert(extends(tour, longer, self.n()));
                                    assert(tour_length(tour, self.distance_matrix@, self.n())
                                        == self.best_cost);
                                    assert(tour == self.best_path@ || comes_before(
                                        self.best_path@,
                                        tour,
                                    ));
                                } else {
                                    assert(!before_cut);
                                    assert(before_cost <= tour_length(tour, matrix, n));
                                    if self.best_cost == before_cost {
                                        assert(self.best_path@ == best_before);
                                        assert(tour == best_before || comes_before(
                                            best_before,
                                            tour,
                                        ));
                                    } else {
                                        assert(false);
                                    }
                                }
                            }
                        }
                    }
                } else {
                    proof {
                        assert forall|tour: Seq<u16>| #[trigger]
                            extends(tour, prefix, n) && tour[level as int] < i + 1
                                && !self.cut_short implies self.best_cost <= tour_length(
                            tour,
                            matrix,
                            n,
                        ) by {
                            if tour[level as int] == i {
                                assert(tour.take(level + 1) =~= longer);
                                lemma_prefix_no_longer(tour, matrix, n, level + 1);
                            }
                        }
                        if ahead && !self.cut_short {
                            assert forall|tour: Seq<u16>| #[trigger]
                                extends(tour, prefix, n) && tour[level as int] < i + 1
                                    && tour_length(tour, matrix, n)
                                    == self.best_cost implies tour == self.best_path@
                                || comes_before(self.best_path@, tour) by {
                                if tour[level as int] == i {
                                    if self.best_cost == old(self).best_cost {
                                        lemma_comes_before_all(old(self).best_path@, prefix, tour);
                                    } else {
                                        assert(parts_at(self.best_path@, tour, level as int));
                                    }
                                }
                            }
                        }
                    }
                }
            } else {
                proof {
                    assert forall|tour: Seq<u16>| #[trigger] extends(tour, prefix, n) implies tour[level as int]
                        != i by {
                        assert(prefix.contains(i as u16));
                        let w = choose|w: int| 0 <= w < prefix.len() && prefix[w] == i as u16;
                        assert(tour.take(level as int)[w] == tour[w]);
                    }
                }
            }
            i += 1;
        }
        proof {
            if !self.cut_short {
                assert forall|tour: Seq<u16>| #[trigger] extends(tour, prefix, n) implies self.best_cost
                    <= tour_length(tour, matrix, n) && tour[level as int] < i by {
                    assert(tour.take(level as int)[0] == tour[0]);
                    assert(tour[level as int] != tour[0]);
                    assert(tour[level as int] < n);
                }
            }
            if goal && self.best_cost == u64::MAX {
                assert forall|c: u16| c < n implies #[trigger] prefix.contains(c) by {
                    if c == 0 {
                        assert(prefix[0] == 0);
                    } else {
                        assert(visited@[c as int]);
                    }
                }
                lemma_covering_len(prefix, n);
            }
        }
    }

    /// The outcome of the search as it stands.
    pub fn respond(&self, start: &std::time::Instant) -> (response: ExecuteResponse)
        requires
            self.wf(),
            self.best_cost < u64::MAX,
        ensures
            response.is_sound(self.distance_matrix@, self.n()),
            response.final_path@ == self.best_path@,
            response.distance == self.best_cost,
            response.initial_path@.len() == 0,
    {
        ExecuteResponse::new(
            Vec::new(),
            self.best_path.clone(),
            self.best_cost,
            clock_elapsed(start),
            describe_calls(self.call_count),
        )
    }
}

/// A tour that is no longer than every tour from point 0 is no longer than
/// any tour at all: each tour can be rotated to start at point 0.
pub proof fn lemma_best_from_zero_is_best(engine: &BranchAndBound)
    requires
        engine.wf(),
        engine.beats_all_from(seq![0u16]),
    ensures
        engine.beats_all(),
{
    let n = engine.n();
    let matrix = engine.distance_matrix@;
    assert forall|tour: Seq<u16>| #[trigger] is_tour(tour, n) implies engine.best_cost <= tour_length(
        tour,
        matrix,
        n,
    ) by {
        lemma_full_tour_contains(tour, n, 0);
        let k = choose|k: int| 0 <= k < tour.len() && tour[k] == 0;
        let turned = rotated(tour, k);
        lemma_rotated_tour(tour, n, k);
        lemma_tour_length_rotation(tour, matrix, n, k);
        assert(turned[0] == tour[k]);
        assert(turned.take(1) =~= seq![0u16]);
        assert(extends(turned, seq![0u16], n));
    }
}

impl Algorithm for BranchAndBound {
    open spec fn instance(&self) -> Seq<City> {
        self.cities@
    }

    open spec fn distances(&self) -> Seq<u64> {
        self.distance_matrix@
    }

    open spec fn ready(&self) -> bool {
        &&& self.wf()
        &&& self.best_cost < u64::MAX || self.call_count + self.size <= self.max_call_count
    }

    /// Runs the search from point 0. Unless the ceiling cut it short, no
    /// tour through the points is shorter than the one returned. The
    /// ceiling does not cut the search short where it leaves room for
    /// `calls_bound` calls, as the ceiling of a new engine does for 10
    /// points or fewer. A search that starts with no tour in hand and is
    /// not cut short returns, of the shortest tours from point 0, the one
    /// that comes first in the order of the search.
    fn execute(&mut self) -> (response: ExecuteResponse)
        ensures
            final(self).wf(),
            final(self).same_task(old(self)),
            final(self).call_count >= old(self).call_count,
            old(self).call_count < old(self).max_call_count ==> final(self).call_count > old(
                self,
            ).call_count,
            response.initial_path@.len() == 0,
            response.final_path@[0] == 0,
            response.final_path@ == final(self).best_path@,
            response.distance == final(self).best_cost,
            response.distance <= old(self).best_cost,
            final(self).cut_short && !old(self).cut_short ==> final(self).call_count
                >= final(self).max_call_count,
            !old(self).cut_short && old(self).call_count + calls_bound(
                old(self).n(),
                (old(self).n() - 1) as nat,
            ) <= old(self).max_call_count ==> !final(self).cut_short,
            !final(self).cut_short ==> forall|tour: Seq<u16>| #[trigger]
                is_tour(tour, old(self).n()) ==> response.distance <= tour_length(
                    tour,
                    old(self).distance_matrix@,
                    old(self).n(),
                ),
            old(self).best_cost == u64::MAX && !final(self).cut_short
                ==> final(self).is_first_from(seq![0u16]),
    {
        let mut visited: Vec<bool> = Vec::with_capacity(self.size);
        let mut path: Vec<u16> = Vec::with_capacity(self.size);
        let mut i: usize = 0;
        while i < self.size
            invariant
                i <= self.size,
                visited@.len() == i,
                path@.len() == i,
                forall|k: int| 0 <= k < i ==> visited@[k] == (k == 0),
                forall|k: int| 0 <= k < i ==> path@[k] == 0,
            decreases self.size - i,
        {
            visited.push(i == 0);
            path.push(0);
            i += 1;
        }
        let start_time = clock_now();
        proof {
            let prefix = path@.take(1);
            assert(prefix =~= seq![0u16]);
            assert forall|c: int| 0 <= c < self.size implies #[trigger] visited@[c]
                == prefix.contains(c as u16) by {
                if c == 0 {
                    assert(prefix[0] == 0);
                }
            }
        }
        self.test(&mut path, &mut visited, 1, 0);
        proof {
            assert(path@.take(1) =~= seq![0u16]);
            if !self.cut_short {
                lemma_best_from_zero_is_best(self);
            }
        }
        self.respond(&start_time)
    }
}

} // verus!
