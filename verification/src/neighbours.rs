//! Nearest-neighbour queries over one row of the distance matrix.

use vstd::prelude::*;
use vstd::seq_lib::*;

use crate::distance::{entry, get_in_matrix};

verus! {

/// Point `i` may be offered as a neighbour of `id_city`: it is another
/// point of the instance and `filter` does not hold it.
pub open spec fn is_candidate(i: int, id_city: int, n: nat, filter: Seq<usize>) -> bool {
    &&& 0 <= i < n
    &&& i != id_city
    &&& !filter.contains(i as usize)
}

/// Point `a` comes before point `b` among the neighbours of `id_city`: it
/// is nearer, or as near and has the smaller index.
pub open spec fn is_nearer(matrix: Seq<u64>, n: nat, id_city: int, a: int, b: int) -> bool {
    entry(matrix, n, id_city, a) < entry(matrix, n, id_city, b) || (entry(matrix, n, id_city, a)
        == entry(matrix, n, id_city, b) && a < b)
}

/// `found` lists, nearest first, the `k` candidates nearest to `id_city`,
/// or all candidates where there are fewer than `k`.
pub open spec fn is_nearest_list(
    found: Seq<usize>,
    matrix: Seq<u64>,
    n: nat,
    id_city: int,
    k: nat,
    filter: Seq<usize>,
) -> bool {
    &&& found.len() <= k
    &&& forall|p: int| 0 <= p < found.len() ==> is_candidate(#[trigger] found[p] as int, id_city, n, filter)
    &&& forall|p: int, q: int|
        0 <= p < q < found.len() ==> is_nearer(
            matrix,
            n,
            id_city,
            #[trigger] found[p] as int,
            #[trigger] found[q] as int,
        )
    &&& forall|c: int| #[trigger]
        is_candidate(c, id_city, n, filter) ==> found.contains(c as usize) || (found.len() == k
            && forall|p: int|
            0 <= p < found.len() ==> is_nearer(matrix, n, id_city, #[trigger] found[p] as int, c))
}

/// `best` is the candidate nearest to `id_city`; among equally near ones,
/// the one with the smallest index.
pub open spec fn is_best_neighbour(
    best: int,
    matrix: Seq<u64>,
    n: nat,
    id_city: int,
    filter: Seq<usize>,
) -> bool {
    &&& is_candidate(best, id_city, n, filter)
    &&& forall|i: int| #[trigger]
        is_candidate(i, id_city, n, filter) && i != best ==> is_nearer(matrix, n, id_city, best, i)
}

/// The candidate nearest to `id_city`.
pub open spec fn best_neighbour(matrix: Seq<u64>, n: nat, id_city: int, filter: Seq<usize>) -> int {
    choose|best: int| is_best_neighbour(best, matrix, n, id_city, filter)
}

/// There is one nearest candidate at most.
pub proof fn lemma_best_neighbour(
    best: int,
    matrix: Seq<u64>,
    n: nat,
    id_city: int,
    filter: Seq<usize>,
)
    requires
        is_best_neighbour(best, matrix, n, id_city, filter),
    ensures
        best_neighbour(matrix, n, id_city, filter) == best,
{
    let other = best_neighbour(matrix, n, id_city, filter);
    assert(is_best_neighbour(other, matrix, n, id_city, filter));
    if other != best {
        assert(is_candidate(other, id_city, n, filter));
        assert(is_candidate(best, id_city, n, filter));
        assert(is_nearer(matrix, n, id_city, best, other));
        assert(is_nearer(matrix, n, id_city, other, best));
    }
}

/// The order of pairs: by the first part, then by the second.
pub open spec fn pair_le(a: (u64, usize), b: (u64, usize)) -> bool {
    a.0 < b.0 || (a.0 == b.0 && a.1 <= b.1)
}

/// `slice::sort` on pairs of integers, which std orders by the first part
/// and then by the second: afterwards the list is in ascending order and
/// holds what it held before, each pair as often.
#[verifier::external_body]
pub(crate) fn sort_pairs(pairs: &mut Vec<(u64, usize)>)
    ensures
        final(pairs)@.to_multiset() == old(pairs)@.to_multiset(),
        forall|a: int, b: int|
            0 <= a < b < final(pairs)@.len() ==> pair_le(
                #[trigger] final(pairs)@[a],
                #[trigger] final(pairs)@[b],
            ),
{
    pairs.sort()
}

/// For each point whether `filter` holds it.
pub fn mask_of(filter: &Vec<usize>, n: usize) -> (mask: Vec<bool>)
    ensures
        mask@.len() == n,
        forall|i: int| 0 <= i < n ==> #[trigger] mask@[i] == filter@.contains(i as usize),
{
    let mut mask: Vec<bool> = Vec::with_capacity(n);
    let mut i: usize = 0;
    while i < n
        invariant
            i <= n,
            mask@.len() == i,
            forall|k: int| 0 <= k < i ==> !(#[trigger] mask@[k]),
        decreases n - i,
    {
        mask.push(false);
        i += 1;
    }
    let mut p: usize = 0;
    while p < filter.len()
        invariant
            p <= filter.len(),
            mask@.len() == n,
            forall|w: int| 0 <= w < p && filter@[w] < n ==> mask@[#[trigger] filter@[w] as int],
            forall|i: int| 0 <= i < n && #[trigger] mask@[i] ==> filter@.contains(i as usize),
        decreases filter.len() - p,
    {
        let city = filter[p];
        if city < n {
            mask.set(city, true);
        }
        p += 1;
    }
    proof {
        assert forall|i: int| 0 <= i < n implies #[trigger] mask@[i] == filter@.contains(
            i as usize,
        ) by {
            if filter@.contains(i as usize) {
                let w = choose|w: int| 0 <= w < filter@.len() && filter@[w] == i as usize;
                assert(mask@[filter@[w] as int]);
            }
        }
    }
    mask
}

/// The candidate nearest to `id_city`; among equally near ones, the one
/// with the smallest index.
pub fn find_best_neighbour(
    distance_matrix: &Vec<u64>,
    id_city: usize,
    n: usize,
    filter: &Vec<usize>,
) -> (best: usize)
    requires
        distance_matrix@.len() == n * n,
        id_city < n,
        exists|i: int| is_candidate(i, id_city as int, n as nat, filter@),
    ensures
        is_best_neighbour(best as int, distance_matrix@, n as nat, id_city as int, filter@),
        best == best_neighbour(distance_matrix@, n as nat, id_city as int, filter@),
{
    let mask = mask_of(filter, n);
    let mut best: usize = n;
    let mut best_distance: u64 = 0;
    let mut i: usize = 0;
    while i < n
        invariant
            i <= n,
            id_city < n,
            distance_matrix@.len() == n * n,
            mask@.len() == n,
            forall|k: int| 0 <= k < n ==> #[trigger] mask@[k] == filter@.contains(k as usize),
            best <= n,
            best == n ==> forall|k: int|
                0 <= k < i ==> !is_candidate(k, id_city as int, n as nat, filter@),
            best < n ==> {
                &&& best < i
                &&& is_candidate(best as int, id_city as int, n as nat, filter@)
                &&& best_distance == entry(distance_matrix@, n as nat, id_city as int, best as int)
                &&& forall|k: int|
                    0 <= k < i && is_candidate(k, id_city as int, n as nat, filter@) && k != best
                        ==> is_nearer(distance_matrix@, n as nat, id_city as int, best as int, k)
            },
        decreases n - i,
    {
        if i != id_city && !mask[i] {
            let d = get_in_matrix(distance_matrix, n, id_city, i);
            if best == n || d < best_distance {
                best = i;
                best_distance = d;
            }
        }
        i += 1;
    }
    proof {
        let w = choose|w: int| is_candidate(w, id_city as int, n as nat, filter@);
        assert(is_candidate(w, id_city as int, n as nat, filter@));
        lemma_best_neighbour(best as int, distance_matrix@, n as nat, id_city as int, filter@);
    }
    best
}

/// The `n` candidates nearest to `id_city`, nearest first and equally near
/// ones by index; all candidates where there are fewer than `n`.
pub fn find_n_best_neighbours_with_filter(
    distance_matrix: &Vec<u64>,
    id_city: usize,
    cities_len: usize,
    n: usize,
    filter: &Vec<usize>,
) -> (found: Vec<usize>)
    requires
        distance_matrix@.len() == cities_len * cities_len,
        id_city < cities_len,
    ensures
        is_nearest_list(
            found@,
            distance_matrix@,
            cities_len as nat,
            id_city as int,
            n as nat,
            filter@,
        ),
{
    let mask = mask_of(filter, cities_len);
    let ghost matrix = distance_matrix@;
    let ghost size = cities_len as nat;
    let ghost home = id_city as int;
    let mut pairs: Vec<(u64, usize)> = Vec::new();
    let mut i: usize = 0;
    while i < cities_len
        invariant
            i <= cities_len,
            id_city < cities_len,
            matrix == distance_matrix@,
            size == cities_len as nat,
            home == id_city as int,
            matrix.len() == cities_len * cities_len,
            mask@.len() == cities_len,
            forall|k: int|
                0 <= k < cities_len ==> #[trigger] mask@[k] == filter@.contains(k as usize),
            forall|p: int|
                0 <= p < pairs@.len() ==> {
                    &&& (#[trigger] pairs@[p]).1 < i
                    &&& is_candidate(pairs@[p].1 as int, home, size, filter@)
                    &&& pairs@[p].0 == entry(matrix, size, home, pairs@[p].1 as int)
                },
            forall|p: int, q: int|
                0 <= p < q < pairs@.len() ==> (#[trigger] pairs@[p]).1 < (#[trigger] pairs@[q]).1,
            forall|c: int|
                0 <= c < i && is_candidate(c, home, size, filter@) ==> pairs@.contains(
                    (#[trigger] entry(matrix, size, home, c) as u64, c as usize),
                ),
        decreases cities_len - i,
    {
        if i != id_city && !mask[i] {
            let d = get_in_matrix(distance_matrix, cities_len, id_city, i);
            let ghost before = pairs@;
            pairs.push((d, i));
            proof {
                assert forall|c: int|
                    0 <= c < i + 1 && is_candidate(c, home, size, filter@) implies pairs@.contains(
                    (#[trigger] entry(matrix, size, home, c) as u64, c as usize),
                ) by {
                    if c < i {
                        let w = choose|w: int|
                            0 <= w < before.len() && before[w] == (
                                entry(matrix, size, home, c) as u64,
                                c as usize,
                            );
                        assert(pairs@[w] == before[w]);
                    } else {
                        assert(pairs@[pairs@.len() - 1] == (d, i));
                    }
                }
            }
        }
        i += 1;
    }
    let ghost unsorted = pairs@;
    sort_pairs(&mut pairs);
    let ghost sorted = pairs@;
    proof {
        broadcast use vstd::seq_lib::group_to_multiset_ensures;
        assert(unsorted.no_duplicates());
        unsorted.lemma_multiset_has_no_duplicates();
        sorted.lemma_multiset_has_no_duplicates_conv();
        assert forall|p: int| 0 <= p < sorted.len() implies {
            &&& is_candidate((#[trigger] sorted[p]).1 as int, home, size, filter@)
            &&& sorted[p].0 == entry(matrix, size, home, sorted[p].1 as int)
        } by {
            assert(sorted.to_multiset().count(sorted[p]) > 0);
            assert(unsorted.contains(sorted[p]));
            let w = choose|w: int| 0 <= w < unsorted.len() && unsorted[w] == sorted[p];
            assert(is_candidate(unsorted[w].1 as int, home, size, filter@));
        }
        assert forall|p: int, q: int| 0 <= p < q < sorted.len() implies is_nearer(
            matrix,
            size,
            home,
            (#[trigger] sorted[p]).1 as int,
            (#[trigger] sorted[q]).1 as int,
        ) by {
            assert(pair_le(sorted[p], sorted[q]));
            assert(sorted[p] != sorted[q]);
        }
    }
    let mut found: Vec<usize> = Vec::new();
    let mut p: usize = 0;
    while p < pairs.len() && p < n
        invariant
            p <= pairs@.len(),
            p <= n,
            pairs@ == sorted,
            found@.len() == p,
            forall|q: int| 0 <= q < p ==> #[trigger] found@[q] == sorted[q].1,
        decreases pairs@.len() - p,
    {
        found.push(pairs[p].1);
        p += 1;
    }
    proof {
        broadcast use vstd::seq_lib::group_to_multiset_ensures;
        assert forall|c: int| #[trigger] is_candidate(c, home, size, filter@) implies found@.contains(
            c as usize,
        ) || (found@.len() == n && forall|q: int|
            0 <= q < found@.len() ==> is_nearer(matrix, size, home, #[trigger] found@[q] as int, c)) by {
            let pair = (entry(matrix, size, home, c) as u64, c as usize);
            assert(unsorted.contains(pair));
            assert(sorted.to_multiset().count(pair) > 0);
            assert(sorted.contains(pair));
            let w = choose|w: int| 0 <= w < sorted.len() && sorted[w] == pair;
            if w < found@.len() {
                assert(found@[w] == c as usize);
            } else {
                assert forall|q: int| 0 <= q < found@.len() implies is_nearer(
                    matrix,
                    size,
                    home,
                    #[trigger] found@[q] as int,
                    c,
                ) by {
                    assert(is_nearer(matrix, size, home, sorted[q].1 as int, sorted[w].1 as int));
                }
            }
        }
    }
    found
}

/// The `n` points nearest to `id_city`, nearest first.
pub fn find_n_best_neighbours(
    distance_matrix: &Vec<u64>,
    id_city: usize,
    cities_len: usize,
    n: usize,
) -> (found: Vec<usize>)
    requires
        distance_matrix@.len() == cities_len * cities_len,
        id_city < cities_len,
    ensures
        is_nearest_list(
            found@,
            distance_matrix@,
            cities_len as nat,
            id_city as int,
            n as nat,
            Seq::<usize>::empty(),
        ),
{
    let filter: Vec<usize> = Vec::new();
    proof {
        assert(filter@ =~= Seq::<usize>::empty());
    }
    find_n_best_neighbours_with_filter(distance_matrix, id_city, cities_len, n, &filter)
}

} // verus!
