//! Planar distances in parts of a coordinate unit, and the flattened
//! distance matrix.

use vstd::prelude::*;

use crate::models::city::City;

verus! {

/// The parts that a coordinate unit has: a length of one unit is counted as
/// this many.
pub const PARTS: u64 = 1024;

/// No entry of a distance matrix exceeds this: the distance between two
/// opposite corners of the coordinate range stays below it.
pub const MAX_EDGE: u64 = 0x800_0000_0000;

/// `r` is the square root of `x`, rounded down.
pub open spec fn is_floor_sqrt(x: nat, r: nat) -> bool {
    r * r <= x < (r + 1) * (r + 1)
}

/// The largest natural number whose square does not exceed `x`.
pub open spec fn floor_sqrt(x: nat) -> nat {
    choose|r: nat| is_floor_sqrt(x, r)
}

/// `floor_sqrt(x)` is the one number whose square brackets `x`.
pub proof fn lemma_floor_sqrt_unique(x: nat, r: nat)
    requires
        is_floor_sqrt(x, r),
    ensures
        floor_sqrt(x) == r,
{
    let c = floor_sqrt(x);
    assert(is_floor_sqrt(x, c));
    assert(c == r) by (nonlinear_arith)
        requires
            c * c <= x < (c + 1) * (c + 1),
            r * r <= x < (r + 1) * (r + 1),
    ;
}

/// The sum of the squared coordinate differences of two points.
pub open spec fn squared_gap(a: City, b: City) -> nat {
    let dx = b.position().get_longitude() as int - a.position().get_longitude() as int;
    let dy = b.position().get_latitude() as int - a.position().get_latitude() as int;
    (dx * dx + dy * dy) as nat
}

/// The Euclidean distance between two points in parts of a coordinate
/// unit, rounded down to a whole part.
pub open spec fn distance_between(a: City, b: City) -> nat {
    floor_sqrt(squared_gap(a, b) * (PARTS as nat) * (PARTS as nat))
}

/// Integer square root, rounded down.
pub fn integer_sqrt(x: u128) -> (root: u64)
    requires
        x < 0x40_0000_0000_0000_0000_0000,
    ensures
        root == floor_sqrt(x as nat),
        root < MAX_EDGE,
{
    let mut low: u128 = 0;
    let mut high: u128 = 0x800_0000_0000;
    assert(0x800_0000_0000u128 * 0x800_0000_0000u128 == 0x40_0000_0000_0000_0000_0000u128)
        by (nonlinear_arith);
    while high - low > 1
        invariant
            low < high <= 0x800_0000_0000,
            low * low <= x < high * high,
        decreases high - low,
    {
        let middle: u128 = low + (high - low) / 2;
        assert(middle * middle <= 0x40_0000_0000_0000_0000_0000) by (nonlinear_arith)
            requires
                middle <= 0x800_0000_0000,
        ;
        if middle * middle <= x {
            low = middle;
        } else {
            high = middle;
        }
    }
    proof {
        lemma_floor_sqrt_unique(x as nat, low as nat);
    }
    low as u64
}

/// The distance between two points: Euclidean, in the plane, in parts of a
/// coordinate unit, rounded down to a whole part.
pub fn calculate_distance_between_cities(city1: &City, city2: &City) -> (distance: u64)
    ensures
        distance == distance_between(*city1, *city2),
        distance < MAX_EDGE,
{
    let c1 = city1.get_coordinates();
    let c2 = city2.get_coordinates();
    let dx: i64 = c2.get_longitude() as i64 - c1.get_longitude() as i64;
    let dy: i64 = c2.get_latitude() as i64 - c1.get_latitude() as i64;
    let ax: u128 = if dx < 0 { (-dx) as u128 } else { dx as u128 };
    let ay: u128 = if dy < 0 { (-dy) as u128 } else { dy as u128 };
    assert((ax * ax + ay * ay) * 0x10_0000 < 0x40_0000_0000_0000_0000_0000) by (nonlinear_arith)
        requires
            ax <= 0xffff_ffff,
            ay <= 0xffff_ffff,
    ;
    assert(ax * ax + ay * ay < 0x4_0000_0000_0000_0000) by (nonlinear_arith)
        requires
            ax <= 0xffff_ffff,
            ay <= 0xffff_ffff,
    ;
    assert(ax * ax == dx * dx && ay * ay == dy * dy) by (nonlinear_arith)
        requires
            ax == dx || ax == -dx,
            ay == dy || ay == -dy,
    ;
    assert((dx * dx + dy * dy) * PARTS * PARTS == (dx * dx + dy * dy) * 0x10_0000)
        by (nonlinear_arith);
    integer_sqrt((ax * ax + ay * ay) * 0x10_0000)
}

/// The distance between the points at two positions of the list.
pub fn calculate_distance_between_cities_ids(id1: usize, id2: usize, cities: &Vec<City>) -> (distance:
    u64)
    requires
        id1 < cities.len(),
        id2 < cities.len(),
    ensures
        distance == distance_between(cities@[id1 as int], cities@[id2 as int]),
        distance < MAX_EDGE,
{
    calculate_distance_between_cities(&cities[id1], &cities[id2])
}

/// The entry of row `row` and column `column` in a flattened square matrix
/// of side `n`.
pub open spec fn entry(matrix: Seq<u64>, n: nat, row: int, column: int) -> int {
    matrix[row * n + column] as int
}

/// `matrix` is square of side `n`, row after row, with no entry above
/// `MAX_EDGE`.
pub open spec fn is_matrix(matrix: Seq<u64>, n: nat) -> bool {
    &&& matrix.len() == n * n
    &&& forall|k: int| 0 <= k < matrix.len() ==> #[trigger] matrix[k] <= MAX_EDGE
}

/// The entry from `i` to `j` equals the entry from `j` to `i`.
pub open spec fn is_symmetric(matrix: Seq<u64>, n: nat) -> bool {
    forall|i: int, j: int|
        0 <= i < n && 0 <= j < n ==> #[trigger] entry(matrix, n, i, j) == entry(matrix, n, j, i)
}

/// Every point is at distance zero from itself.
pub open spec fn has_zero_diagonal(matrix: Seq<u64>, n: nat) -> bool {
    forall|i: int| 0 <= i < n ==> #[trigger] entry(matrix, n, i, i) == 0
}

/// A bounded, symmetric square matrix with a zero diagonal.
pub open spec fn is_distance_matrix(matrix: Seq<u64>, n: nat) -> bool {
    &&& is_matrix(matrix, n)
    &&& is_symmetric(matrix, n)
    &&& has_zero_diagonal(matrix, n)
}

/// `matrix` holds the pairwise distances of `cities`.
pub open spec fn is_matrix_of(matrix: Seq<u64>, cities: Seq<City>) -> bool {
    &&& matrix.len() == cities.len() * cities.len()
    &&& forall|i: int, j: int|
        0 <= i < cities.len() && 0 <= j < cities.len() ==> #[trigger] entry(
            matrix,
            cities.len(),
            i,
            j,
        ) == distance_between(cities[i], cities[j])
}

/// The points determine their distance matrix.
pub proof fn lemma_matrix_unique(one: Seq<u64>, other: Seq<u64>, cities: Seq<City>)
    requires
        is_matrix_of(one, cities),
        is_matrix_of(other, cities),
    ensures
        one == other,
{
    let n = cities.len() as int;
    assert forall|k: int| 0 <= k < one.len() implies one[k] == other[k] by {
        let row = k / n;
        let column = k % n;
        assert(n > 0) by (nonlinear_arith)
            requires
                0 <= k < n * n,
                n >= 0,
        ;
        vstd::arithmetic::div_mod::lemma_fundamental_div_mod(k, n);
        vstd::arithmetic::div_mod::lemma_mod_pos_bound(k, n);
        vstd::arithmetic::div_mod::lemma_div_pos_is_pos(k, n);
        assert(row < n && k == row * n + column) by (nonlinear_arith)
            requires
                k == n * row + column,
                0 <= column < n,
                0 <= row,
                k < n * n,
        ;
        assert(entry(one, cities.len(), row, column) == entry(other, cities.len(), row, column));
    }
    assert(one =~= other);
}

/// A cell of a square matrix lies inside its flattened form.
pub proof fn lemma_cell_in_bounds(n: nat, row: int, column: int)
    requires
        0 <= row < n,
        0 <= column < n,
    ensures
        0 <= row * n + column < n * n,
{
    assert(0 <= row * n + column < n * n) by (nonlinear_arith)
        requires
            0 <= row < n,
            0 <= column < n,
    ;
}

/// Cells are laid out row after row: an earlier cell has a smaller index.
pub proof fn lemma_cell_order(n: nat, r: int, c: int, row: int, column: int)
    requires
        0 <= r,
        0 <= c < n,
        0 <= column <= n,
        r < row || (r == row && c < column),
    ensures
        0 <= r * n + c < row * n + column,
{
    assert(0 <= r * n + c < row * n + column) by (nonlinear_arith)
        requires
            0 <= r,
            0 <= c < n,
            0 <= column <= n,
            r < row || (r == row && c < column),
    ;
}

/// The distance between two points does not depend on the direction, and a
/// point is at distance zero from itself.
pub proof fn lemma_distance_between_symmetric(a: City, b: City)
    ensures
        distance_between(a, b) == distance_between(b, a),
        distance_between(a, a) == 0,
{
    let dx = b.position().get_longitude() as int - a.position().get_longitude() as int;
    let dy = b.position().get_latitude() as int - a.position().get_latitude() as int;
    assert(dx * dx + dy * dy == (-dx) * (-dx) + (-dy) * (-dy)) by (nonlinear_arith);
    assert(squared_gap(a, b) == squared_gap(b, a));
    assert(squared_gap(a, a) == 0);
    assert(is_floor_sqrt(0, 0)) by (nonlinear_arith);
    lemma_floor_sqrt_unique(0, 0);
}

/// Two points that differ in a coordinate are at a distance above zero.
pub proof fn lemma_distance_between_positive(a: City, b: City)
    requires
        a.position().get_longitude() != b.position().get_longitude() || a.position().get_latitude()
            != b.position().get_latitude(),
    ensures
        distance_between(a, b) > 0,
{
    let dx = b.position().get_longitude() as int - a.position().get_longitude() as int;
    let dy = b.position().get_latitude() as int - a.position().get_latitude() as int;
    assert(dx * dx + dy * dy >= 1) by (nonlinear_arith)
        requires
            dx != 0 || dy != 0,
    ;
    let x: nat = squared_gap(a, b) * (PARTS as nat) * (PARTS as nat);
    assert(x >= 1) by (nonlinear_arith)
        requires
            x == squared_gap(a, b) * (PARTS as nat) * (PARTS as nat),
            squared_gap(a, b) >= 1,
            PARTS == 1024,
    ;
    lemma_floor_sqrt_exists(x);
    let r = floor_sqrt(x);
    assert(r > 0) by (nonlinear_arith)
        requires
            x >= 1,
            r * r <= x < (r + 1) * (r + 1),
    ;
}

/// Every natural number has a rounded-down square root.
pub proof fn lemma_floor_sqrt_exists(x: nat)
    ensures
        is_floor_sqrt(x, floor_sqrt(x)),
    decreases x,
{
    if x == 0 {
        assert(is_floor_sqrt(0, 0)) by (nonlinear_arith);
    } else {
        lemma_floor_sqrt_exists((x - 1) as nat);
        let r = floor_sqrt((x - 1) as nat);
        if (r + 1) * (r + 1) <= x {
            assert(is_floor_sqrt(x, r + 1)) by (nonlinear_arith)
                requires
                    r * r <= x - 1 < (r + 1) * (r + 1),
                    (r + 1) * (r + 1) <= x,
            ;
        } else {
            assert(is_floor_sqrt(x, r));
        }
    }
}

/// The position of a cell in the flattened matrix.
pub fn matrix_index(size: usize, row: usize, column: usize) -> (index: usize)
    requires
        row < size,
        column < size,
        size * size <= usize::MAX,
    ensures
        index == row * size + column,
        index < size * size,
{
    proof {
        lemma_cell_in_bounds(size as nat, row as int, column as int);
    }
    row * size + column
}

/// One entry of the matrix.
pub fn get_in_matrix(matrix: &Vec<u64>, size: usize, row: usize, column: usize) -> (value: u64)
    requires
        matrix@.len() == size * size,
        row < size,
        column < size,
    ensures
        value == entry(matrix@, size as nat, row as int, column as int),
{
    assert(size * size == matrix.len());
    matrix[matrix_index(size, row, column)]
}

/// A copy of one row of the matrix.
pub fn get_entire_row_in_matrix(matrix: &Vec<u64>, size: usize, row: usize) -> (cells: Vec<u64>)
    requires
        matrix@.len() == size * size,
        row < size,
    ensures
        cells@.len() == size,
        forall|column: int|
            0 <= column < size ==> cells@[column] == #[trigger] entry(
                matrix@,
                size as nat,
                row as int,
                column,
            ),
{
    let mut cells: Vec<u64> = Vec::with_capacity(size);
    let mut column: usize = 0;
    while column < size
        invariant
            column <= size,
            row < size,
            matrix@.len() == size * size,
            cells@.len() == column,
            forall|c: int|
                0 <= c < column ==> cells@[c] == #[trigger] entry(
                    matrix@,
                    size as nat,
                    row as int,
                    c,
                ),
        decreases size - column,
    {
        cells.push(get_in_matrix(matrix, size, row, column));
        column += 1;
    }
    cells
}

/// The matrix of all pairwise distances, row after row.
pub fn create_distance_matrix(cities: &Vec<City>) -> (matrix: Vec<u64>)
    requires
        cities.len() * cities.len() <= usize::MAX,
    ensures
        is_distance_matrix(matrix@, cities@.len()),
        is_matrix_of(matrix@, cities@),
{
    let n = cities.len();
    let mut matrix: Vec<u64> = Vec::new();
    let mut i: usize = 0;
    while i < n
        invariant
            n == cities.len(),
            n * n <= usize::MAX,
            i <= n,
            matrix@.len() == i * n,
            forall|k: int| 0 <= k < matrix@.len() ==> #[trigger] matrix@[k] <= MAX_EDGE,
            forall|r: int, c: int|
                0 <= r < i && 0 <= c < n ==> #[trigger] entry(matrix@, n as nat, r, c)
                    == distance_between(cities@[r], cities@[c]),
        decreases n - i,
    {
        let mut j: usize = 0;
        while j < n
            invariant
                n == cities.len(),
                n * n <= usize::MAX,
                i < n,
                j <= n,
                matrix@.len() == i * n + j,
                forall|k: int| 0 <= k < matrix@.len() ==> #[trigger] matrix@[k] <= MAX_EDGE,
                forall|r: int, c: int|
                    0 <= r && 0 <= c < n && (r < i || (r == i && c < j)) ==> #[trigger] entry(
                        matrix@,
                        n as nat,
                        r,
                        c,
                    ) == distance_between(cities@[r], cities@[c]),
            decreases n - j,
        {
            let d = calculate_distance_between_cities(&cities[i], &cities[j]);
            let ghost before = matrix@;
            matrix.push(d);
            proof {
                assert forall|r: int, c: int|
                    0 <= r && 0 <= c < n && (r < i || (r == i && c < j + 1)) implies #[trigger] entry(
                    matrix@,
                    n as nat,
                    r,
                    c,
                ) == distance_between(cities@[r], cities@[c]) by {
                    if r == i && c == j {
                    } else {
                        lemma_cell_order(n as nat, r, c, i as int, j as int);
                        assert(entry(matrix@, n as nat, r, c) == entry(before, n as nat, r, c));
                    }
                }
            }
            j += 1;
        }
        assert((i + 1) * n == i * n + n) by (nonlinear_arith);
        i += 1;
    }
    proof {
        assert forall|a: int, b: int| 0 <= a < n && 0 <= b < n implies #[trigger] entry(
            matrix@,
            n as nat,
            a,
            b,
        ) == entry(matrix@, n as nat, b, a) by {
            lemma_distance_between_symmetric(cities@[a], cities@[b]);
            assert(entry(matrix@, n as nat, b, a) == distance_between(cities@[b], cities@[a]));
        }
        assert forall|a: int| 0 <= a < n implies #[trigger] entry(matrix@, n as nat, a, a) == 0 by {
            lemma_distance_between_symmetric(cities@[a], cities@[a]);
        }
    }
    matrix
}

} // verus!
