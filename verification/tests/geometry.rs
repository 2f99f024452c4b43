use tsp_optimizer::distance::{
    calculate_distance_between_cities, calculate_distance_between_cities_ids,
    create_distance_matrix, get_entire_row_in_matrix, get_in_matrix, integer_sqrt, matrix_index,
};
use tsp_optimizer::greedy::grow_greedy_tour;
use tsp_optimizer::length::{calculate_path_distance, calculate_path_distance_over};
use tsp_optimizer::models::city::City;
use tsp_optimizer::models::coordinates::Coordinates;
use tsp_optimizer::models::uf::UF;
use tsp_optimizer::neighbours::{
    find_best_neighbour, find_n_best_neighbours, find_n_best_neighbours_with_filter,
};

fn city(id: u16, latitude: i32, longitude: i32) -> City {
    City::new(id, UF::get_uf_from_code(0).unwrap(), Coordinates::new(latitude, longitude))
}

fn square() -> Vec<City> {
    vec![city(0, 0, 0), city(1, 0, 1000), city(2, 1000, 1000), city(3, 1000, 0)]
}

fn scattered() -> Vec<City> {
    vec![
        city(0, 0, 0),
        city(1, 0, 100),
        city(2, 0, 10),
        city(3, 0, 50),
        city(4, 30, 40),
    ]
}

#[test]
fn integer_sqrt_rounds_down() {
    assert_eq!(integer_sqrt(0), 0);
    assert_eq!(integer_sqrt(1), 1);
    assert_eq!(integer_sqrt(2), 1);
    assert_eq!(integer_sqrt(24), 4);
    assert_eq!(integer_sqrt(25), 5);
    assert_eq!(integer_sqrt(2_000_000), 1414);
    assert_eq!(integer_sqrt(36_893_488_130_239_234_050), 6_074_000_998);
}

#[test]
fn distance_is_planar_in_parts_of_a_unit_and_rounded_down() {
    assert_eq!(calculate_distance_between_cities(&city(0, 0, 0), &city(1, 3, 4)), 5 * 1024);
    assert_eq!(calculate_distance_between_cities(&city(0, 0, 0), &city(1, 1, 1)), 1448);
    assert_eq!(calculate_distance_between_cities(&city(0, -7, 2), &city(1, -7, 2)), 0);
    assert_eq!(
        calculate_distance_between_cities(&city(0, i32::MIN, i32::MIN), &city(1, i32::MAX, i32::MAX)),
        6219777022502
    );
    let cities = square();
    assert_eq!(calculate_distance_between_cities_ids(0, 2, &cities), 1448154);
}

#[test]
fn distance_matrix_is_symmetric_with_zero_diagonal() {
    let cities = scattered();
    let n = cities.len();
    let matrix = create_distance_matrix(&cities);
    assert_eq!(matrix.len(), n * n);
    for i in 0..n {
        assert_eq!(get_in_matrix(&matrix, n, i, i), 0);
        for j in 0..n {
            assert_eq!(get_in_matrix(&matrix, n, i, j), get_in_matrix(&matrix, n, j, i));
            assert_eq!(
                get_in_matrix(&matrix, n, i, j),
                calculate_distance_between_cities(&cities[i], &cities[j])
            );
            if i != j {
                assert!(get_in_matrix(&matrix, n, i, j) > 0);
            }
        }
    }
}

#[test]
fn distance_matrix_of_the_square() {
    let matrix = create_distance_matrix(&square());
    assert_eq!(
        matrix,
        vec![
            0, 1024000, 1448154, 1024000, 1024000, 0, 1024000, 1448154, 1448154, 1024000, 0, 1024000,
            1024000, 1448154, 1024000, 0
        ]
    );
    assert_eq!(matrix_index(4, 2, 3), 11);
    assert_eq!(get_entire_row_in_matrix(&matrix, 4, 1), vec![1024000, 0, 1024000, 1448154]);
}

#[test]
fn distance_matrix_of_no_points_is_empty() {
    let matrix = create_distance_matrix(&Vec::new());
    assert!(matrix.is_empty());
}

#[test]
fn tour_length_closes_the_tour() {
    let matrix = create_distance_matrix(&square());
    assert_eq!(calculate_path_distance(&vec![0, 1, 2, 3], &matrix), 4 * 1024000);
    assert_eq!(calculate_path_distance(&vec![0, 2, 1, 3], &matrix), 2 * 1024000 + 2 * 1448154);
    assert_eq!(calculate_path_distance_over(&vec![0, 2], &matrix, 4), 2 * 1448154);
    assert_eq!(calculate_path_distance_over(&vec![3], &matrix, 4), 0);
    assert_eq!(calculate_path_distance_over(&Vec::new(), &matrix, 4), 0);
}

#[test]
fn tour_length_is_the_same_rotated_or_reversed() {
    let cities = scattered();
    let matrix = create_distance_matrix(&cities);
    let tour: Vec<u16> = vec![3, 0, 4, 1, 2];
    let length = calculate_path_distance(&tour, &matrix);
    for k in 0..tour.len() {
        let mut rotated = tour[k..].to_vec();
        rotated.extend_from_slice(&tour[..k]);
        assert_eq!(calculate_path_distance(&rotated, &matrix), length);
        rotated.reverse();
        assert_eq!(calculate_path_distance(&rotated, &matrix), length);
    }
}

#[test]
fn nearest_neighbour_on_three_points_matches_linear_scan() {
    let cities = vec![city(0, 0, 0), city(1, 0, 10), city(2, 0, 100)];
    let n = cities.len();
    let matrix = create_distance_matrix(&cities);
    for id in 0..n {
        let found = find_n_best_neighbours(&matrix, id, n, 1);
        let row = get_entire_row_in_matrix(&matrix, n, id);
        let mut best = usize::MAX;
        for other in 0..n {
            if other != id && (best == usize::MAX || row[other] < row[best]) {
                best = other;
            }
        }
        assert_eq!(found, vec![best]);
        assert_eq!(find_best_neighbour(&matrix, id, n, &Vec::new()), best);
    }
    assert_eq!(find_n_best_neighbours(&matrix, 0, n, 1), vec![1]);
    assert_eq!(find_n_best_neighbours(&matrix, 2, n, 1), vec![1]);
}

#[test]
fn neighbours_come_nearest_first() {
    let cities = scattered();
    let matrix = create_distance_matrix(&cities);
    assert_eq!(find_n_best_neighbours(&matrix, 0, 5, 3), vec![2, 3, 4]);
    assert_eq!(find_n_best_neighbours(&matrix, 0, 5, 10), vec![2, 3, 4, 1]);
    assert_eq!(find_n_best_neighbours(&matrix, 0, 5, 0), Vec::<usize>::new());
}

#[test]
fn neighbours_equally_near_come_by_index() {
    let cities = vec![city(0, 0, 0), city(1, 0, 10), city(2, 10, 0), city(3, 0, -10)];
    let matrix = create_distance_matrix(&cities);
    assert_eq!(find_n_best_neighbours(&matrix, 0, 4, 2), vec![1, 2]);
    assert_eq!(find_best_neighbour(&matrix, 0, 4, &vec![1]), 2);
}

#[test]
fn filtered_points_are_not_offered() {
    let cities = scattered();
    let matrix = create_distance_matrix(&cities);
    assert_eq!(find_n_best_neighbours_with_filter(&matrix, 0, 5, 2, &vec![2, 4]), vec![3, 1]);
    assert_eq!(find_best_neighbour(&matrix, 0, 5, &vec![2, 3]), 4);
    assert_eq!(
        find_n_best_neighbours_with_filter(&matrix, 0, 5, 2, &vec![1, 2, 3, 4]),
        Vec::<usize>::new()
    );
}

#[test]
fn a_greedy_tour_with_one_point_to_draw_from_goes_to_the_nearest() {
    let cities: Vec<City> = vec![city(0, 0, 0), city(1, 0, 100), city(2, 0, 10), city(3, 0, 45)];
    let matrix = create_distance_matrix(&cities);
    let mut generator = rand::rng();
    for _ in 0..20 {
        let path = grow_greedy_tour(&matrix, 4, 1, &mut generator);
        assert!(path[0] != 3);
        let expected: Vec<u16> = match path[0] {
            0 => vec![0, 2, 3, 1],
            1 => vec![1, 3, 2, 0],
            _ => vec![2, 0, 3, 1],
        };
        assert_eq!(path, expected);
    }
    let wide = grow_greedy_tour(&matrix, 4, 3, &mut generator);
    let mut sorted = wide.clone();
    sorted.sort();
    assert_eq!(sorted, vec![0, 1, 2, 3]);
}
