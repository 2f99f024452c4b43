use tsp_optimizer::algorithm::algorithm::Algorithm;
use tsp_optimizer::algorithm::branch_and_bound::BranchAndBound;
use tsp_optimizer::distance::create_distance_matrix;
use tsp_optimizer::length::calculate_path_distance;
use tsp_optimizer::models::city::City;
use tsp_optimizer::models::coordinates::Coordinates;
use tsp_optimizer::models::uf::UF;

fn city(id: u16, latitude: i32, longitude: i32) -> City {
    City::new(id, UF::get_uf_from_code(0).unwrap(), Coordinates::new(latitude, longitude))
}

fn square(side: i32) -> Vec<City> {
    vec![city(0, 0, 0), city(1, 0, side), city(2, side, side), city(3, side, 0)]
}

fn is_permutation(path: &Vec<u16>, n: usize) -> bool {
    let mut seen = vec![false; n];
    for &c in path {
        if (c as usize) >= n || seen[c as usize] {
            return false;
        }
        seen[c as usize] = true;
    }
    path.len() == n
}

fn shortest_by_enumeration(matrix: &Vec<u64>, n: usize) -> u64 {
    fn extend(path: &mut Vec<u16>, used: &mut Vec<bool>, matrix: &Vec<u64>, n: usize, best: &mut u64) {
        if path.len() == n {
            let mut length = 0;
            for k in 0..n {
                length += matrix[path[k] as usize * n + path[(k + 1) % n] as usize];
            }
            if length < *best {
                *best = length;
            }
            return;
        }
        for c in 1..n {
            if !used[c] {
                used[c] = true;
                path.push(c as u16);
                extend(path, used, matrix, n, best);
                path.pop();
                used[c] = false;
            }
        }
    }
    let mut best = u64::MAX;
    let mut used = vec![false; n];
    used[0] = true;
    extend(&mut vec![0], &mut used, matrix, n, &mut best);
    best
}

#[test]
fn exact_search_on_the_unit_square_returns_four() {
    let cities = square(1);
    let mut engine = BranchAndBound::new(&cities);
    let response = engine.execute();
    assert_eq!(*response.get_distance(), 4 * 1024);
    assert_eq!(*response.get_final_path(), vec![0, 1, 2, 3]);
    assert!(is_permutation(response.get_final_path(), 4));
    assert!(response.get_initial_path().is_empty());
    assert!(!engine.cut_short);
}

#[test]
fn exact_search_on_a_square_matches_the_three_cyclic_tours() {
    let cities = square(1000);
    let matrix = create_distance_matrix(&cities);
    let tours: Vec<Vec<u16>> = vec![vec![0, 1, 2, 3], vec![0, 1, 3, 2], vec![0, 2, 1, 3]];
    let lengths: Vec<u64> = tours.iter().map(|t| calculate_path_distance(t, &matrix)).collect();
    assert_eq!(lengths, vec![4096000, 4944308, 4944308]);
    let mut engine = BranchAndBound::new(&cities);
    let response = engine.execute();
    assert_eq!(*response.get_distance(), 4096000);
    assert_eq!(
        calculate_path_distance(response.get_final_path(), &matrix),
        *response.get_distance()
    );
    assert_eq!(response.get_final_path()[0], 0);
}

#[test]
fn exact_search_finds_the_shortest_tour_of_seven_points() {
    let cities = vec![
        city(0, 12, 7),
        city(1, 90, 31),
        city(2, 45, 88),
        city(3, 3, 60),
        city(4, 70, 70),
        city(5, 33, 20),
        city(6, 58, 5),
    ];
    let matrix = create_distance_matrix(&cities);
    let mut engine = BranchAndBound::new(&cities);
    let response = engine.execute();
    assert!(!engine.cut_short);
    assert!(is_permutation(response.get_final_path(), 7));
    assert_eq!(*response.get_distance(), shortest_by_enumeration(&matrix, 7));
    assert_eq!(
        calculate_path_distance(response.get_final_path(), &matrix),
        *response.get_distance()
    );
}

#[test]
fn exact_search_on_two_points_goes_there_and_back() {
    let cities = vec![city(0, 0, 0), city(1, 0, 7)];
    let mut engine = BranchAndBound::new(&cities);
    let response = engine.execute();
    assert_eq!(*response.get_final_path(), vec![0, 1]);
    assert_eq!(*response.get_distance(), 14 * 1024);
}

#[test]
fn exact_search_gives_up_at_the_ceiling_with_a_tour_in_hand() {
    let cities = vec![
        city(0, 12, 7),
        city(1, 90, 31),
        city(2, 45, 88),
        city(3, 3, 60),
        city(4, 70, 70),
        city(5, 33, 20),
        city(6, 58, 5),
        city(7, 20, 95),
    ];
    let matrix = create_distance_matrix(&cities);
    let mut engine = BranchAndBound::new(&cities);
    engine.max_call_count = 9;
    let response = engine.execute();
    assert!(engine.cut_short);
    assert!(is_permutation(response.get_final_path(), 8));
    assert_eq!(
        calculate_path_distance(response.get_final_path(), &matrix),
        *response.get_distance()
    );
    assert!(*response.get_distance() >= shortest_by_enumeration(&matrix, 8));
}

#[test]
fn a_second_exact_search_keeps_the_best_tour() {
    let cities = square(1000);
    let mut engine = BranchAndBound::new(&cities);
    let first = engine.execute();
    let second = engine.execute();
    assert_eq!(*first.get_distance(), *second.get_distance());
}

#[test]
fn with_the_ceiling_reached_nothing_is_searched() {
    let cities = square(1000);
    let mut engine = BranchAndBound::new(&cities);
    engine.max_call_count = 0;
    let mut path: Vec<u16> = vec![0, 3, 1, 2];
    let mut visited = vec![true, false, false, false];
    engine.test(&mut path, &mut visited, 1, 0);
    assert!(engine.cut_short);
    assert_eq!(engine.best_cost, u64::MAX);
    assert_eq!(engine.call_count, 0);
    assert_eq!(path, vec![0, 3, 1, 2]);
    assert_eq!(visited, vec![true, false, false, false]);
}

#[test]
fn the_unit_square_in_diagonal_order_gives_the_uncrossed_tour() {
    let cities = vec![city(0, 0, 0), city(1, 1, 1), city(2, 1, 0), city(3, 0, 1)];
    let matrix = create_distance_matrix(&cities);
    assert_eq!(calculate_path_distance(&vec![0, 1, 2, 3], &matrix), 2 * 1024 + 2 * 1448);
    let mut engine = BranchAndBound::new(&cities);
    let response = engine.execute();
    assert_eq!(*response.get_distance(), 4 * 1024);
    assert_eq!(*response.get_final_path(), vec![0, 2, 1, 3]);
    let wide = vec![city(0, 0, 0), city(1, 1000, 1000), city(2, 1000, 0), city(3, 0, 1000)];
    let mut engine = BranchAndBound::new(&wide);
    let response = engine.execute();
    assert_eq!(*response.get_distance(), 4096000);
    assert_eq!(*response.get_final_path(), vec![0, 2, 1, 3]);
}

#[test]
fn the_calls_are_counted_without_a_break() {
    let cities = square(1000);
    let mut engine = BranchAndBound::new(&cities);
    let first = engine.execute();
    let calls = engine.call_count;
    assert!(calls >= 4);
    assert_eq!(first.get_metadata_info().as_str(), format!("total calls: {}", calls));
    engine.execute();
    assert!(engine.call_count > calls);
}
