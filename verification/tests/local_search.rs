use tsp_optimizer::algorithm::two_opt::two_opt;
use tsp_optimizer::distance::create_distance_matrix;
use tsp_optimizer::length::calculate_path_distance;
use tsp_optimizer::models::city::City;
use tsp_optimizer::models::coordinates::Coordinates;
use tsp_optimizer::models::uf::UF;
use tsp_optimizer::moves::{joined, relocate, rotate, swap_entries, turned_round};
use tsp_optimizer::select::{membership, pick};
use tsp_optimizer::tour::{contains, identity, position_of, reverse_range, slice_of};

fn city(id: u16, latitude: i32, longitude: i32) -> City {
    City::new(id, UF::get_uf_from_code(0).unwrap(), Coordinates::new(latitude, longitude))
}

fn square() -> Vec<City> {
    vec![city(0, 0, 0), city(1, 0, 1000), city(2, 1000, 1000), city(3, 1000, 0)]
}

fn ring() -> Vec<City> {
    vec![
        city(0, 0, 0),
        city(1, 0, 30),
        city(2, 20, 50),
        city(3, 50, 50),
        city(4, 70, 30),
        city(5, 70, 0),
        city(6, 50, -20),
        city(7, 20, -20),
    ]
}

#[test]
fn two_opt_removes_the_crossing_of_the_square() {
    let matrix = create_distance_matrix(&square());
    let mut path: Vec<u16> = vec![0, 2, 1, 3];
    let cost = two_opt(&mut path, &matrix, 4);
    assert_eq!(path, vec![0, 1, 2, 3]);
    assert_eq!(cost, 4096000);
}

fn rectangle() -> Vec<City> {
    vec![city(0, 0, 0), city(1, 4, 3), city(2, 0, 3), city(3, 4, 0)]
}

#[test]
fn two_opt_exchanges_edges_across_the_way_back() {
    let matrix = create_distance_matrix(&rectangle());
    let whole: Vec<u64> = vec![0, 5, 3, 4, 5, 0, 4, 3, 3, 4, 0, 5, 4, 3, 5, 0];
    assert_eq!(matrix, whole.iter().map(|d| d * 1024).collect::<Vec<u64>>());
    let mut path: Vec<u16> = vec![2, 0, 1, 3];
    assert_eq!(calculate_path_distance(&path, &matrix), 16 * 1024);
    let cost = two_opt(&mut path, &matrix, 4);
    assert_eq!(cost, 14 * 1024);
    assert_eq!(path, vec![2, 0, 3, 1]);
}

#[test]
fn two_opt_takes_both_diagonals_out_of_the_rectangle() {
    let matrix = create_distance_matrix(&rectangle());
    let mut path: Vec<u16> = vec![0, 1, 2, 3];
    assert_eq!(calculate_path_distance(&path, &matrix), 18 * 1024);
    let cost = two_opt(&mut path, &matrix, 4);
    assert_eq!(path, vec![0, 2, 1, 3]);
    assert_eq!(cost, 14 * 1024);
}

#[test]
fn two_opt_never_lengthens_a_tour() {
    let cities = ring();
    let matrix = create_distance_matrix(&cities);
    let tours: Vec<Vec<u16>> = vec![
        vec![0, 1, 2, 3, 4, 5, 6, 7],
        vec![0, 4, 1, 5, 2, 6, 3, 7],
        vec![7, 0, 6, 1, 5, 2, 4, 3],
        vec![3, 6, 0, 2, 5, 7, 1, 4],
    ];
    for tour in tours {
        let before = calculate_path_distance(&tour, &matrix);
        let mut path = tour.clone();
        let cost = two_opt(&mut path, &matrix, 8);
        assert!(cost <= before);
        assert_eq!(cost, calculate_path_distance(&path, &matrix));
        assert_eq!(path[0], tour[0]);
        for i in 1..8 {
            for j in i + 1..8 {
                let d = |a: u16, b: u16| matrix[a as usize * 8 + b as usize];
                let after = path[(j + 1) % 8];
                assert!(
                    d(path[i - 1], path[j]) + d(path[i], after)
                        >= d(path[i - 1], path[i]) + d(path[j], after)
                );
            }
        }
        let mut sorted = path.clone();
        sorted.sort();
        assert_eq!(sorted, vec![0, 1, 2, 3, 4, 5, 6, 7]);
    }
}

#[test]
fn two_opt_applied_again_changes_nothing() {
    let cities = ring();
    let matrix = create_distance_matrix(&cities);
    let mut path: Vec<u16> = vec![3, 6, 0, 2, 5, 7, 1, 4];
    let first = two_opt(&mut path, &matrix, 8);
    let settled = path.clone();
    let second = two_opt(&mut path, &matrix, 8);
    assert_eq!(path, settled);
    assert_eq!(first, second);
}

#[test]
fn two_opt_leaves_short_tours_alone() {
    let matrix = create_distance_matrix(&square());
    let mut path: Vec<u16> = vec![2, 0, 3];
    assert_eq!(two_opt(&mut path, &matrix, 4), 1448154 + 2 * 1024000);
    assert_eq!(path, vec![2, 0, 3]);
    let mut none: Vec<u16> = Vec::new();
    assert_eq!(two_opt(&mut none, &matrix, 4), 0);
}

#[test]
fn path_helpers_do_what_they_say() {
    let path: Vec<u16> = vec![4, 2, 0, 3, 1];
    assert!(contains(&path, 3));
    assert!(!contains(&path, 5));
    assert_eq!(position_of(&path, 3), 3);
    assert_eq!(slice_of(&path, 1, 4), vec![2, 0, 3]);
    assert_eq!(identity(4), vec![0, 1, 2, 3]);
    let mut turned = path.clone();
    reverse_range(&mut turned, 1, 3);
    assert_eq!(turned, vec![4, 3, 0, 2, 1]);
    reverse_range(&mut turned, 2, 2);
    assert_eq!(turned, vec![4, 3, 0, 2, 1]);
    let mut swapped = path.clone();
    swap_entries(&mut swapped, 0, 4);
    assert_eq!(swapped, vec![1, 2, 0, 3, 4]);
    assert_eq!(joined(&vec![1, 2], &vec![3]), vec![1, 2, 3]);
    assert_eq!(turned_round(&vec![1, 2, 3]), vec![3, 2, 1]);
    assert_eq!(rotate(&path, 2), vec![0, 3, 1, 4, 2]);
}

#[test]
fn relocate_moves_a_block() {
    let path: Vec<u16> = vec![0, 1, 2, 3, 4, 5, 6, 7];
    assert_eq!(relocate(&path, 1, 2, 3, false), vec![0, 3, 4, 1, 2, 5, 6, 7]);
    assert_eq!(relocate(&path, 1, 2, 3, true), vec![0, 3, 4, 2, 1, 5, 6, 7]);
    assert_eq!(relocate(&path, 5, 3, 0, false), vec![5, 6, 7, 0, 1, 2, 3, 4]);
    assert_eq!(relocate(&path, 2, 3, 2, false), path);
    assert_eq!(relocate(&path, 0, 0, 4, false), path);
}

#[test]
fn pick_takes_members_or_the_rest() {
    let source: Vec<u16> = vec![3, 7, 5, 1, 6, 0, 2, 4];
    let set: Vec<u16> = vec![2, 3, 4];
    assert_eq!(pick(&source, &set, true, 8), vec![3, 2, 4]);
    assert_eq!(pick(&source, &set, false, 8), vec![7, 5, 1, 6, 0]);
    assert_eq!(
        membership(&set, 6),
        vec![false, false, true, true, true, false]
    );
}
