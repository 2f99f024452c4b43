use tsp_optimizer::algorithm::algorithm::Algorithm;
use tsp_optimizer::algorithm::algorithm_strategy::{AlgorithmKind, AlgorithmStrategy, ConfigError};
use tsp_optimizer::algorithm::ant_colony_optimization::{
    beta_for_entropy, rank_by_cost, scale, scale_repeatedly, wheel, AntColonyOptimization, Entropy,
    MAX_WEIGHT, ONE,
};
use tsp_optimizer::algorithm::simulated_annealing::Metropolis;
use tsp_optimizer::distance::create_distance_matrix;
use tsp_optimizer::length::calculate_path_distance;
use tsp_optimizer::models::city::City;
use tsp_optimizer::models::coordinates::Coordinates;
use tsp_optimizer::models::uf::{UFEnum, UF};
use tsp_optimizer::text::{is_same_text, matches_code};

struct Shannon;

impl Entropy for Shannon {
    fn entropy(&mut self, pheromone_matrix: &Vec<u64>) -> u64 {
        let total: f64 = pheromone_matrix.iter().map(|&p| p as f64).sum();
        let bits: f64 = pheromone_matrix
            .iter()
            .filter(|&&p| p > 0)
            .map(|&p| {
                let share = p as f64 / total;
                -share * share.log2()
            })
            .sum();
        (bits * ONE as f64) as u64
    }
}

struct Never;

impl Metropolis for Never {
    fn accept(&mut self, _rise: u64, _temperature: u64) -> Option<u64> {
        None
    }
}

fn city(id: u16, latitude: i32, longitude: i32) -> City {
    City::new(id, UF::get_uf_from_code(0).unwrap(), Coordinates::new(latitude, longitude))
}

fn square() -> Vec<City> {
    vec![city(0, 0, 0), city(1, 0, 1000), city(2, 1000, 1000), city(3, 1000, 0)]
}

fn ring() -> Vec<City> {
    vec![
        city(0, 0, 0),
        city(1, 0, 30),
        city(2, 20, 50),
        city(3, 50, 50),
        city(4, 70, 30),
        city(5, 70, 0),
        city(6, 50, -20),
        city(7, 20, -20),
    ]
}

fn is_permutation(path: &Vec<u16>, n: usize) -> bool {
    let mut sorted = path.clone();
    sorted.sort();
    sorted == (0..n as u16).collect::<Vec<u16>>()
}

#[test]
fn scaling_rounds_down_and_stops_at_the_top() {
    assert_eq!(scale(10, 3, 4), 7);
    assert_eq!(scale(0, 3, 4), 0);
    assert_eq!(scale(u64::MAX, 2, 1), u64::MAX);
    assert_eq!(scale(u64::MAX, 1, 2), u64::MAX / 2);
    assert_eq!(scale_repeatedly(1000, 1, 2, 3), 125);
    assert_eq!(scale_repeatedly(1000, 1, 2, 0), 1000);
    assert_eq!(scale_repeatedly(ONE, 3 * ONE, ONE, 2), 9 * ONE);
}

#[test]
fn the_wheel_stops_where_the_draw_falls() {
    let weights: Vec<u64> = vec![1, 2, 3];
    assert_eq!(wheel(&weights, 0), 0);
    assert_eq!(wheel(&weights, 1), 1);
    assert_eq!(wheel(&weights, 2), 1);
    assert_eq!(wheel(&weights, 3), 2);
    assert_eq!(wheel(&weights, 5), 2);
    assert_eq!(wheel(&weights, 99), 2);
    assert_eq!(wheel(&vec![0, 0, 4], 0), 2);
    assert_eq!(wheel(&vec![0, 0], 0), 1);
    assert_eq!(wheel(&vec![7], 3), 0);
}

#[test]
fn lower_entropy_gives_a_higher_exponent() {
    let most = 45 * ONE;
    assert_eq!(beta_for_entropy(0, 10), 5);
    assert_eq!(beta_for_entropy(most * 3 / 10, 10), 5);
    assert_eq!(beta_for_entropy(most * 4 / 10, 10), 4);
    assert_eq!(beta_for_entropy(most * 5 / 10, 10), 4);
    assert_eq!(beta_for_entropy(most * 6 / 10, 10), 3);
    assert_eq!(beta_for_entropy(most * 7 / 10, 10), 3);
    assert_eq!(beta_for_entropy(most * 8 / 10, 10), 2);
    assert_eq!(beta_for_entropy(u64::MAX, 10), 2);
    let mut last = 5;
    for tenth in 0..=12 {
        let beta = beta_for_entropy(most * tenth / 10, 10);
        assert!(beta <= last);
        last = beta;
    }
}

#[test]
fn a_new_colony_has_its_settings_and_candidate_lists() {
    let cities = ring();
    let engine = AntColonyOptimization::new(&cities, Shannon);
    assert_eq!(engine.num_ants, 50);
    assert_eq!(engine.vaporation_rate, 7500);
    assert_eq!(engine.best_cost, u64::MAX);
    assert_eq!(engine.candidate_lists.len(), 8);
    for list in &engine.candidate_lists {
        assert_eq!(list.len(), 2);
    }
    assert_eq!(engine.candidate_lists[0], vec![7, 1]);
    assert_eq!(*engine.use_candidate_lists(4), engine.candidate_lists[4]);
    assert_eq!(engine.use_all_cities(), vec![0, 1, 2, 3, 4, 5, 6, 7]);
    let lists = AntColonyOptimization::<Shannon>::build_candidate_lists(&engine.distance_matrix, 8);
    assert_eq!(lists, engine.candidate_lists);
}

#[test]
fn the_rate_stays_at_the_start_and_falls_when_the_search_stalls() {
    let cities = square();
    let mut engine = AntColonyOptimization::new(&cities, Shannon);
    engine.update_rho(0);
    assert_eq!(engine.vaporation_rate, 3000);
    engine.s = 31;
    engine.update_rho(139);
    assert_eq!(engine.vaporation_rate, 3000);
    engine.update_rho(140);
    assert_eq!(engine.vaporation_rate, 2400);
    engine.s = 30;
    engine.update_rho(141);
    assert_eq!(engine.vaporation_rate, 2400);
    engine.s = 31;
    engine.vaporation_rate = 110;
    engine.update_rho(500);
    assert_eq!(engine.vaporation_rate, 100);
    engine.update_rho(501);
    assert_eq!(engine.vaporation_rate, 100);
}

#[test]
fn fresh_pheromone_is_one_off_the_diagonal() {
    let cities = square();
    let mut engine = AntColonyOptimization::new(&cities, Shannon);
    assert_eq!(
        engine.create_pheromone_matrix(3),
        vec![0, ONE, ONE, ONE, 0, ONE, ONE, ONE, 0]
    );
    assert_eq!(engine.create_pheromone_matrix(0), Vec::<u64>::new());
}

#[test]
fn tours_are_ranked_by_length_and_then_by_place() {
    let paths: Vec<(Vec<u16>, u64)> =
        vec![(vec![0, 1], 30), (vec![1, 0], 10), (vec![0, 1], 20), (vec![1, 0], 10)];
    let ranked = rank_by_cost(&paths);
    let costs: Vec<u64> = ranked.iter().map(|p| p.1).collect();
    assert_eq!(costs, vec![10, 10, 20, 30]);
    assert_eq!(ranked[2].0, vec![0, 1]);
}

#[test]
fn one_cycle_of_evaporation_and_deposit() {
    let cities = square();
    let mut engine = AntColonyOptimization::new(&cities, Shannon);
    let mut pheromone = engine.create_pheromone_matrix(4);
    let paths: Vec<(Vec<u16>, u64)> = vec![(vec![0, 1, 2, 3], 4096000)];
    engine.update_pheromone(&mut pheromone, &paths, 4096000);
    let dried = ONE * 2500 / 10000;
    let laid = dried + 10;
    assert_eq!(
        pheromone,
        vec![0, laid, dried, laid, laid, 0, laid, dried, dried, laid, 0, laid, laid, dried, laid, 0]
    );
}

#[test]
fn pheromone_stays_at_or_above_nothing_through_many_cycles() {
    let cities = ring();
    let matrix = create_distance_matrix(&cities);
    let mut engine = AntColonyOptimization::new(&cities, Shannon);
    let mut pheromone = engine.create_pheromone_matrix(8);
    for round in 0..200 {
        let mut paths: Vec<(Vec<u16>, u64)> = Vec::new();
        for _ in 0..5 {
            let mut path: Vec<u16> = Vec::new();
            let mut visited = vec![false; 8];
            engine.run(&mut path, &mut visited, &pheromone);
            assert!(is_permutation(&path, 8));
            assert_eq!(visited, vec![true; 8]);
            let cost = calculate_path_distance(&path, &matrix);
            paths.push((path, cost));
        }
        engine.update_rho(round);
        let before = pheromone.clone();
        let q = engine.q * 100;
        engine.update_pheromone(&mut pheromone, &paths, q);
        assert_eq!(pheromone.len(), 64);
        for d in 0..8 {
            assert_eq!(pheromone[d * 8 + d], 0);
        }
        for k in 0..64 {
            let dried = (before[k] as u128 * (10000 - engine.vaporation_rate) as u128 / 10000) as u64;
            assert!(pheromone[k] >= dried);
        }
    }
}

#[test]
fn refining_the_best_tours_keeps_them_tours() {
    let cities = ring();
    let matrix = create_distance_matrix(&cities);
    let mut engine = AntColonyOptimization::new(&cities, Shannon);
    let tours: Vec<Vec<u16>> = vec![
        vec![0, 4, 1, 5, 2, 6, 3, 7],
        vec![0, 1, 2, 3, 4, 5, 6, 7],
        vec![3, 6, 0, 2, 5, 7, 1, 4],
    ];
    let mut paths: Vec<(Vec<u16>, u64)> =
        tours.iter().map(|t| (t.clone(), calculate_path_distance(t, &matrix))).collect();
    let shortest = paths[1].1;
    let longest = paths.iter().map(|p| p.1).max().unwrap();
    engine.optimize_best_paths(&mut paths, 2, 8);
    assert_eq!(paths.len(), 3);
    assert_eq!(paths[0].0, vec![0, 1, 2, 3, 4, 5, 6, 7]);
    assert_eq!(paths[0].1, shortest);
    assert_eq!(paths[2].1, longest);
    for (path, cost) in &paths {
        assert!(is_permutation(path, 8));
        assert_eq!(*cost, calculate_path_distance(path, &matrix));
    }
}

#[test]
fn the_next_point_comes_from_the_candidate_list_while_it_lasts() {
    let cities = ring();
    let mut engine = AntColonyOptimization::new(&cities, Shannon);
    let pheromone = engine.create_pheromone_matrix(8);
    let mut visited = vec![false; 8];
    visited[0] = true;
    for _ in 0..50 {
        let next = engine.chose_next_city(0, &visited, &pheromone);
        assert!(next == 7 || next == 1);
    }
    visited[7] = true;
    assert_eq!(engine.chose_next_city(0, &visited, &pheromone), 1);
    visited[1] = true;
    for _ in 0..50 {
        let next = engine.chose_next_city(0, &visited, &pheromone);
        assert!(next >= 2 && next <= 6);
    }
    assert_eq!(engine.open_candidates(0, &visited), vec![2, 3, 4, 5, 6]);
    let open: Vec<usize> = vec![1, 4];
    let weights = engine.attractions(0, &open, &pheromone);
    let far = create_distance_matrix(&cities)[4];
    assert_eq!(weights, vec![ONE, ONE * (30 * 1024) / far]);
    assert!(weights.iter().all(|&w| w <= MAX_WEIGHT));
}

#[test]
fn the_colony_returns_a_tour_with_its_length() {
    let cities = ring();
    let mut engine = AntColonyOptimization::new(&cities, Shannon);
    engine.stall_limit = 20;
    let response = engine.execute();
    let matrix = create_distance_matrix(&cities);
    assert!(is_permutation(response.get_final_path(), 8));
    assert!(response.get_initial_path().is_empty());
    assert_eq!(
        calculate_path_distance(response.get_final_path(), &matrix),
        *response.get_distance()
    );
    assert_eq!(*response.get_distance(), engine.best_cost);
    assert!(engine.beta >= 2 && engine.beta <= 5);
}

#[test]
fn points_in_the_same_place_do_not_trouble_the_colony() {
    let cities = vec![city(0, 0, 0), city(1, 0, 0), city(2, 0, 10), city(3, 0, 0), city(4, 5, 5)];
    let matrix = create_distance_matrix(&cities);
    assert_eq!(matrix[1], 0);
    let mut engine = AntColonyOptimization::new(&cities, Shannon);
    engine.stall_limit = 10;
    let response = engine.execute();
    assert!(is_permutation(response.get_final_path(), 5));
    assert_eq!(
        calculate_path_distance(response.get_final_path(), &matrix),
        *response.get_distance()
    );
}

#[test]
fn codes_are_read_in_capitals_or_not() {
    assert_eq!(AlgorithmStrategy::parse_code("ACO"), Some(AlgorithmKind::AntColony));
    assert_eq!(AlgorithmStrategy::parse_code("aco"), Some(AlgorithmKind::AntColony));
    assert_eq!(AlgorithmStrategy::parse_code("Bb"), Some(AlgorithmKind::BranchAndBound));
    assert_eq!(AlgorithmStrategy::parse_code("g"), Some(AlgorithmKind::Genetic));
    assert_eq!(AlgorithmStrategy::parse_code("sA"), Some(AlgorithmKind::SimulatedAnnealing));
    assert_eq!(AlgorithmStrategy::parse_code(""), None);
    assert_eq!(AlgorithmStrategy::parse_code("GA"), None);
    assert_eq!(AlgorithmStrategy::parse_code("B"), None);
    assert_eq!(AlgorithmStrategy::parse_code(" SA"), None);
    assert_eq!(AlgorithmStrategy::parse_code("\u{17f}a"), Some(AlgorithmKind::SimulatedAnnealing));
    assert_eq!(AlgorithmStrategy::parse_capitals("SA"), Some(AlgorithmKind::SimulatedAnnealing));
    assert_eq!(AlgorithmStrategy::parse_capitals("sa"), None);
    assert_eq!(AlgorithmStrategy::parse_capitals("ACO"), Some(AlgorithmKind::AntColony));
    assert_eq!(AlgorithmStrategy::parse_capitals("BB"), Some(AlgorithmKind::BranchAndBound));
    assert_eq!(AlgorithmStrategy::parse_capitals("G"), Some(AlgorithmKind::Genetic));
    assert_eq!(AlgorithmStrategy::parse_capitals("ACOX"), None);
    assert!(is_same_text("ab", "ab"));
    assert!(!is_same_text("ab", "aB"));
    assert!(!is_same_text("ab", "abc"));
    assert!(matches_code("brazil", "BRAZIL"));
    assert!(!matches_code("BRAZIL", "brazil"));
    assert!(!matches_code("[B", "BB"));
}

#[test]
fn the_dispatcher_runs_the_engine_that_the_code_names() {
    let cities = square();
    let outcome = AlgorithmStrategy::execute_algorithm("bb", &cities, Never, Shannon);
    let response = outcome.unwrap();
    assert_eq!(*response.get_distance(), 4096000);
    assert!(response.get_metadata_info().starts_with("total calls: "));
    assert!(response.get_initial_path().is_empty());
    assert_eq!(response.get_final_path()[0], 0);
    assert!(AlgorithmStrategy::try_execute_algorithm("XX", &cities, Never, Shannon).is_none());
    let tried = AlgorithmStrategy::try_execute_algorithm("Bb", &cities, Never, Shannon);
    assert_eq!(*tried.unwrap().unwrap().get_distance(), 4096000);
    let ants = AlgorithmStrategy::execute_kind(AlgorithmKind::AntColony, &cities, Never, Shannon)
        .unwrap();
    assert!(is_permutation(ants.get_final_path(), 4));
    assert_eq!(*ants.get_distance(), 4096000);
}

#[test]
fn the_dispatcher_turns_degenerate_instances_away() {
    let one = vec![city(0, 0, 0)];
    let none: Vec<City> = Vec::new();
    for code in ["ACO", "BB", "G", "SA"] {
        assert!(matches!(
            AlgorithmStrategy::execute_algorithm(code, &one, Never, Shannon),
            Err(ConfigError::TooFewPoints)
        ));
        assert!(matches!(
            AlgorithmStrategy::execute_algorithm(code, &none, Never, Shannon),
            Err(ConfigError::TooFewPoints)
        ));
    }
    let many: Vec<City> = (0..65536).map(|i| city(0, i, 0)).collect();
    assert!(matches!(
        AlgorithmStrategy::execute_kind(AlgorithmKind::BranchAndBound, &many, Never, Shannon),
        Err(ConfigError::TooManyPoints)
    ));
}

#[test]
fn units_are_found_by_code_and_by_name() {
    assert_eq!(*UF::get_uf_from_code(35).unwrap().get_uf_enum(), UFEnum::SP);
    assert_eq!(*UF::get_uf_from_code(0).unwrap().get_uf_enum(), UFEnum::BRAZIL);
    assert_eq!(*UF::get_uf_from_code(53).unwrap().get_uf_enum(), UFEnum::DF);
    assert!(UF::get_uf_from_code(1).is_none());
    assert!(UF::get_uf_from_code(99).is_none());
    assert_eq!(*UF::get_uf_from_str("sp").unwrap().get_uf_enum(), UFEnum::SP);
    assert_eq!(*UF::get_uf_from_str("Brazil").unwrap().get_uf_enum(), UFEnum::BRAZIL);
    assert_eq!(*UF::get_uf_from_str("TO").unwrap().get_uf_enum(), UFEnum::TO);
    assert!(UF::get_uf_from_str("XX").is_none());
    assert_eq!(*UF::get_uf_from_str("\u{17f}p").unwrap().get_uf_enum(), UFEnum::SP);
    assert_eq!(*UF::from_capitals("RJ").unwrap().get_uf_enum(), UFEnum::RJ);
    assert!(UF::from_capitals("rj").is_none());
    assert!(UF::get_uf_from_str("").is_none());
    let acre = UF::get_uf_from_str("ac").unwrap();
    assert_eq!(*acre.get_min_max_latitude(), (-11_018_800, -7_616_570));
    assert_eq!(*acre.get_min_max_longitude(), (-72_899_700, -66_897_200));
    let codes: Vec<u8> = (0..=255).filter(|c| UF::get_uf_from_code(*c).is_some()).collect();
    assert_eq!(codes.len(), 28);
}

#[test]
fn a_city_keeps_what_it_is_given() {
    let unit = UF::get_uf_from_code(33).unwrap();
    let c = City::new(7, unit, Coordinates::new(-22_906_800, -43_172_900));
    assert_eq!(c.get_id(), 7);
    assert_eq!(*c.get_uf().get_uf_enum(), UFEnum::RJ);
    assert_eq!(c.get_coordinates().get_latitude(), -22_906_800);
    assert_eq!(c.get_coordinates().get_longitude(), -43_172_900);
    assert_eq!(c.get_coordinates().get_as_array(), [-22_906_800, -43_172_900]);
}

#[test]
fn each_ranked_tour_lays_by_its_rank_on_its_edges() {
    let cities = square();
    let mut engine = AntColonyOptimization::new(&cities, Shannon);
    engine.num_ants = 6;
    engine.vaporation_rate = 5000;
    let mut pheromone = vec![0, 40, 40, 40, 40, 0, 40, 40, 40, 40, 0, 40, 40, 40, 40, 0];
    let paths: Vec<(Vec<u16>, u64)> =
        vec![(vec![0, 2, 1, 3], 4944308), (vec![1, 2, 3, 0], 4096000), (vec![3, 1, 0, 2], 4944308)];
    engine.update_pheromone(&mut pheromone, &paths, 8192000);
    let first = 20 + 2 * 8192000 / 4096000 + 8192000 / 4096000;
    let other = 20;
    assert_eq!(
        pheromone,
        vec![0, first, other, first, first, 0, first, other, other, first, 0, first, first, other, first, 0]
    );
}

#[test]
fn the_books_of_a_generation_keep_the_shortest_tour() {
    let cities = square();
    let matrix = create_distance_matrix(&cities);
    let mut engine = AntColonyOptimization::new(&cities, Shannon);
    let crossed: Vec<u16> = vec![0, 2, 1, 3];
    let round: Vec<u16> = vec![1, 2, 3, 0];
    let again: Vec<u16> = vec![0, 1, 2, 3];
    let paths: Vec<(Vec<u16>, u64)> = vec![
        (crossed.clone(), calculate_path_distance(&crossed, &matrix)),
        (round.clone(), calculate_path_distance(&round, &matrix)),
        (again.clone(), calculate_path_distance(&again, &matrix)),
    ];
    assert_eq!(engine.note_generation(&paths, 3), (true, 0));
    assert_eq!(engine.best_cost, 4096000);
    assert_eq!(engine.best_path, round);
    assert_eq!(engine.s, 0);
    assert_eq!(engine.note_generation(&paths, 0), (false, 1));
    assert_eq!(engine.note_generation(&paths, 1), (false, 2));
    assert_eq!(engine.best_path, round);
    assert_eq!(engine.s, 2);
    let none: Vec<(Vec<u16>, u64)> = Vec::new();
    assert_eq!(engine.note_generation(&none, 7), (false, 8));
    assert_eq!(engine.best_cost, 4096000);
}

#[test]
fn the_colony_ends_after_as_many_stalled_generations_as_its_limit() {
    let cities = square();
    let mut engine = AntColonyOptimization::new(&cities, Shannon);
    engine.stall_limit = 3;
    let (path, cost) = engine.start();
    assert_eq!(cost, 4096000);
    assert!(is_permutation(&path, 4));
    assert_eq!(engine.s, 3);
}
