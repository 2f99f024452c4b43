use rand::Rng;
use tsp_optimizer::algorithm::algorithm::Algorithm;
use tsp_optimizer::algorithm::simulated_annealing::{
    create_mcl_list, settle_move, Metropolis, SimulatedAnnealing, Solution,
};
use tsp_optimizer::distance::create_distance_matrix;
use tsp_optimizer::length::calculate_path_distance;
use tsp_optimizer::models::city::City;
use tsp_optimizer::models::coordinates::Coordinates;
use tsp_optimizer::models::uf::UF;
use tsp_optimizer::temperature::TemperatureList;

struct Criterion {
    generator: rand::rngs::ThreadRng,
}

impl Metropolis for Criterion {
    fn accept(&mut self, rise: u64, temperature: u64) -> Option<u64> {
        let draw: f64 = self.generator.random_range(0.0..1.0);
        if temperature == 0 || draw <= 0.0 {
            return None;
        }
        let chance = (-(rise as f64) / temperature as f64).exp();
        if draw < chance {
            Some((-(rise as f64) / draw.ln()) as u64)
        } else {
            None
        }
    }
}

struct Always;

impl Metropolis for Always {
    fn accept(&mut self, rise: u64, _temperature: u64) -> Option<u64> {
        Some(rise)
    }
}

struct Never;

impl Metropolis for Never {
    fn accept(&mut self, _rise: u64, _temperature: u64) -> Option<u64> {
        None
    }
}

fn city(id: u16, latitude: i32, longitude: i32) -> City {
    City::new(id, UF::get_uf_from_code(0).unwrap(), Coordinates::new(latitude, longitude))
}

fn line(n: u16) -> Vec<City> {
    (0..n).map(|i| city(i, 0, 10 * i as i32)).collect()
}

fn solution(path: Vec<u16>, matrix: &Vec<u64>) -> Solution {
    let distance = calculate_path_distance(&path, matrix);
    Solution::new(path, distance)
}

fn is_permutation(path: &Vec<u16>, n: usize) -> bool {
    let mut sorted = path.clone();
    sorted.sort();
    sorted == (0..n as u16).collect::<Vec<u16>>()
}

fn straight() -> Vec<u16> {
    vec![0, 1, 2, 3, 4, 5, 6, 7]
}

#[test]
fn solution_keeps_what_it_is_given() {
    let s = Solution::new(vec![1, 0], 9);
    assert_eq!(*s.get_path(), vec![1, 0]);
    assert_eq!(*s.get_distance(), 9);
    let matrix = create_distance_matrix(&line(2));
    assert_eq!(s.update_distance(&matrix).distance, 20 * 1024);
}

#[test]
fn inversion_turns_round_what_lies_between_the_points() {
    let matrix = create_distance_matrix(&line(8));
    let moved = solution(straight(), &matrix).inverse_sampling(&matrix, 1, 4);
    assert_eq!(moved.path, vec![0, 1, 4, 3, 2, 5, 6, 7]);
    assert_eq!(moved.distance, calculate_path_distance(&moved.path, &matrix));
    let backwards = solution(straight(), &matrix).inverse_sampling(&matrix, 4, 1);
    assert_eq!(backwards.path, vec![0, 1, 4, 3, 2, 5, 6, 7]);
    let same = solution(straight(), &matrix).inverse_sampling(&matrix, 3, 3);
    assert_eq!(same.path, straight());
}

#[test]
fn swap_sampling_exchanges_the_two_points() {
    let matrix = create_distance_matrix(&line(8));
    let moved = solution(straight(), &matrix).swap_sampling(&matrix, 1, 4);
    assert_eq!(moved.path, vec![0, 4, 2, 3, 1, 5, 6, 7]);
    assert_eq!(moved.distance, 10240 * (4 + 2 + 1 + 2 + 4 + 1 + 1 + 7));
    let by_position = solution(vec![3, 1, 0, 2], &create_distance_matrix(&line(4)))
        .swap_at(&create_distance_matrix(&line(4)), 0, 3);
    assert_eq!(by_position.path, vec![2, 1, 0, 3]);
}

#[test]
fn block_insert_puts_the_block_in_front_of_the_point() {
    let matrix = create_distance_matrix(&line(8));
    let forward = solution(straight(), &matrix).block_insert_at(&matrix, 5, 1, 2);
    assert_eq!(forward.path, vec![0, 3, 4, 1, 2, 5, 6, 7]);
    let capped = solution(straight(), &matrix).block_insert_at(&matrix, 5, 1, 9);
    assert_eq!(capped.path, vec![0, 4, 1, 2, 3, 5, 6, 7]);
    let backward = solution(straight(), &matrix).block_insert_at(&matrix, 1, 4, 2);
    assert_eq!(backward.path, vec![0, 4, 5, 1, 2, 3, 6, 7]);
    let wrapped = solution(straight(), &matrix).block_insert_at(&matrix, 1, 6, 4);
    assert_eq!(wrapped.path, vec![6, 7, 0, 1, 2, 3, 4, 5]);
    let next_door = solution(straight(), &matrix).block_insert_at(&matrix, 5, 4, 3);
    assert_eq!(next_door.path, straight());
    let none = solution(straight(), &matrix).block_insert_at(&matrix, 5, 1, 0);
    assert_eq!(none.path, straight());
    assert_eq!(forward.distance, calculate_path_distance(&forward.path, &matrix));
}

#[test]
fn random_moves_keep_the_tour_a_tour() {
    let matrix = create_distance_matrix(&line(8));
    let mut generator = rand::rng();
    let mut current = solution(straight(), &matrix);
    for round in 0..500 {
        current = if round % 2 == 0 {
            current.swap(&matrix, &mut generator)
        } else {
            current.block_insert_sampling(&matrix, (round % 8) as u16, ((round / 8) % 8) as u16, &mut generator)
        };
        assert!(is_permutation(&current.path, 8));
        assert_eq!(current.distance, calculate_path_distance(&current.path, &matrix));
    }
}

#[test]
fn heuristic_candidate_is_the_shortest_of_the_three_moves() {
    let cities = line(8);
    let engine = SimulatedAnnealing::new(&cities, Never);
    let matrix = engine.distance_matrix.clone();
    let x = solution(vec![0, 2, 1, 3, 4, 5, 6, 7], &matrix);
    let y = solution(straight(), &matrix);
    let best = engine.heuristic_candidate(2, &x, &y, 3);
    let a = x.clone().inverse_sampling(&matrix, 2, 3);
    let b = x.clone().swap_sampling(&matrix, 2, 3);
    let c = x.clone().block_insert_at(&matrix, 2, 3, 3);
    let least = a.distance.min(b.distance).min(c.distance);
    assert_eq!(best.distance, least);
    assert_eq!(a.path, vec![0, 2, 3, 1, 4, 5, 6, 7]);
    assert_eq!(best.path, a.path);
    let agreeing = engine.heuristic_candidate(1, &y, &y, 1);
    assert_eq!(agreeing.path, straight());
    let reversed = solution(vec![7, 6, 5, 4, 3, 2, 1, 0], &matrix);
    let led = engine.heuristic_candidate(3, &x, &reversed, 2);
    let a = x.clone().inverse_sampling(&matrix, 3, 2);
    let b = x.clone().swap_sampling(&matrix, 3, 2);
    let c = x.clone().block_insert_at(&matrix, 3, 2, 2);
    assert_eq!(a.path, vec![0, 2, 3, 1, 4, 5, 6, 7]);
    assert_eq!(b.path, vec![0, 3, 1, 2, 4, 5, 6, 7]);
    assert_eq!(c.path, vec![0, 1, 2, 3, 4, 5, 6, 7]);
    assert_eq!(led.path, c.path);
}

#[test]
fn chain_lengths_rise_to_the_peak_and_fall() {
    let list = create_mcl_list(375, 100, 1000);
    assert_eq!(list.len(), 1000);
    assert_eq!(list[0], 50);
    assert_eq!(list[187], 100);
    assert_eq!(list[375], 150);
    assert_eq!(list[376], 150);
    assert_eq!(list[999], 50);
    for i in 0..375 {
        assert!(list[i] <= list[i + 1]);
    }
    for i in 375..999 {
        assert!(list[i] >= list[i + 1]);
    }
    assert_eq!(create_mcl_list(0, 10, 3), vec![5, 10, 5]);
    assert_eq!(create_mcl_list(1000, 10, 3), vec![5, 8, 12]);
    assert_eq!(create_mcl_list(375, 7, 0), Vec::<usize>::new());
}

#[test]
fn temperature_list_gives_the_largest_reading() {
    let mut list = TemperatureList::new();
    assert_eq!(list.peek(), None);
    assert_eq!(list.pop(), None);
    list.push(5);
    list.push(9);
    list.push(2);
    list.push(9);
    assert_eq!(list.len(), 4);
    assert_eq!(list.peek(), Some(9));
    assert_eq!(list.pop(), Some(9));
    assert_eq!(list.pop(), Some(9));
    assert_eq!(list.peek(), Some(5));
    list.push(1);
    assert_eq!(list.readings, vec![1, 2, 5]);
}

#[test]
fn temperature_list_keeps_the_middle_of_the_observations() {
    let list = TemperatureList::from_observations(&vec![5, 1, 9, 3, 7, 2, 8, 4], 4);
    assert_eq!(list.readings, vec![3, 4, 5, 7]);
    assert_eq!(list.peek(), Some(7));
    let short = TemperatureList::from_observations(&vec![5, 1, 9], 4);
    assert_eq!(short.readings, vec![9]);
    let none = TemperatureList::from_observations(&vec![5], 4);
    assert!(none.readings.is_empty());
}

#[test]
fn first_temperatures_fill_the_list() {
    let cities = line(8);
    let mut engine = SimulatedAnnealing::new(&cities, Never);
    let list = engine.create_temperature_list(20, 8);
    assert_eq!(list.len(), 20);
    let lists = engine.create_temperature_lists_matrix(3, 10, 20);
    assert_eq!(lists.len(), 3);
    for l in &lists {
        assert_eq!(l.len(), 10);
    }
}

#[test]
fn first_solutions_are_tours() {
    let cities = line(8);
    let mut engine = SimulatedAnnealing::new(&cities, Never);
    let matrix = engine.distance_matrix.clone();
    let mut all = engine.create_random_solutions(5);
    all.extend(engine.create_greedy_solutions(5, 4));
    all.push(engine.create_random_solution());
    all.push(engine.create_greedy_solution(1));
    assert_eq!(all.len(), 12);
    for s in &all {
        assert!(is_permutation(&s.path, 8));
        assert_eq!(s.distance, calculate_path_distance(&s.path, &matrix));
    }
    let best = engine.find_best_solution(&all);
    assert_eq!(best.distance, all.iter().map(|s| s.distance).min().unwrap());
    let nearest_first = engine.create_greedy_solution(1);
    for k in 0..7 {
        let here = nearest_first.path[k] as i32;
        let next = nearest_first.path[k + 1] as i32;
        let visited = &nearest_first.path[..=k];
        let nearest = (0..8)
            .filter(|c| !visited.contains(&(*c as u16)))
            .map(|c| (c as i32 - here).abs())
            .min()
            .unwrap();
        assert_eq!((next - here).abs(), nearest);
    }
}

#[test]
fn a_chain_that_refuses_every_rise_never_lengthens_its_tour() {
    let cities = line(8);
    let mut engine = SimulatedAnnealing::new(&cities, Never);
    let mut pool = engine.create_random_solutions(4);
    let mut temperatures = engine.create_temperature_lists_matrix(4, 5, 8);
    let mut cursor: Vec<u16> = vec![0; 4];
    let mut best = engine.find_best_solution(&pool);
    let first_best = best.distance;
    let before = pool[2].distance;
    let readings = temperatures[2].readings.clone();
    engine.run_chain(2, 200, &mut pool, &mut temperatures, &mut cursor, &mut best);
    assert!(pool[2].distance <= before);
    assert!(best.distance <= first_best);
    assert!(best.distance <= pool[2].distance);
    assert_eq!(temperatures[2].readings, readings);
    assert_eq!(cursor[2], (200 % 8) as u16);
}

#[test]
fn a_chain_folds_the_mean_reading_into_the_temperatures() {
    let cities = vec![
        city(0, 0, 0),
        city(1, 0, 30),
        city(2, 20, 50),
        city(3, 50, 50),
        city(4, 70, 30),
        city(5, 70, 0),
        city(6, 50, -20),
        city(7, 20, -20),
    ];
    let mut engine = SimulatedAnnealing::new(&cities, Always);
    let matrix = engine.distance_matrix.clone();
    let partner: Vec<u16> = vec![0, 5, 1, 2, 3, 4, 6, 7];
    let mut pool = vec![
        solution(partner.clone(), &matrix),
        solution(partner, &matrix),
        solution(straight(), &matrix),
    ];
    let mut temperatures = vec![
        TemperatureList::from_observations(&vec![1000, 1000], 1),
        TemperatureList::from_observations(&vec![1000, 1000], 1),
        TemperatureList::from_observations(&vec![1000, 1000], 1),
    ];
    let mut cursor: Vec<u16> = vec![0, 0, 4];
    let mut best = solution(straight(), &matrix);
    engine.run_chain(2, 1, &mut pool, &mut temperatures, &mut cursor, &mut best);
    assert_eq!(best.distance, 238732);
    assert!(pool[2].distance > 238732);
    assert_eq!(temperatures[2].readings, vec![pool[2].distance - 238732]);
    assert_eq!(temperatures[1].readings, vec![1000]);
    assert_eq!(cursor, vec![0, 0, 5]);
}

#[test]
fn annealing_returns_a_tour_no_longer_than_its_initial_tour() {
    let cities = vec![city(0, 0, 0), city(1, 40, 10), city(2, 10, 50), city(3, 60, 60), city(4, 30, 30)];
    let mut engine = SimulatedAnnealing::new(&cities, Criterion { generator: rand::rng() });
    let response = engine.execute();
    let matrix = create_distance_matrix(&cities);
    assert!(is_permutation(response.get_final_path(), 5));
    assert!(is_permutation(response.get_initial_path(), 5));
    assert_eq!(
        calculate_path_distance(response.get_final_path(), &matrix),
        *response.get_distance()
    );
    assert!(*response.get_distance() <= calculate_path_distance(response.get_initial_path(), &matrix));
}

#[test]
fn a_move_is_settled_by_its_length_and_the_answer() {
    let short = Solution::new(vec![0, 1, 2], 10);
    let middle = Solution::new(vec![0, 2, 1], 20);
    let long = Solution::new(vec![1, 0, 2], 30);
    let (mut current, mut best, mut sum, mut count) = (middle.clone(), middle.clone(), 7u128, 2u64);
    settle_move(&mut current, &mut best, &mut sum, &mut count, long.clone(), None);
    assert_eq!((current.distance, best.distance, sum, count), (20, 20, 7, 2));
    settle_move(&mut current, &mut best, &mut sum, &mut count, long.clone(), Some(5));
    assert_eq!((current.distance, best.distance, sum, count), (30, 20, 12, 3));
    assert_eq!(current.path, vec![1, 0, 2]);
    settle_move(&mut current, &mut best, &mut sum, &mut count, long.clone(), Some(9));
    assert_eq!((current.distance, best.distance, sum, count), (30, 20, 12, 3));
    settle_move(&mut current, &mut best, &mut sum, &mut count, middle.clone(), Some(9));
    assert_eq!((current.distance, best.distance, sum, count), (20, 20, 12, 3));
    settle_move(&mut current, &mut best, &mut sum, &mut count, short.clone(), None);
    assert_eq!((current.distance, best.distance, sum, count), (10, 10, 12, 3));
    assert_eq!(best.path, vec![0, 1, 2]);
}

#[test]
fn annealing_keeps_the_best_tour_ahead_of_the_pool() {
    let cities = line(8);
    let mut engine = SimulatedAnnealing::new(&cities, Always);
    let mut pool = engine.create_random_solutions(4);
    let least = pool.iter().map(|s| s.distance).min().unwrap();
    let mut temperatures = engine.create_temperature_lists_matrix(4, 5, 8);
    let mut cursor: Vec<u16> = vec![0; 4];
    let chains = create_mcl_list(375, 8, 30);
    let best = engine.anneal(&mut pool, &mut temperatures, &mut cursor, &chains);
    assert!(best.distance <= least);
    for s in &pool {
        assert!(best.distance <= s.distance);
        assert!(is_permutation(&s.path, 8));
    }
    assert_eq!(best.distance, calculate_path_distance(&best.path, &engine.distance_matrix));
}
