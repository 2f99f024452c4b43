use tsp_optimizer::algorithm::algorithm::Algorithm;
use tsp_optimizer::algorithm::chromossome::{mutation_for, Chromossome, MutationKind};
use tsp_optimizer::algorithm::genetic::{push_unseen, Build, Genetic};
use tsp_optimizer::temperature::TemperatureList;
use tsp_optimizer::distance::create_distance_matrix;
use tsp_optimizer::length::calculate_path_distance;
use tsp_optimizer::models::city::City;
use tsp_optimizer::models::coordinates::Coordinates;
use tsp_optimizer::models::uf::UF;

fn city(id: u16, latitude: i32, longitude: i32) -> City {
    City::new(id, UF::get_uf_from_code(0).unwrap(), Coordinates::new(latitude, longitude))
}

fn line(n: u16) -> Vec<City> {
    (0..n).map(|i| city(i, 0, 10 * i as i32)).collect()
}

fn chromossome(path: Vec<u16>, matrix: &Vec<u64>) -> Chromossome {
    let distance = calculate_path_distance(&path, matrix);
    Chromossome::new(path, distance)
}

fn is_permutation(path: &Vec<u16>, n: usize) -> bool {
    let mut sorted = path.clone();
    sorted.sort();
    sorted == (0..n as u16).collect::<Vec<u16>>()
}

fn ring() -> Vec<City> {
    vec![
        city(0, 0, 0),
        city(1, 0, 30),
        city(2, 20, 50),
        city(3, 50, 50),
        city(4, 70, 30),
        city(5, 70, 0),
        city(6, 50, -20),
        city(7, 20, -20),
    ]
}

fn crooked() -> Vec<u16> {
    vec![0, 2, 1, 3, 4, 5, 6, 7]
}

fn straight() -> Vec<u16> {
    vec![0, 1, 2, 3, 4, 5, 6, 7]
}

fn other_parent() -> Vec<u16> {
    vec![3, 7, 5, 1, 6, 0, 2, 4]
}

#[test]
fn new_chromossome_has_no_mutation_name() {
    let matrix = create_distance_matrix(&line(8));
    let c = chromossome(crooked(), &matrix);
    assert_eq!(*c.get_path(), crooked());
    assert_eq!(*c.get_distance(), 160 * 1024);
    assert_eq!(calculate_path_distance(&straight(), &create_distance_matrix(&ring())), 238732);
    assert_eq!(c.get_mutation().as_str(), "");
    assert!(c.equals(&c.clone()));
    assert!(!c.equals(&chromossome(straight(), &matrix)));
}

#[test]
fn update_distance_takes_only_a_shorter_tour() {
    let matrix = create_distance_matrix(&line(8));
    let c = chromossome(crooked(), &matrix);
    let kept = c.clone().update_distance(vec![0, 3, 1, 2, 4, 5, 6, 7], &matrix, "worse");
    assert!(kept.equals(&c));
    let same = c.clone().update_distance(vec![0, 1, 3, 2, 4, 5, 6, 7], &matrix, "as long");
    assert!(same.equals(&c));
    let better = c.update_distance(straight(), &matrix, "better");
    assert_eq!(better.path, straight());
    assert_eq!(better.distance, 140 * 1024);
    assert_eq!(better.mutation.as_str(), "better");
}

#[test]
fn mutation_is_selected_by_the_draw() {
    assert_eq!(mutation_for(0), MutationKind::Swap);
    assert_eq!(mutation_for(17), MutationKind::Swap);
    assert_eq!(mutation_for(18), MutationKind::Displacement);
    assert_eq!(mutation_for(35), MutationKind::Displacement);
    assert_eq!(mutation_for(36), MutationKind::Insertion);
    assert_eq!(mutation_for(54), MutationKind::SimpleInversion);
    assert_eq!(mutation_for(72), MutationKind::Inversion);
    assert_eq!(mutation_for(95), MutationKind::Inversion);
    assert_eq!(mutation_for(96), MutationKind::GreedySubTour);
    assert_eq!(mutation_for(97), MutationKind::GreedySubTour);
    assert_eq!(mutation_for(98), MutationKind::GreedyInsertion);
    assert_eq!(mutation_for(99), MutationKind::GreedyInsertion);
}

#[test]
fn swap_mutation_makes_the_exchanges_in_turn() {
    let matrix = create_distance_matrix(&ring());
    let fixed = chromossome(crooked(), &matrix).swap_mutation_at(&matrix, &vec![(1, 2)]);
    assert_eq!(fixed.path, straight());
    assert_eq!(fixed.distance, 238732);
    assert_eq!(fixed.mutation.as_str(), "swap_mutation");
    let twice = chromossome(vec![2, 0, 1, 3, 4, 5, 6, 7], &matrix)
        .swap_mutation_at(&matrix, &vec![(0, 1), (1, 2)]);
    assert_eq!(twice.path, straight());
    let refused = chromossome(straight(), &matrix).swap_mutation_at(&matrix, &vec![(1, 2)]);
    assert_eq!(refused.path, straight());
    assert_eq!(refused.mutation.as_str(), "");
}

#[test]
fn displacement_moves_the_block_round_the_end() {
    let matrix = create_distance_matrix(&ring());
    let fixed = chromossome(crooked(), &matrix).displacement_at(&matrix, 1, 1, 1, false);
    assert_eq!(fixed.path, straight());
    assert_eq!(fixed.mutation.as_str(), "displacement_mutation");
    let wrapped = chromossome(vec![1, 2, 0, 3, 4, 5, 6, 7], &matrix)
        .displacement_at(&matrix, 2, 7, 0, false);
    assert_eq!(wrapped.path, straight());
    let turned = chromossome(vec![2, 1, 0, 3, 4, 5, 6, 7], &matrix)
        .displacement_at(&matrix, 2, 1, 0, true);
    assert_eq!(turned.path, straight());
    assert_eq!(turned.mutation.as_str(), "inversion_mutation");
}

#[test]
fn insertion_moves_one_entry() {
    let matrix = create_distance_matrix(&ring());
    let fixed = chromossome(crooked(), &matrix).insertion_mutation_at(&matrix, 1, 2);
    assert_eq!(fixed.path, straight());
    assert_eq!(fixed.mutation.as_str(), "insertion_mutation");
    let far = chromossome(vec![0, 6, 1, 2, 3, 4, 5, 7], &matrix).insertion_mutation_at(&matrix, 1, 6);
    assert_eq!(far.path, straight());
}

#[test]
fn simple_inversion_turns_a_stretch_round() {
    let matrix = create_distance_matrix(&ring());
    let fixed = chromossome(vec![0, 4, 3, 2, 1, 5, 6, 7], &matrix)
        .simple_inversion_mutation_at(&matrix, 1, 4);
    assert_eq!(fixed.path, straight());
    assert_eq!(fixed.distance, 238732);
    assert_eq!(fixed.mutation.as_str(), "simple_inversion_mutation");
}

#[test]
fn greedy_sub_tour_puts_the_block_next_to_its_nearest_point() {
    let matrix = create_distance_matrix(&line(8));
    let fixed = chromossome(vec![0, 1, 5, 6, 2, 3, 4, 7], &matrix)
        .greedy_sub_tour_mutation_at(&matrix, 2, 2);
    assert_eq!(fixed.path, straight());
    assert_eq!(fixed.distance, 140 * 1024);
    assert_eq!(fixed.mutation.as_str(), "greedy_sub_tour_mutation");
    let behind = chromossome(vec![0, 1, 2, 6, 5, 3, 4, 7], &matrix)
        .greedy_sub_tour_mutation_at(&matrix, 3, 2);
    assert_eq!(behind.path, vec![0, 1, 2, 3, 4, 7, 6, 5]);
    assert_eq!(behind.distance, 140 * 1024);
}

#[test]
fn greedy_insertion_puts_the_point_next_to_the_chosen_one() {
    let matrix = create_distance_matrix(&ring());
    let fixed = chromossome(crooked(), &matrix).greedy_insertion_mutation_at(&matrix, 2, 1, true);
    assert_eq!(fixed.path, straight());
    assert_eq!(fixed.mutation.as_str(), "greedy_insertion_mutation");
    let refused = chromossome(crooked(), &matrix).greedy_insertion_mutation_at(&matrix, 2, 1, false);
    assert_eq!(refused.path, crooked());
    assert_eq!(refused.mutation.as_str(), "");
}

#[test]
fn random_mutations_never_lengthen_a_tour() {
    let matrix = create_distance_matrix(&line(12));
    let mut generator = rand::rng();
    let start: Vec<u16> = vec![5, 0, 7, 2, 9, 4, 11, 6, 1, 8, 3, 10];
    let mut current = chromossome(start, &matrix);
    for round in 0..2000 {
        let before = current.distance;
        current = match round % 8 {
            0 => current.swap_mutation(&matrix, 3, &mut generator),
            1 => current.displacement_mutation(&matrix, &mut generator),
            2 => current.insertion_mutation(&matrix, &mut generator),
            3 => current.simple_inversion_mutation(&matrix, &mut generator),
            4 => current.inversion_mutation(&matrix, &mut generator),
            5 => current.greedy_sub_tour_mutation(&matrix, &mut generator),
            6 => current.greedy_insertion_mutation(&matrix, &mut generator),
            _ => current.mutate(&matrix, 2, &mut generator),
        };
        assert!(current.distance <= before);
        assert!(is_permutation(&current.path, 12));
        assert_eq!(current.distance, calculate_path_distance(&current.path, &matrix));
    }
    assert!(current.distance < 1000 * 1024);
}

#[test]
fn random_mutations_leave_tiny_tours_alone() {
    let cities = line(3);
    let matrix = create_distance_matrix(&cities);
    let mut generator = rand::rng();
    let c = chromossome(vec![1, 0, 2], &matrix);
    assert!(c.clone().displacement_mutation(&matrix, &mut generator).equals(&c));
    assert!(c.clone().insertion_mutation(&matrix, &mut generator).equals(&c));
    assert!(c.clone().simple_inversion_mutation(&matrix, &mut generator).equals(&c));
    assert!(c.clone().inversion_mutation(&matrix, &mut generator).equals(&c));
    assert!(c.clone().greedy_sub_tour_mutation(&matrix, &mut generator).equals(&c));
}

#[test]
fn order_crossover_fills_right_then_left() {
    let cities = line(8);
    let engine = Genetic::new(&cities);
    let lead = chromossome(straight(), &engine.distance_matrix);
    let mate = chromossome(other_parent(), &engine.distance_matrix);
    let child = engine.order_crossover_at(&lead, &mate, 2, 5);
    assert_eq!(child.path, vec![0, 6, 2, 3, 4, 7, 5, 1]);
    assert_eq!(child.distance, calculate_path_distance(&child.path, &engine.distance_matrix));
    assert_eq!(child.mutation.as_str(), "");
}

#[test]
fn order_based_crossover_reorders_the_stretch() {
    let cities = line(8);
    let engine = Genetic::new(&cities);
    let lead = chromossome(straight(), &engine.distance_matrix);
    let mate = chromossome(other_parent(), &engine.distance_matrix);
    let child = engine.order_based_crossover_at(&lead, &mate, 2, 5);
    assert_eq!(child.path, vec![0, 1, 3, 2, 4, 5, 6, 7]);
}

#[test]
fn maximal_preservative_crossover_starts_with_the_stretch() {
    let cities = line(8);
    let engine = Genetic::new(&cities);
    let lead = chromossome(straight(), &engine.distance_matrix);
    let mate = chromossome(other_parent(), &engine.distance_matrix);
    let child = engine.maximal_preservative_crossover_at(&lead, &mate, 2, 5);
    assert_eq!(child.path, vec![2, 3, 4, 7, 5, 1, 6, 0]);
}

#[test]
fn partially_mapped_crossover_replaces_what_the_stretch_brings_in() {
    let cities = line(8);
    let engine = Genetic::new(&cities);
    let lead = chromossome(straight(), &engine.distance_matrix);
    let mate = chromossome(other_parent(), &engine.distance_matrix);
    let child = engine.partially_mapped_crossover_at(&lead, &mate, 2, 5);
    assert_eq!(child.path, vec![0, 2, 5, 1, 6, 3, 4, 7]);
    let overlapping = engine.partially_mapped_crossover_at(&mate, &lead, 1, 4);
    assert_eq!(overlapping.path, vec![7, 1, 2, 3, 6, 0, 5, 4]);
    let nothing = engine.partially_mapped_crossover_at(&lead, &mate, 3, 3);
    assert_eq!(nothing.path, straight());
}

#[test]
fn alternating_position_crossover_takes_the_parents_in_turn() {
    let cities = line(8);
    let mut engine = Genetic::new(&cities);
    let lead = chromossome(straight(), &engine.distance_matrix);
    let mate = chromossome(other_parent(), &engine.distance_matrix);
    let child = engine.alternating_position_crossover(&lead, &mate);
    assert_eq!(child.path, vec![0, 3, 1, 7, 2, 5, 4, 6]);
    assert_eq!(engine.crossover.as_str(), "alternating_position_crossover");
}

#[test]
fn position_based_crossover_brings_the_wanted_points_in() {
    let cities = line(8);
    let engine = Genetic::new(&cities);
    let lead = chromossome(straight(), &engine.distance_matrix);
    let mate = chromossome(other_parent(), &engine.distance_matrix);
    let child = engine.position_based_crossover_at(&lead, &mate, &vec![2]);
    assert_eq!(child.path, vec![0, 1, 5, 3, 4, 2, 6, 7]);
    let two = engine.position_based_crossover_at(&lead, &mate, &vec![2, 0]);
    assert_eq!(two.path, vec![3, 1, 5, 0, 4, 2, 6, 7]);
    let none = engine.position_based_crossover_at(&lead, &mate, &Vec::new());
    assert_eq!(none.path, straight());
}

#[test]
fn cycle_crossover_keeps_the_first_cycle_of_the_first_parent() {
    let cities = line(8);
    let mut engine = Genetic::new(&cities);
    let lead = chromossome(straight(), &engine.distance_matrix);
    let pairs = chromossome(vec![1, 0, 3, 2, 5, 4, 7, 6], &engine.distance_matrix);
    let child = engine.cycle_crossover(&lead, &pairs);
    assert_eq!(child.path, vec![0, 1, 3, 2, 5, 4, 7, 6]);
    let mate = chromossome(other_parent(), &engine.distance_matrix);
    let whole = engine.cycle_crossover(&lead, &mate);
    assert_eq!(whole.path, straight());
    let mixed = chromossome(vec![2, 1, 0, 4, 3, 7, 5, 6], &engine.distance_matrix);
    let child = engine.cycle_crossover(&mixed, &lead);
    assert_eq!(child.path, vec![2, 1, 0, 3, 4, 5, 6, 7]);
    assert_eq!(engine.crossover.as_str(), "cycle_crossover");
}

#[test]
fn every_random_crossover_gives_a_tour() {
    let cities = line(24);
    let mut engine = Genetic::new(&cities);
    let population = engine.create_random_population(6);
    for a in 0..6 {
        for b in 0..6 {
            let lead = &population[a];
            let mate = &population[b];
            let children = vec![
                engine.order_crossover(lead, mate),
                engine.order_based_crossover(lead, mate),
                engine.cycle_crossover(lead, mate),
                engine.position_based_crossover(lead, mate),
                engine.heuristic_crossover(lead, mate),
                engine.genetic_edge_recombination_crossover(lead, mate),
                engine.maximal_preservative_crossover(lead, mate),
                engine.partially_mapped_crossover(lead, mate),
                engine.alternating_position_crossover(lead, mate),
                engine.cycle_crossover_v2(lead, mate),
            ];
            for child in children {
                assert!(is_permutation(&child.path, 24));
                assert_eq!(
                    child.distance,
                    calculate_path_distance(&child.path, &engine.distance_matrix)
                );
            }
        }
    }
}

#[test]
fn heuristic_crossover_follows_the_parents_where_they_agree() {
    let cities = line(8);
    let mut engine = Genetic::new(&cities);
    let lead = chromossome(straight(), &engine.distance_matrix);
    let mate = chromossome(other_parent(), &engine.distance_matrix);
    for _ in 0..50 {
        let child = engine.heuristic_crossover(&lead, &mate);
        assert!(is_permutation(&child.path, 8));
        assert!(child.path[0] != 7);
        for k in 0..7 {
            let here = child.path[k];
            let visited = &child.path[..=k];
            let mut open: Vec<u16> = Vec::new();
            for parent in [&lead.path, &mate.path] {
                let i = parent.iter().position(|&c| c == here).unwrap();
                if i > 0 && !visited.contains(&parent[i - 1]) {
                    open.push(parent[i - 1]);
                }
                if i + 1 < 8 && !visited.contains(&parent[i + 1]) {
                    open.push(parent[i + 1]);
                }
            }
            if !open.is_empty() {
                assert!(open.contains(&child.path[k + 1]));
            }
        }
    }
    assert_eq!(engine.crossover.as_str(), "heuristic_crossover");
}

#[test]
fn edge_recombination_of_a_tour_with_itself_walks_round_it() {
    let cities = line(8);
    let mut engine = Genetic::new(&cities);
    let lead = chromossome(straight(), &engine.distance_matrix);
    for _ in 0..20 {
        let child = engine.genetic_edge_recombination_crossover(&lead, &lead);
        assert!(is_permutation(&child.path, 8));
        for k in 0..7 {
            let gap = (child.path[k] as i32 - child.path[k + 1] as i32).rem_euclid(8);
            assert!(gap == 1 || gap == 7);
        }
    }
}

#[test]
fn small_parents_are_handed_on() {
    let cities = line(2);
    let mut engine = Genetic::new(&cities);
    let lead = chromossome(vec![1, 0], &engine.distance_matrix);
    let mate = chromossome(vec![0, 1], &engine.distance_matrix);
    assert_eq!(engine.order_crossover(&lead, &mate).path, vec![1, 0]);
    assert_eq!(engine.order_based_crossover(&lead, &mate).path, vec![1, 0]);
    assert_eq!(engine.partially_mapped_crossover(&lead, &mate).path, vec![1, 0]);
    assert_eq!(engine.maximal_preservative_crossover(&lead, &mate).path, vec![1, 0]);
    assert_eq!(engine.position_based_crossover(&lead, &mate).path, vec![1, 0]);
}

#[test]
fn build_moves_points_from_the_rest_to_the_child() {
    let mut build = Build::new(&vec![2, 0, 1]);
    assert_eq!(build.unvisited, vec![2, 0, 1]);
    build.visit(0, 3);
    assert_eq!(build.path, vec![0]);
    assert_eq!(build.unvisited, vec![2, 1]);
    assert_eq!(build.seen, vec![true, false, false]);
    let mut path: Vec<u16> = vec![1];
    let mut seen = vec![false, true, false];
    push_unseen(&mut path, &mut seen, 1);
    push_unseen(&mut path, &mut seen, 2);
    assert_eq!(path, vec![1, 2]);
    assert_eq!(seen, vec![false, true, true]);
}

#[test]
fn best_and_worst_break_ties_as_the_population_is_ordered() {
    let cities = line(8);
    let engine = Genetic::new(&cities);
    let m = &engine.distance_matrix;
    let population = vec![
        chromossome(crooked(), m),
        chromossome(straight(), m),
        chromossome(vec![7, 6, 5, 4, 3, 2, 1, 0], m),
        chromossome(vec![0, 1, 3, 2, 4, 5, 6, 7], m),
    ];
    assert_eq!(Genetic::best_position(&population), 1);
    assert_eq!(Genetic::worst_position(&population), 3);
    assert_eq!(engine.get_best_chromossome(&population).path, straight());
    assert_eq!(engine.get_worst_chromossome(&population).path, vec![0, 1, 3, 2, 4, 5, 6, 7]);
    assert_eq!(Genetic::find_chromossome(&population, &population[2].clone()), 2);
}

#[test]
fn parents_are_two_different_chromosomes() {
    let cities = line(8);
    let mut engine = Genetic::new(&cities);
    let population = engine.create_random_population(5);
    for _ in 0..50 {
        let (a, b) = engine.select_parents(&population);
        let i = population.iter().position(|c| c.equals(&a)).unwrap();
        let j = population.iter().position(|c| c.equals(&b)).unwrap();
        assert!(i < 5 && j < 5);
        assert!(i != j || population[i].equals(&population[j]));
    }
}

#[test]
fn populations_hold_tours_with_their_lengths() {
    let cities = line(10);
    let mut engine = Genetic::new(&cities);
    let random = engine.create_random_population(7);
    let greedy = engine.create_greedy_population(4, 3);
    assert_eq!(random.len(), 7);
    assert_eq!(greedy.len(), 4);
    for c in random.iter().chain(greedy.iter()) {
        assert!(is_permutation(&c.path, 10));
        assert_eq!(c.distance, calculate_path_distance(&c.path, &engine.distance_matrix));
    }
}

#[test]
fn random_populations_are_shuffled() {
    let cities = line(10);
    let mut engine = Genetic::new(&cities);
    let population = engine.create_random_population(20);
    let in_order: Vec<u16> = (0..10).collect();
    assert!(population.iter().any(|c| c.path != in_order));
    assert!(population.iter().any(|c| c.path != population[0].path));
}

#[test]
fn a_single_lineage_never_gets_longer() {
    let cities = line(9);
    let mut engine = Genetic::new(&cities);
    let first = chromossome(vec![4, 0, 8, 2, 6, 1, 7, 3, 5], &engine.distance_matrix);
    let last = engine.execute_for_one_population_army(&first, 1);
    assert!(last.distance <= first.distance);
    assert!(is_permutation(&last.path, 9));
    assert_eq!(last.distance, calculate_path_distance(&last.path, &engine.distance_matrix));
    assert!(engine.generations >= 500000);
}

#[test]
fn genetic_engine_returns_a_tour_no_longer_than_its_initial_tour() {
    let cities = line(9);
    let mut engine = Genetic::new(&cities);
    let response = engine.execute();
    let matrix = create_distance_matrix(&cities);
    assert!(is_permutation(response.get_final_path(), 9));
    assert!(is_permutation(response.get_initial_path(), 9));
    assert_eq!(
        calculate_path_distance(response.get_final_path(), &matrix),
        *response.get_distance()
    );
    assert!(*response.get_distance() <= calculate_path_distance(response.get_initial_path(), &matrix));
    assert_eq!(engine.crossover.as_str(), "partially_mapped_crossover");
    assert!(response.get_metadata_info().contains("Population Size: 100"));
    assert!(response.get_metadata_info().contains("Crossover: partially_mapped_crossover"));
}

#[test]
fn a_child_takes_the_place_of_the_longest_only_where_it_is_shorter() {
    let matrix = create_distance_matrix(&ring());
    let long = chromossome(vec![0, 4, 1, 5, 2, 6, 3, 7], &matrix);
    let middle = chromossome(crooked(), &matrix);
    let short = chromossome(straight(), &matrix);
    let mut population = vec![long.clone(), short.clone(), long.clone(), middle.clone()];
    assert!(!Genetic::offer_child(&mut population, long.clone()));
    assert_eq!(population.len(), 4);
    assert!(population[0].equals(&long) && population[3].equals(&middle));
    assert!(Genetic::offer_child(&mut population, middle.clone()));
    assert!(population[0].equals(&short));
    assert!(population[1].equals(&long));
    assert!(population[2].equals(&middle));
    assert!(population[3].equals(&middle));
    let mut single = vec![short.clone()];
    assert!(!Genetic::offer_child(&mut single, short.clone()));
    assert!(!Genetic::offer_child(&mut single, middle));
}

#[test]
fn the_number_of_exchanges_adapts_to_how_the_search_fares() {
    assert_eq!(Genetic::adapt(3, 10, 4, true, 8), (2, 10, 0));
    assert_eq!(Genetic::adapt(1, 10, 4, true, 8), (1, 10, 0));
    assert_eq!(Genetic::adapt(3, 10, 4, false, 8), (3, 10, 5));
    assert_eq!(Genetic::adapt(3, 10, 10, false, 8), (4, 20, 11));
    assert_eq!(Genetic::adapt(8, 10, 10, false, 8), (1, 20, 11));
    assert_eq!(Genetic::adapt(9, 0, 0, false, 8), (1, 0, 1));
    assert_eq!(Genetic::adapt(5, 0, 7, true, 8), (4, 0, 0));
}

#[test]
fn breeding_counts_its_generations_and_keeps_the_longest_in_check() {
    let cities = ring();
    let mut engine = Genetic::new(&cities);
    let population = engine.create_random_population(6);
    let longest = population.iter().map(|c| c.distance).max().unwrap();
    let shortest = population.iter().map(|c| c.distance).min().unwrap();
    let survivors = engine.execute_for_population(population.clone(), 1);
    assert_eq!(survivors.len(), 6);
    assert!(engine.generations >= 200000);
    assert_eq!(engine.crossover.as_str(), "partially_mapped_crossover");
    for s in &survivors {
        assert!(s.distance <= longest);
        assert!(s.distance < longest || population.iter().any(|c| c.equals(s)));
        assert_eq!(s.distance, calculate_path_distance(&s.path, &engine.distance_matrix));
    }
    assert!(survivors.iter().map(|c| c.distance).min().unwrap() <= shortest);
}

#[test]
fn the_cycle_variant_takes_every_second_point_of_each_way() {
    let cities = line(8);
    let mut engine = Genetic::new(&cities);
    let lead = chromossome(straight(), &engine.distance_matrix);
    let mate = chromossome(other_parent(), &engine.distance_matrix);
    let child = engine.cycle_crossover_v2(&lead, &mate);
    assert_eq!(child.path, vec![3, 7, 6, 5, 1, 4, 2, 0]);
    assert_eq!(child.mutation.as_str(), "");
    let same = engine.cycle_crossover_v2(&lead, &lead);
    assert_eq!(same.path, straight());
    assert_eq!(engine.crossover.as_str(), "cycle_crossover_v2");
}

#[test]
fn a_step_of_the_heuristic_crossover_goes_to_the_neighbour_picked() {
    let lead = straight();
    let mate = other_parent();
    let mut build = Build::new(&lead);
    build.visit(3, 8);
    assert_eq!(Genetic::open_neighbours(&lead, &mate, 3, &build), vec![2, 4, 7]);
    assert_eq!(Genetic::heuristic_step(&lead, &mate, &build, 3, 0), 2);
    assert_eq!(Genetic::heuristic_step(&lead, &mate, &build, 3, 2), 7);
    build.visit(7, 8);
    assert_eq!(Genetic::open_neighbours(&lead, &mate, 7, &build), vec![6, 5]);
    assert_eq!(Genetic::heuristic_step(&lead, &mate, &build, 7, 1), 5);
    build.visit(6, 8);
    assert_eq!(Genetic::heuristic_step(&lead, &mate, &build, 7, 9), 5);
    let mut stuck = Build::new(&lead);
    stuck.visit(1, 8);
    stuck.visit(0, 8);
    assert_eq!(Genetic::open_neighbours(&lead, &lead, 0, &stuck), Vec::<u16>::new());
    assert_eq!(Genetic::heuristic_step(&lead, &lead, &stuck, 0, 3), 5);
}

#[test]
fn a_step_of_the_edge_recombination_goes_to_the_neighbour_with_the_fewest_edges() {
    let lead = straight();
    let mut build = Build::new(&lead);
    build.visit(3, 8);
    assert_eq!(Genetic::edge_recombination_step(&lead, &lead, &build, 3, 0), 4);
    build.visit(4, 8);
    assert_eq!(Genetic::edge_recombination_step(&lead, &lead, &build, 4, 0), 5);
    let mate = other_parent();
    let mut mixed = Build::new(&lead);
    mixed.visit(0, 8);
    mixed.visit(1, 8);
    mixed.visit(7, 8);
    mixed.visit(6, 8);
    assert_eq!(Genetic::edge_recombination_step(&lead, &mate, &mixed, 6, 0), 5);
    let mut alone = Build::new(&lead);
    for c in [1u16, 0, 7, 2] {
        alone.visit(c, 8);
    }
    assert_eq!(Genetic::edge_recombination_step(&lead, &lead, &alone, 0, 2), 5);
}
