use neat::genes::{compatibility, Genome, Link, Node, NodeType};
use neat::mutation::State;
use neat::pop::{
    sort_by_adj_fitness, standard_compat_coefficients, standard_settings, Organism, Population,
    Settings, Species,
};
use rand::{SeedableRng, StdRng};

fn seeded(seed: usize) -> StdRng {
    StdRng::from_seed(&[seed, 23][..])
}

fn organism(fitness: u64) -> Organism {
    let mut organism = Organism::new(&Genome::initial_genome(2, 1, 2, true));
    organism.fitness = fitness;
    organism
}

fn species_of(id: usize, fitness: &[u64]) -> Species {
    Species::new(id, fitness.iter().map(|f| organism(*f)).collect())
}

fn shared(id: usize, size: usize, adj_fitness: u64, best_fitness: u64) -> Species {
    let mut species = species_of(id, &vec![best_fitness; size]);
    for o in species.organisms.iter_mut() {
        o.adj_fitness = adj_fitness;
    }
    species.best_offspring = 1;
    species
}

fn population_of(species: Vec<Species>) -> Population {
    Population {
        settings: standard_settings(),
        mutation_settings: neat::mutation::standard_settings(),
        compat_coefficients: standard_compat_coefficients(),
        species_counter: species.len(),
        node_counter: 4,
        innovation_counter: 3,
        species,
        generation: 0,
        highest_fitness: 0,
        time_since_last_improvement: 0,
    }
}

#[test]
fn default_population_settings() {
    let s = standard_settings();
    assert_eq!(s.survival_threshold, 300_000);
    assert_eq!(s.compat_threshold, 6_000_000);
    assert_eq!(s.dropoff_age, 15);
    assert_eq!(s.target_num_species, 10);
    let c = standard_compat_coefficients();
    assert_eq!((c.disjoint, c.excess, c.weight_diff), (1_000_000, 1_000_000, 400_000));
}

#[test]
fn a_new_organism_has_a_network_and_no_fitness() {
    let genome = Genome::initial_genome(2, 1, 2, true);
    let organism = Organism::new(&genome);
    assert_eq!(organism.genome.nodes, genome.nodes);
    assert_eq!(organism.genome.links, genome.links);
    assert_eq!(organism.network.nodes.len(), 4);
    assert_eq!((organism.fitness, organism.adj_fitness, organism.expected_offspring), (0, 0, 0));
}

#[test]
fn sorting_is_by_falling_adjusted_fitness_and_stable() {
    let mut organisms: Vec<Organism> = vec![organism(1), organism(2), organism(3), organism(4), organism(5)];
    let adj = [5u64, 9, 5, 1, 9];
    for (o, a) in organisms.iter_mut().zip(adj.iter()) {
        o.adj_fitness = *a;
    }
    sort_by_adj_fitness(&mut organisms);
    let order: Vec<(u64, u64)> = organisms.iter().map(|o| (o.adj_fitness, o.fitness)).collect();
    assert_eq!(order, vec![(9, 5), (9, 2), (5, 3), (5, 1), (1, 4)]);
}

#[test]
fn preparing_shares_fitness_and_sorts() {
    let mut species = species_of(3, &[0, 4_000_000, 2_000_000, 8_000_000]);
    species.prepare_for_epoch(15);
    let fitness: Vec<u64> = species.organisms.iter().map(|o| o.fitness).collect();
    assert_eq!(fitness, vec![8_000_000, 4_000_000, 2_000_000, 1_000]);
    let adj: Vec<u64> = species.organisms.iter().map(|o| o.adj_fitness).collect();
    assert_eq!(adj, vec![2_000_000, 1_000_000, 500_000, 250]);
    assert_eq!(species.age, 1);
    assert_eq!(species.highest_fitness, 8_000_000);
    assert_eq!(species.time_since_last_improvement, 0);
    assert_eq!(species.best_offspring, 1);
    assert_eq!(species.id, 3);
    assert_eq!(species.average_adj_fitness(), 875_062);
    assert_eq!(species.total_adj_fitness(), 3_500_250);
}

#[test]
fn a_species_without_improvement_counts_the_epochs() {
    let mut species = species_of(0, &[3_000_000, 5_000_000]);
    species.highest_fitness = 5_000_000;
    species.time_since_last_improvement = 4;
    species.prepare_for_epoch(15);
    assert_eq!(species.highest_fitness, 5_000_000);
    assert_eq!(species.time_since_last_improvement, 5);
    assert_eq!(species.organisms[0].adj_fitness, 2_500_000);
}

#[test]
fn a_stagnant_species_is_penalized() {
    let mut species = species_of(0, &[3_000_000, 5_000_000]);
    species.highest_fitness = 9_000_000;
    species.time_since_last_improvement = 16;
    species.prepare_for_epoch(15);
    let adj: Vec<u64> = species.organisms.iter().map(|o| o.adj_fitness).collect();
    assert_eq!(adj, vec![25_000, 15_000]);
    let mut at_the_limit = species_of(0, &[3_000_000, 5_000_000]);
    at_the_limit.time_since_last_improvement = 15;
    at_the_limit.prepare_for_epoch(15);
    assert_eq!(at_the_limit.organisms[0].adj_fitness, 2_500_000);
}

#[test]
fn the_best_genome_stands_for_the_species() {
    let mut species = species_of(0, &[1_000_000, 2_000_000]);
    species.organisms[1].genome.links[0].weight = 777;
    species.prepare_for_epoch(15);
    assert_eq!(species.best_genome.links[0].weight, 777);
    assert_eq!(species.best_organism().fitness, 2_000_000);
}

#[test]
fn pruning_keeps_the_elite() {
    let mut ten = species_of(0, &[10, 9, 8, 7, 6, 5, 4, 3, 2, 1]);
    ten.prune_to_elite(300_000);
    let fitness: Vec<u64> = ten.organisms.iter().map(|o| o.fitness).collect();
    assert_eq!(fitness, vec![10, 9, 8, 7]);
    let mut five = species_of(0, &[5, 4, 3, 2, 1]);
    five.prune_to_elite(1_000_000);
    assert_eq!(five.organisms.len(), 5);
    let mut three = species_of(0, &[3, 2, 1]);
    three.prune_to_elite(0);
    assert_eq!(three.organisms.len(), 1);
    let mut nine = species_of(0, &[9, 8, 7, 6, 5, 4, 3, 2, 1]);
    nine.prune_to_elite(333_333);
    assert_eq!(nine.organisms.len(), 3);
}

#[test]
fn pruning_leaves_at_least_one_organism() {
    for size in 1..20usize {
        for threshold in [0u32, 1, 299_999, 300_000, 999_999, 1_000_000, u32::MAX] {
            let mut species = species_of(0, &vec![1; size]);
            species.prune_to_elite(threshold);
            assert!(species.organisms.len() >= 1);
            assert!(species.organisms.len() <= size);
        }
    }
}

#[test]
fn fractions_of_offspring_are_carried_on() {
    let mut skim = 0u64;
    let mut first = shared(0, 50, 246_000, 1);
    first.allot_offspring(500_000, &mut skim);
    assert_eq!(first.expected_offspring, 24);
    assert_eq!(skim, 600_000);
    let mut second = shared(1, 50, 154_000, 1);
    second.allot_offspring(500_000, &mut skim);
    assert_eq!(second.expected_offspring, 16);
    assert_eq!(skim, 0);
    let mut third = shared(2, 100, 800_000, 1);
    third.allot_offspring(500_000, &mut skim);
    assert_eq!(third.expected_offspring, 160);
    assert_eq!(skim, 0);
    let mut none = shared(3, 10, 800_000, 1);
    skim = 999_999;
    none.allot_offspring(0, &mut skim);
    assert_eq!(none.expected_offspring, 0);
    assert_eq!(skim, 999_999);
}

#[test]
fn allotments_add_up_to_the_population() {
    let mut population = population_of(vec![
        shared(0, 50, 246_000, 1_000_000),
        shared(1, 50, 154_000, 1_000_000),
        shared(2, 100, 800_000, 1_000_000),
    ]);
    assert_eq!(population.num_organisms(), 200);
    assert_eq!(population.average_adj_fitness(), 500_000);
    population.allot_offspring();
    let allotted: Vec<usize> = population.species.iter().map(|s| s.expected_offspring).collect();
    assert_eq!(allotted, vec![24, 16, 160]);
    assert_eq!(allotted.iter().sum::<usize>(), 200);
}

#[test]
fn what_the_shares_leave_over_goes_to_the_best_species() {
    let mut population = population_of(vec![
        shared(0, 3, 1_000_000, 2_000_000),
        shared(1, 3, 1_000_001, 5_000_000),
        shared(2, 1, 1_000_000, 5_000_000),
    ]);
    // the average is rounded up to 1.000001, so every share falls short
    assert_eq!(population.average_adj_fitness(), 1_000_001);
    population.allot_offspring();
    let allotted: Vec<usize> = population.species.iter().map(|s| s.expected_offspring).collect();
    assert_eq!(allotted.iter().sum::<usize>(), 7);
    assert_eq!(allotted, vec![2, 4, 1]);
    assert_eq!(population.time_since_last_improvement, 0);
}

#[test]
fn a_stagnant_population_breeds_from_its_two_best_species() {
    let mut population = population_of(vec![
        shared(0, 4, 1_000_000, 5_000_000),
        shared(1, 3, 1_000_000, 9_000_000),
        shared(2, 2, 1_000_000, 7_000_000),
        shared(3, 2, 1_000_000, 9_000_000),
    ]);
    population.time_since_last_improvement = 15;
    for s in population.species.iter_mut() {
        s.time_since_last_improvement = 3;
    }
    population.allot_offspring();
    let allotted: Vec<usize> = population.species.iter().map(|s| s.expected_offspring).collect();
    assert_eq!(allotted, vec![0, 6, 0, 5]);
    assert_eq!(population.species[1].best_offspring, 6);
    assert_eq!(population.species[3].best_offspring, 5);
    assert_eq!(population.species[0].best_offspring, 1);
    assert_eq!(population.time_since_last_improvement, 0);
    let clocks: Vec<usize> = population.species.iter().map(|s| s.time_since_last_improvement).collect();
    assert_eq!(clocks, vec![3, 0, 3, 0]);
    assert_eq!(allotted.iter().filter(|n| **n > 0).count(), 2);
    assert_eq!(allotted.iter().sum::<usize>(), population.num_organisms());
}

#[test]
fn a_stagnant_population_of_one_species_gives_it_all() {
    let mut population = population_of(vec![shared(0, 7, 1_000_000, 5_000_000)]);
    population.time_since_last_improvement = 20;
    population.allot_offspring();
    assert_eq!(population.species[0].expected_offspring, 7);
    assert_eq!(population.species[0].best_offspring, 7);
    assert_eq!(population.time_since_last_improvement, 0);
}

#[test]
fn the_best_organism_is_the_first_of_the_fittest() {
    let mut population = population_of(vec![species_of(0, &[1, 5, 3]), species_of(1, &[5, 2])]);
    population.species[0].organisms[1].adj_fitness = 42;
    assert_eq!(population.best_organism().map(|o| (o.fitness, o.adj_fitness)), Some((5, 42)));
    let unevaluated = population_of(vec![species_of(0, &[0, 0]), species_of(1, &[0])]);
    assert!(unevaluated.best_organism().is_none());
}

#[test]
fn the_average_is_rounded_up() {
    let mut population = population_of(vec![species_of(0, &[1, 1]), species_of(1, &[1])]);
    let adj = [1u64, 2, 2];
    let mut k = 0;
    for s in population.species.iter_mut() {
        for o in s.organisms.iter_mut() {
            o.adj_fitness = adj[k];
            k += 1;
        }
    }
    assert_eq!(population.average_adj_fitness(), 2);
    assert_eq!(population.species[0].average_adj_fitness(), 1);
}

#[test]
fn a_compatible_organism_joins_the_first_fitting_species() {
    let mut population = population_of(vec![species_of(0, &[1]), species_of(1, &[1])]);
    population.insert_organism(organism(9));
    assert_eq!(population.species.len(), 2);
    assert_eq!(population.species[0].organisms.len(), 2);
    assert_eq!(population.species[0].organisms[1].fitness, 9);
    assert_eq!(population.species[1].organisms.len(), 1);
    assert_eq!(population.species_counter, 2);
}

#[test]
fn an_incompatible_organism_founds_a_species() {
    let mut population = population_of(vec![species_of(0, &[1]), species_of(1, &[1])]);
    population.settings.compat_threshold = 1_000_000;
    population.species_counter = 7;
    let mut genome = Genome::initial_genome(2, 1, 2, true);
    let mut state = State::new(4, 3);
    neat::mutation::split_link(
        &mut genome,
        0,
        &mut state.node_innovations,
        &mut state.innovation_counter,
        &mut state.node_counter,
    );
    // two excess links
    population.insert_organism(Organism::new(&genome));
    assert_eq!(population.species.len(), 3);
    assert_eq!(population.species[2].id, 7);
    assert_eq!(population.species[2].organisms.len(), 1);
    assert_eq!(population.species[2].best_genome.links.len(), 5);
    assert_eq!(population.species_counter, 8);
    // the same genome now fits the new species
    population.insert_organism(Organism::new(&genome));
    assert_eq!(population.species.len(), 3);
    assert_eq!(population.species[2].organisms.len(), 2);
    // at the threshold itself an organism does not fit
    population.settings.compat_threshold = 2_000_000;
    population.species.truncate(2);
    population.insert_organism(Organism::new(&genome));
    assert_eq!(population.species.len(), 3);
    population.settings.compat_threshold = 2_000_001;
    population.species.truncate(2);
    population.insert_organism(Organism::new(&genome));
    assert_eq!(population.species.len(), 2);
}

#[test]
fn a_population_starts_as_one_species_with_random_weights() {
    let mut rng = seeded(1);
    let genome = Genome::initial_genome(3, 2, 3, true);
    let population = Population::from_initial_genome(
        &mut rng,
        &standard_settings(),
        &neat::mutation::standard_settings(),
        &standard_compat_coefficients(),
        &genome,
        25,
    );
    assert_eq!(population.species.len(), 1);
    assert_eq!(population.num_organisms(), 25);
    assert_eq!(population.species[0].id, 0);
    assert_eq!(population.species_counter, 1);
    assert_eq!(population.node_counter, 6);
    assert_eq!(population.innovation_counter, 8);
    assert_eq!(population.generation, 0);
    for o in population.species[0].organisms.iter() {
        assert_eq!(o.genome.nodes, genome.nodes);
        assert_eq!(o.genome.links.len(), 8);
        assert!(o.genome.links.iter().all(|l| l.weight.abs() < 1_000_000));
        assert!(o.genome.assert_integrity());
        assert_eq!(o.fitness, 0);
    }
    let first = &population.species[0].organisms[0].genome;
    assert!(population.species[0].organisms.iter().any(|o| o.genome.links != first.links));
    assert_eq!(population.species[0].best_genome.links, first.links);
}

#[test]
fn the_counters_start_above_the_genome() {
    let mut rng = seeded(2);
    let genome = Genome {
        nodes: vec![
            Node { id: 9, node_type: NodeType::Input },
            Node { id: 4, node_type: NodeType::Output },
        ],
        links: vec![Link { from_id: 9, to_id: 4, enabled: true, innovation: 12, weight: 0, is_recurrent: false }],
    };
    let population = Population::from_initial_genome(
        &mut rng,
        &standard_settings(),
        &neat::mutation::standard_settings(),
        &standard_compat_coefficients(),
        &genome,
        1,
    );
    assert_eq!(population.node_counter, 10);
    assert_eq!(population.innovation_counter, 13);
    let bare = Genome::initial_genome(1, 1, 0, false);
    let population = Population::from_initial_genome(
        &mut rng,
        &standard_settings(),
        &neat::mutation::standard_settings(),
        &standard_compat_coefficients(),
        &bare,
        1,
    );
    assert_eq!(population.node_counter, 3);
    assert_eq!(population.innovation_counter, 1);
}

fn assign_fitness(population: &mut Population, round: u64) {
    let mut k = 0u64;
    for s in population.species.iter_mut() {
        for o in s.organisms.iter_mut() {
            o.fitness = (o.genome.links.len() as u64) * 1_000_000 + (k * 7 + round) % 5 * 100_000;
            k += 1;
        }
    }
}

#[test]
fn an_epoch_keeps_the_number_of_organisms() {
    let mut rng = seeded(3);
    let genome = Genome::initial_genome(3, 2, 3, true);
    let settings = Settings { compat_threshold: 1_500_000, target_num_species: 4, ..standard_settings() };
    let mutation_settings = neat::mutation::Settings {
        new_node_prob: 100_000,
        new_link_prob: 300_000,
        ..neat::mutation::standard_settings()
    };
    let mut population = Population::from_initial_genome(
        &mut rng,
        &settings,
        &mutation_settings,
        &standard_compat_coefficients(),
        &genome,
        60,
    );
    let mut most_species = 1;
    for generation in 0..25 {
        assign_fitness(&mut population, generation);
        let node_counter = population.node_counter;
        let innovation_counter = population.innovation_counter;
        population.epoch(&mut rng);
        assert_eq!(population.num_organisms(), 60);
        assert_eq!(population.generation, generation as usize + 1);
        assert!(population.species.len() >= 1);
        assert!(population.node_counter >= node_counter);
        assert!(population.innovation_counter >= innovation_counter);
        for s in population.species.iter() {
            assert!(s.organisms.len() >= 1);
            assert!(s.best_genome.assert_integrity());
            for o in s.organisms.iter() {
                assert!(o.genome.assert_integrity());
                assert_eq!(o.fitness, 0);
                assert_eq!(o.network.nodes.len(), o.genome.nodes.len());
                assert!(o.genome.nodes.iter().all(|n| n.id < population.node_counter));
                assert!(o.genome.links.iter().all(|l| l.innovation < population.innovation_counter));
            }
        }
        most_species = most_species.max(population.species.len());
    }
    assert!(most_species > 1);
    assert!(population.node_counter > 6);
}

#[test]
fn the_threshold_is_tuned_from_the_second_epoch_on() {
    let mut rng = seeded(4);
    let genome = Genome::initial_genome(2, 1, 2, true);
    let mut population = Population::from_initial_genome(
        &mut rng,
        &standard_settings(),
        &neat::mutation::standard_settings(),
        &standard_compat_coefficients(),
        &genome,
        10,
    );
    assign_fitness(&mut population, 0);
    population.epoch(&mut rng);
    assert_eq!(population.settings.compat_threshold, 6_000_000);
    assign_fitness(&mut population, 1);
    population.epoch(&mut rng);
    assert_eq!(population.settings.compat_threshold, 5_700_000);
    population.settings.compat_threshold = 400_000;
    assign_fitness(&mut population, 2);
    population.epoch(&mut rng);
    assert_eq!(population.settings.compat_threshold, 300_000);
    population.settings.target_num_species = 0;
    assign_fitness(&mut population, 3);
    population.epoch(&mut rng);
    assert_eq!(population.settings.compat_threshold, 600_000);
}

#[test]
fn progress_is_recorded() {
    let mut rng = seeded(5);
    let genome = Genome::initial_genome(2, 1, 2, true);
    let mut population = Population::from_initial_genome(
        &mut rng,
        &standard_settings(),
        &neat::mutation::standard_settings(),
        &standard_compat_coefficients(),
        &genome,
        8,
    );
    for o in population.species[0].organisms.iter_mut() {
        o.fitness = 2_000_000;
    }
    population.species[0].organisms[3].fitness = 4_000_000;
    population.epoch(&mut rng);
    assert_eq!(population.highest_fitness, 4_000_000);
    assert_eq!(population.time_since_last_improvement, 0);
    for round in 1..15 {
        for s in population.species.iter_mut() {
            for o in s.organisms.iter_mut() {
                o.fitness = 4_000_000;
            }
        }
        population.epoch(&mut rng);
        assert_eq!(population.highest_fitness, 4_000_000);
        assert_eq!(population.time_since_last_improvement, round);
    }
    // the fifteenth epoch without improvement starts the clock anew
    for s in population.species.iter_mut() {
        for o in s.organisms.iter_mut() {
            o.fitness = 1_000_000;
        }
    }
    population.epoch(&mut rng);
    assert_eq!(population.time_since_last_improvement, 0);
    assert_eq!(population.num_organisms(), 8);
}

#[test]
fn an_epoch_without_fitness_works() {
    let mut rng = seeded(6);
    let genome = Genome::initial_genome(2, 1, 2, true);
    let mut population = Population::from_initial_genome(
        &mut rng,
        &standard_settings(),
        &neat::mutation::standard_settings(),
        &standard_compat_coefficients(),
        &genome,
        5,
    );
    population.epoch(&mut rng);
    assert_eq!(population.num_organisms(), 5);
    assert_eq!(population.highest_fitness, 0);
    assert_eq!(population.time_since_last_improvement, 1);
}

#[test]
fn reproduction_gives_the_allotted_number_of_offspring() {
    let mut rng = seeded(7);
    let mut species = species_of(0, &[5_000_000, 4_000_000, 3_000_000]);
    species.prepare_for_epoch(15);
    species.expected_offspring = 12;
    species.best_offspring = 3;
    species.best_genome.links[1].weight = 123_456;
    let pool = vec![species_of(1, &[1_000_000])];
    let mut state = State::new(4, 3);
    let offspring =
        species.reproduce(&pool, &neat::mutation::standard_settings(), &mut rng, &mut state);
    assert_eq!(offspring.len(), 12);
    assert_eq!(offspring[0].genome.links, species.best_genome.links);
    for k in 1..3 {
        assert_eq!(offspring[k].genome.nodes, species.best_genome.nodes);
        assert_eq!(offspring[k].genome.links.len(), 3);
    }
    for o in offspring.iter() {
        assert!(o.genome.assert_integrity());
        assert_eq!(o.fitness, 0);
        assert!(o.genome.nodes.iter().all(|n| n.id < state.node_counter));
        assert!(o.genome.links.iter().all(|l| l.innovation < state.innovation_counter));
    }
    assert!(state.node_counter <= 4 + 12);
    assert!(state.innovation_counter <= 3 + 24);
}

#[test]
fn a_skim_of_more_than_one_hands_out_its_whole_offspring() {
    let mut skim = 2_500_000u64;
    let mut species = shared(0, 4, 250_000, 1);
    species.allot_offspring(0, &mut skim);
    assert_eq!((species.expected_offspring, skim), (2, 500_000));
    skim = 2_500_000;
    species.allot_offspring(500_000, &mut skim);
    // owed two, and two and a half from the skim
    assert_eq!((species.expected_offspring, skim), (4, 500_000));
}

#[test]
fn organisms_of_equal_rank_keep_their_order() {
    let mut organisms: Vec<Organism> = vec![organism(4), organism(4), organism(4)];
    for (k, o) in organisms.iter_mut().enumerate() {
        o.adj_fitness = 2;
        o.expected_offspring = k as u64;
    }
    sort_by_adj_fitness(&mut organisms);
    let order: Vec<u64> = organisms.iter().map(|o| o.expected_offspring).collect();
    assert_eq!(order, vec![0, 1, 2]);
}

#[test]
fn equal_shares_are_ranked_by_fitness() {
    let mut worse = Organism::new(&Genome::initial_genome(2, 1, 2, true));
    worse.fitness = 2;
    let mut better = Organism::new(&Genome::initial_genome(2, 1, 1, true));
    better.fitness = 3;
    let better_links = better.genome.links.clone();
    assert!(better_links != worse.genome.links);
    let mut species = Species::new(0, vec![worse, better]);
    species.prepare_for_epoch(15);
    let shares: Vec<u64> = species.organisms.iter().map(|o| o.adj_fitness).collect();
    assert_eq!(shares, vec![1, 1]);
    assert_eq!(species.organisms[0].fitness, 3);
    assert_eq!(species.organisms[1].fitness, 2);
    assert_eq!(species.highest_fitness, 3);
    assert_eq!(species.time_since_last_improvement, 0);
    assert_eq!(species.best_genome.links, better_links);
}

#[test]
fn a_penalized_species_is_still_led_by_its_fittest() {
    let mut fitness = vec![1_000_000u64; 150];
    fitness[117] = 1_004_000;
    let mut species = species_of(0, &fitness);
    species.time_since_last_improvement = 20;
    species.highest_fitness = 1_000_000;
    species.prepare_for_epoch(15);
    assert!(species.organisms.iter().all(|o| o.adj_fitness == 66));
    assert_eq!(species.organisms[0].fitness, 1_004_000);
    assert_eq!(species.highest_fitness, 1_004_000);
    assert_eq!(species.time_since_last_improvement, 0);
    let top = species.organisms.iter().map(|o| o.fitness).max().unwrap();
    assert_eq!(species.best_organism().fitness, top);
}

fn copy_of(species: &Species) -> Species {
    Species {
        id: species.id,
        organisms: species.organisms.clone(),
        expected_offspring: species.expected_offspring,
        age: species.age,
        time_since_last_improvement: species.time_since_last_improvement,
        highest_fitness: species.highest_fitness,
        best_genome: species.best_genome.duplicate(),
        best_offspring: species.best_offspring,
    }
}

fn varied_population(seed: usize, epochs: u64) -> (Population, StdRng) {
    let mut rng = seeded(seed);
    let genome = Genome::initial_genome(3, 2, 3, true);
    let settings = Settings { compat_threshold: 1_500_000, target_num_species: 4, ..standard_settings() };
    let mutation_settings = neat::mutation::Settings {
        new_node_prob: 100_000,
        new_link_prob: 300_000,
        ..neat::mutation::standard_settings()
    };
    let mut population = Population::from_initial_genome(
        &mut rng,
        &settings,
        &mutation_settings,
        &standard_compat_coefficients(),
        &genome,
        40,
    );
    for generation in 0..epochs {
        assign_fitness(&mut population, generation);
        population.epoch(&mut rng);
    }
    (population, rng)
}

#[test]
fn an_epoch_leaves_only_new_organisms() {
    let (mut population, mut rng) = varied_population(5, 12);
    assign_fitness(&mut population, 3);
    population.epoch(&mut rng);
    for s in population.species.iter() {
        for o in s.organisms.iter() {
            assert_eq!((o.fitness, o.adj_fitness), (0, 0));
        }
    }
}

#[test]
fn every_organism_sits_in_the_first_species_that_it_fits() {
    let (mut population, mut rng) = varied_population(11, 12);
    for round in 0..4 {
        assign_fitness(&mut population, round);
        population.epoch(&mut rng);
        let threshold = population.settings.compat_threshold as u128;
        let c = population.compat_coefficients;
        for (s, species) in population.species.iter().enumerate() {
            for (o, organism) in species.organisms.iter().enumerate() {
                for earlier in population.species[..s].iter() {
                    assert!(compatibility(&c, &earlier.best_genome, &organism.genome) >= threshold);
                }
                let fits = compatibility(&c, &species.best_genome, &organism.genome) < threshold;
                let founded = o == 0
                    && species.best_genome.links == organism.genome.links
                    && species.best_genome.nodes == organism.genome.nodes;
                assert!(fits || founded);
            }
        }
    }
}

#[test]
fn species_go_on_or_are_new_and_their_identities_differ() {
    let (mut population, mut rng) = varied_population(3, 0);
    let mut founded = 0;
    for round in 0..25 {
        assign_fitness(&mut population, round);
        let before: Vec<(usize, usize)> = population.species.iter().map(|s| (s.id, s.age)).collect();
        let counter = population.species_counter;
        population.epoch(&mut rng);
        assert!(population.species_counter >= counter);
        for (k, species) in population.species.iter().enumerate() {
            assert!(species.id < population.species_counter);
            for other in population.species[..k].iter() {
                assert!(other.id != species.id);
            }
            match before.iter().find(|(id, _)| *id == species.id) {
                Some((_, age)) => assert_eq!(species.age, age + 1),
                None => {
                    assert!(species.id >= counter);
                    assert_eq!(species.age, 0);
                    assert_eq!(species.best_genome.links, species.organisms[0].genome.links);
                    founded += 1;
                }
            }
        }
    }
    assert!(founded > 0);
}

#[test]
fn the_genome_of_a_species_that_breeds_lives_on() {
    let (mut population, mut rng) = varied_population(29, 12);
    assign_fitness(&mut population, 1);
    population.highest_fitness = 0;
    population.time_since_last_improvement = 0;
    let mut parents = Population {
        settings: population.settings,
        mutation_settings: population.mutation_settings,
        compat_coefficients: population.compat_coefficients,
        species_counter: population.species_counter,
        node_counter: population.node_counter,
        innovation_counter: population.innovation_counter,
        species: population.species.iter().map(copy_of).collect(),
        generation: population.generation,
        highest_fitness: population.highest_fitness,
        time_since_last_improvement: 0,
    };
    for species in parents.species.iter_mut() {
        species.prepare_for_epoch(parents.settings.dropoff_age);
    }
    parents.allot_offspring();
    population.epoch(&mut rng);
    let mut breeding = 0;
    for species in parents.species.iter() {
        if species.expected_offspring > 0 {
            breeding += 1;
            assert!(population.species.iter().any(|s| s.organisms.iter().any(|o| {
                o.genome.links == species.best_genome.links
                    && o.genome.nodes == species.best_genome.nodes
            })));
        }
        if let Some(later) = population.species.iter().find(|s| s.id == species.id) {
            assert_eq!(later.best_genome.links, species.organisms[0].genome.links);
            assert_eq!(later.age, species.age);
            assert_eq!(later.highest_fitness, species.highest_fitness);
            assert_eq!(later.expected_offspring, species.expected_offspring);
            assert_eq!(later.best_offspring, species.best_offspring);
            assert_eq!(later.time_since_last_improvement, species.time_since_last_improvement);
            assert_eq!(later.best_offspring, 1);
        }
    }
    assert!(breeding > 0);
}

fn still_settings() -> neat::mutation::Settings {
    neat::mutation::Settings {
        new_node_prob: 0,
        new_link_prob: 0,
        change_link_weights_prob: 0,
        toggle_enable_prob: 0,
        interspecies_mating_prob: 0,
        ..neat::mutation::standard_settings()
    }
}

fn weighted_species() -> Species {
    let mut species = species_of(0, &[5_000_000, 4_000_000, 3_000_000]);
    for (k, o) in species.organisms.iter_mut().enumerate() {
        for (i, link) in o.genome.links.iter_mut().enumerate() {
            link.weight = (100 * (k as i64 + 1)) + i as i64;
        }
    }
    species.prepare_for_epoch(15);
    species.expected_offspring = 20;
    species.best_offspring = 1;
    species.best_genome.links[1].weight = 123_456;
    species
}

#[test]
fn a_mutated_copy_comes_from_one_of_the_organisms() {
    let mut rng = seeded(13);
    let species = weighted_species();
    let settings = neat::mutation::Settings { mutate_only_prob: 1_000_000, ..still_settings() };
    let mut state = State::new(4, 3);
    let offspring = species.reproduce(&Vec::new(), &settings, &mut rng, &mut state);
    assert_eq!(offspring.len(), 20);
    assert_eq!(offspring[0].genome.links, species.best_genome.links);
    let mut parents = Vec::new();
    for child in offspring[1..].iter() {
        assert_eq!((child.fitness, child.adj_fitness), (0, 0));
        let parent = species.organisms.iter().position(|o| o.genome.links == child.genome.links);
        assert!(parent.is_some());
        if !parents.contains(&parent) {
            parents.push(parent);
        }
    }
    assert!(parents.len() > 1);
    assert_eq!((state.node_counter, state.innovation_counter), (4, 3));
}

#[test]
fn a_mated_child_has_each_link_from_one_of_its_parents() {
    let mut rng = seeded(19);
    let species = weighted_species();
    let settings = neat::mutation::Settings {
        mutate_only_prob: 0,
        mutate_after_mating_prob: 0,
        ..still_settings()
    };
    let mut state = State::new(4, 3);
    let offspring = species.reproduce(&Vec::new(), &settings, &mut rng, &mut state);
    assert_eq!(offspring.len(), 20);
    let mut mixed = false;
    for child in offspring[1..].iter() {
        assert_eq!(child.genome.nodes, species.organisms[0].genome.nodes);
        assert_eq!(child.genome.links.len(), 3);
        let mut sources = Vec::new();
        for (i, link) in child.genome.links.iter().enumerate() {
            let source = species.organisms.iter().position(|o| o.genome.links[i] == *link);
            assert!(source.is_some());
            if !sources.contains(&source) {
                sources.push(source);
            }
        }
        assert!(sources.len() <= 2);
        mixed = mixed || sources.len() == 2;
    }
    assert!(mixed);
}
