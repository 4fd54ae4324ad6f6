use neat::exp::{
    collect_phenotypes, evaluate, evaluate_single_threaded, evaluation_tasks, record_fitness,
    shard_bounds, Experiment,
};
use neat::genes::{CompatCoefficients, Genome};
use neat::nn::Network;
use neat::pop::{standard_compat_coefficients, standard_settings, Organism, Population, Settings, Species};

struct CountingExperiment {
    generations: usize,
}

impl Experiment for CountingExperiment {
    fn ready(&self) -> bool {
        true
    }

    fn rates(&self, _network: &Network, _all_phenotypes: &Vec<Network>, _fitness: u64) -> bool {
        true
    }

    fn learns(&self, _population: &Population, _after: &Self) -> bool {
        true
    }

    fn population_settings(&self) -> Settings {
        standard_settings()
    }

    fn mutation_settings(&self) -> neat::mutation::Settings {
        neat::mutation::standard_settings()
    }

    fn compat_coefficients(&self) -> CompatCoefficients {
        standard_compat_coefficients()
    }

    fn initial_genome(&self) -> Genome {
        Genome::initial_genome(2, 1, 2, true)
    }

    fn node_names(&self) -> std::collections::HashMap<usize, String> {
        std::collections::HashMap::new()
    }

    fn evaluate(&self, network: &mut Network, all_phenotypes: &Vec<Network>) -> u64 {
        network.flush();
        (network.nodes.len() * 1_000 + all_phenotypes.len()) as u64
    }

    fn post_evaluation(&mut self, _population: &Population) {
        self.generations += 1;
    }
}

fn population(sizes: &[(usize, usize)]) -> Population {
    let species: Vec<Species> = sizes
        .iter()
        .enumerate()
        .map(|(id, (inputs, size))| {
            let genome = Genome::initial_genome(*inputs, 1, *inputs, true);
            Species::new(id, (0..*size).map(|_| Organism::new(&genome)).collect())
        })
        .collect();
    Population {
        settings: standard_settings(),
        mutation_settings: neat::mutation::standard_settings(),
        compat_coefficients: standard_compat_coefficients(),
        species_counter: species.len(),
        node_counter: 10,
        innovation_counter: 10,
        species,
        generation: 0,
        highest_fitness: 0,
        time_since_last_improvement: 0,
    }
}

#[test]
fn the_last_shard_takes_the_remainder() {
    let shards: Vec<(usize, usize)> = (0..4).map(|k| shard_bounds(10, 4, k)).collect();
    assert_eq!(shards, vec![(0, 2), (2, 4), (4, 6), (6, 10)]);
    assert_eq!(shard_bounds(10, 1, 0), (0, 10));
    assert_eq!(shard_bounds(3, 4, 0), (0, 0));
    assert_eq!(shard_bounds(3, 4, 3), (0, 3));
    assert_eq!(shard_bounds(0, 2, 1), (0, 0));
}

#[test]
fn the_shards_cover_every_task_once() {
    for tasks in 0..40usize {
        for workers in 1..9usize {
            let mut covered = vec![0u32; tasks];
            let mut end = 0;
            for k in 0..workers {
                let (a, b) = shard_bounds(tasks, workers, k);
                assert_eq!(a, end);
                assert!(a <= b);
                for t in a..b {
                    covered[t] += 1;
                }
                end = b;
            }
            assert_eq!(end, tasks);
            assert!(covered.iter().all(|c| *c == 1));
        }
    }
}

#[test]
fn there_is_one_task_for_each_organism() {
    let population = population(&[(1, 2), (2, 1), (3, 3)]);
    assert_eq!(evaluation_tasks(&population), vec![(0, 0), (0, 1), (1, 0), (2, 0), (2, 1), (2, 2)]);
    let phenotypes = collect_phenotypes(&population);
    let sizes: Vec<usize> = phenotypes.iter().map(|n| n.nodes.len()).collect();
    assert_eq!(sizes, vec![3, 3, 4, 5, 5, 5]);
}

#[test]
fn a_result_goes_to_the_organism_that_it_names() {
    let mut population = population(&[(1, 2), (2, 1), (3, 3)]);
    record_fitness(&mut population, 2, 1, 77);
    record_fitness(&mut population, 0, 0, 5);
    let fitness: Vec<Vec<u64>> = population
        .species
        .iter()
        .map(|s| s.organisms.iter().map(|o| o.fitness).collect())
        .collect();
    assert_eq!(fitness, vec![vec![5, 0], vec![0], vec![0, 77, 0]]);
}

#[test]
fn every_organism_gets_the_fitness_of_its_network() {
    let mut population = population(&[(1, 2), (2, 1), (3, 3)]);
    population.species[2].organisms[0].network.nodes[0].activation = 9;
    let experiment = CountingExperiment { generations: 0 };
    evaluate_single_threaded(&experiment, &mut population);
    let fitness: Vec<Vec<u64>> = population
        .species
        .iter()
        .map(|s| s.organisms.iter().map(|o| o.fitness).collect())
        .collect();
    assert_eq!(fitness, vec![vec![3_006, 3_006], vec![4_006], vec![5_006, 5_006, 5_006]]);
    // the experiment worked on a copy of the network
    assert_eq!(population.species[2].organisms[0].network.nodes[0].activation, 9);
    assert_eq!(experiment.generations, 0);
}

#[test]
fn the_experiment_hears_of_each_evaluated_generation() {
    let mut population = population(&[(1, 2)]);
    let mut experiment = CountingExperiment { generations: 0 };
    evaluate(&mut experiment, &mut population);
    evaluate(&mut experiment, &mut population);
    assert_eq!(experiment.generations, 2);
    assert_eq!(population.species[0].organisms[1].fitness, 3_002);
    assert_eq!(population.num_organisms(), 2);
}
