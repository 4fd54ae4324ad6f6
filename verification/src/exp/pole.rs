//! The pole balancing experiment.

use crate::exp::Experiment;
use crate::genes::{CompatCoefficients, Genome, NodeId};
use crate::nn::Network;
use crate::pop::{standard_compat_coefficients, standard_settings, Population, Settings};
use std::collections::HashMap;
use vstd::prelude::*;
use vstd::string::*;

verus! {

broadcast use vstd::std_specs::hash::group_hash_axioms;

/// Balancing a pole on a cart: four inputs, for the cart's place and speed
/// and the pole's angle and turning speed, and two outputs. The experiment
/// has no scoring yet: every network gets the fitness zero.
pub struct PoleExperiment;

impl Experiment for PoleExperiment {
    open spec fn ready(&self) -> bool {
        true
    }

    open spec fn rates(&self, network: &Network, all_phenotypes: &Vec<Network>, fitness: u64) -> bool {
        fitness == 0
    }

    open spec fn learns(&self, population: &Population, after: &Self) -> bool {
        true
    }

    fn population_settings(&self) -> (settings: Settings)
        ensures
            settings == (Settings {
                survival_threshold: 300_000,
                compat_threshold: 6_000_000,
                dropoff_age: 15,
                target_num_species: 10,
            }),
    {
        standard_settings()
    }

    fn mutation_settings(&self) -> (settings: crate::mutation::Settings)
        ensures
            settings == crate::mutation::default_settings(),
    {
        crate::mutation::standard_settings()
    }

    fn compat_coefficients(&self) -> (c: CompatCoefficients)
        ensures
            c == (CompatCoefficients {
                disjoint: 1_000_000,
                excess: 1_000_000,
                weight_diff: 400_000,
            }),
    {
        standard_compat_coefficients()
    }

    fn initial_genome(&self) -> (genome: Genome)
        ensures
            genome.wf(),
            genome.nodes@.len() == 7,
            genome.links@.len() == 2,
    {
        Genome::initial_genome(4, 2, 0, true)
    }

    fn node_names(&self) -> (names: HashMap<NodeId, String>)
        ensures
            names@.dom() =~= set![0usize, 1usize, 2usize, 3usize],
            names@[0]@ == "X"@,
            names@[1]@ == "X_DOT"@,
            names@[2]@ == "THETA"@,
            names@[3]@ == "THETA_DOT"@,
    {
        let mut names: HashMap<NodeId, String> = HashMap::new();
        names.insert(0, String::from_str("X"));
        names.insert(1, String::from_str("X_DOT"));
        names.insert(2, String::from_str("THETA"));
        names.insert(3, String::from_str("THETA_DOT"));
        names
    }

    fn evaluate(&self, network: &mut Network, all_phenotypes: &Vec<Network>) -> (fitness: u64)
        ensures
            fitness == 0,
            *final(network) == *old(network),
    {
        0
    }

    fn post_evaluation(&mut self, population: &Population) {
    }
}

} // verus!
