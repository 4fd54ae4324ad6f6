//! Neuroevolution of augmenting topologies: genomes with historical markings,
//! their mutation and recombination, speciation and reproduction scheduling,
//! and the phenotype networks built from genomes.
//!
//! Real-valued quantities (link weights, activations, fitness, probabilities)
//! are held as fixed-point integers counted in millionths; see [`fixed`].

pub mod exp;
pub mod fixed;
pub mod genes;
pub mod mating;
pub mod mutation;
pub mod nn;
pub mod pop;
pub mod random;
