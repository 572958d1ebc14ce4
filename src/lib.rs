//! Evolutionary search over genomes: permutation operators for tours,
//! bitstring genomes, and a generational engine with elitism and
//! tournament selection.
//!
//! Fitness reaches the engine as one integer score per individual, under a
//! fitness order fixed when the generation is made. Bitstring genomes
//! compute their scores here; a tour's length is a real number, so the
//! caller measures it and hands the engine a scaled integer.

mod mapping;
mod random;

pub mod bitstring;
pub mod convergence;
pub mod deceptive_landscape;
pub mod one_max;
pub mod target_string;

pub mod generation;
pub mod genotype;
pub mod permutation;
pub mod travelling_salesperson;

pub use deceptive_landscape::DeceptiveString;
pub use generation::{epoch, initialise, FitnessOrder, Generation, Mean, ELITE_COUNT};
pub use genotype::{Genotype, RandomGenotype};
pub use one_max::OneMax;
pub use target_string::TargetString;
pub use travelling_salesperson::TSPath;

use vstd::prelude::*;

verus! {

/// A configuration that cannot produce a valid run.
#[derive(Debug, Clone, Copy, PartialEq, Eq, Structural)]
pub enum ConfigError {
    /// The population is too small for elitism and tournaments to fill the
    /// next generation.
    PopulationTooSmall,
    /// A tour needs at least one city.
    NoCities,
}

} // verus!
