//! Open-ended evolution of small self-modifying programs: a two-head tape
//! machine executes pairs of genomes as one interacting program, a population
//! loop pairs, runs and rewrites the genomes each epoch, and an entropy and
//! compression estimator measures how ordered the population has become.

pub mod complexity;
pub mod machine;
pub mod population;
pub mod rng;
