//! A generic evolutionary-search engine: a population of individuals is
//! evaluated, ranked, and replaced generation by generation.

pub mod clock;
pub mod engine;
pub mod fitness;
pub mod individual;
pub mod random;
pub mod sentence;

pub use crate::clock::time_since_epoch;
pub use crate::engine::GeneticAlgorithm;
pub use crate::fitness::Fitness;
pub use crate::individual::Individual;
pub use crate::sentence::Sentence;
