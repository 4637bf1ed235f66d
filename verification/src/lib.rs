//! Ant colony optimisation: the discrete core.
//!
//! The combinatorial part of the colony lives here and is verified: how an
//! ant walks a graph node by node without revisiting a node, which edges a
//! path or a closed tour uses, a square pheromone matrix whose symmetric
//! updates touch exactly the cells they name, and the seeded generator that
//! drives the ants' choices.
pub mod tour;
pub mod pheromone;
pub mod rng;

pub use pheromone::PheromoneMatrix;
pub use rng::SimpleRng;
pub use tour::TourBuilder;
