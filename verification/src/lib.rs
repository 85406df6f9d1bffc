//! A tree-based genetic-programming core: labeled trees stored as pre-order
//! arenas with an explicit children relation, a weighted operator sampler,
//! randomized initializers and variation operators, and tournament selection.
//!
//! Every randomized choice is drawn through the [`rng::Rng`] capability, which
//! the caller owns and injects into each call; the operators themselves hold no
//! hidden state beyond their configuration.

pub mod crossover;
pub mod errors;
pub mod individual;
pub mod init;
pub mod literal;
pub mod mutation;
pub mod rng;
pub mod sampler;
pub mod select;
pub mod shape;
pub mod tree;
