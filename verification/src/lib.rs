//! Rooted binary trees kept in a flat node array, their traversals, the
//! integer-vector encoding of their shapes, and the moves a topology sampler
//! proposes on them.

pub mod child_swap;
pub mod codec;
pub mod encode;
pub mod encode_laws;
pub mod likelihood;
pub mod likelihood_laws;
pub mod moves;
pub mod node;
pub mod paths;
pub mod phylo2vec;
mod sampler;
pub mod seqs;
pub mod traverse;
pub mod tree;
pub mod tree_laws;
pub mod walk_laws;
