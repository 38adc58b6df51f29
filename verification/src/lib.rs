//! A causal message log for Byzantine eventual consistency: signed,
//! content-addressed messages that name the heads they follow, and a
//! repository that tracks the frontier and merges with its peers.

pub mod actors;
pub mod crypto;
pub mod digest;
pub mod digest_set;
pub mod graph;
pub mod laws;
pub mod message;
pub mod outline;
pub mod payload;
pub mod reconcile;
pub mod replica;
pub mod repo;
pub mod seqs;
pub mod vec_map;
