//! A content-addressed file store: named files summarised by one Merkle root,
//! with inclusion proofs that a client can check on its own.

pub mod client;
pub mod digest;
pub mod file_map;
pub mod merkle_laws;
pub mod merkle_tree;
pub mod server;
pub mod wire;
