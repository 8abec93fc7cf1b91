//! Inference of a phylogenetic network from a collection of Newick trees.
//!
//! The pipeline parses one or more semicolon-terminated Newick trees over a
//! shared taxon set, extracts the quartet topologies each tree induces,
//! resolves the weighted quartets into a single network (introducing
//! reticulation nodes where the signal is contradictory), roots the network,
//! and serializes it to an extended-Newick string.
//!
//! Branch lengths are carried as exact decimal values in nano-units
//! (billionths), so `0.1` is stored as `100_000_000`.

pub mod decimal;
pub mod export;
pub mod network;
pub mod operations;
pub mod parser;
pub mod pipeline;
pub mod quartet;
pub mod rooting;
pub mod structure;

pub use network::Network;
pub use parser::ParseError;
pub use parser::parse_nwk;
pub use pipeline::infer;
pub use pipeline::infer_network;
pub use structure::Node;
pub use structure::NodeId;
pub use structure::Tree;
