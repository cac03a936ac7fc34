//! Criticality analysis for hierarchical dependency networks.
//!
//! A network is a directed acyclic graph in which child nodes feed into
//! parent nodes, ending in a single aggregate top node.  The engine
//! estimates, by repeated random sampling of which nodes are visible,
//! how much the top node's operability depends on each node.
//!
//! Operability values are fixed-point numbers: `MAX_OPERABILITY`
//! (defined in [`roll_up`]) stands for full operability, `0` for none.

pub mod analyses;
pub mod input;
pub mod errors;
pub mod network;
pub mod node_map;
pub mod roll_up;
pub mod util;
