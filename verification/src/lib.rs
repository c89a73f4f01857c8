//! Non-equilibrium thermodynamics: the discrete structure behind entropy
//! production networks, reaction systems, observation tables and constrained
//! force systems.
//!
//! - [`labels`]: the `N0`, `E3`, ... identifiers given to generated nodes and edges
//! - [`grouping`]: lists of values grouped under string keys
//! - [`names`]: searching lists of names, and the index lists built over them
//! - [`network`]: topology of a thermodynamic network (nodes, edges, adjacency)
//! - [`affinity`]: species shared between coupled reactions
//! - [`entropy`]: joint frequency tables built from paired observations
//! - [`steady_state`]: free and constrained forces of a linear system

pub mod affinity;
pub mod entropy;
pub mod grouping;
pub mod labels;
pub mod names;
pub mod network;
pub mod steady_state;

