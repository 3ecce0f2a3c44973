//! Commit-reveal distributed randomness: the session state machine, the
//! commitment and beacon arithmetic, and the command language of the node.

pub mod cli;
pub mod common;
pub mod drand;
pub mod node;
pub mod text;
pub mod trusted;
