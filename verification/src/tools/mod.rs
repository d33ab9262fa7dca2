//! The decisions behind the `bp` command line tools.
//!
//! The tools themselves connect to a node, read files and print. What they
//! decide on the way is here: which step follows which outcome, what is printed,
//! and with which code a tool exits.

pub mod connect;
pub mod exit_code;
pub mod node;
pub mod outcomes;
pub mod recv;
pub mod send;
pub mod verbosity;
