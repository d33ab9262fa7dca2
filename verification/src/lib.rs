//! Licklider Transmission Protocol engine, and the decisions of the `bp` tools.
//!
//! - [`sdnv`] and [`segment`] are the wire format, and [`segment_laws`] says what
//!   it is byte by byte.
//! - [`session`] holds the state machines of a sender and of a receiver. They do
//!   no I/O: a session consumes segments and timer events, and answers with a
//!   list of actions for the caller to carry out.
//! - [`tools`] holds what the command line tools decide.
//! - [`buffer`], [`clock`] and [`text`] are what the others are built on. All
//!   that the library takes on trust from outside stands in the first two, and
//!   the random numbers of [`tools::node`].

pub mod buffer;
pub mod clock;
pub mod sdnv;
pub mod segment;
pub mod segment_laws;
pub mod session;
pub mod text;
pub mod tools;
