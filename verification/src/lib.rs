//! Coordination of a shared search through a fixed list of PIN codes.
//!
//! A group of collaborators tries every code of a fixed, ordered list. The
//! library keeps, for each named search (a raid), which codes are still
//! untried, which have been tried, and which are checked out to a worker
//! under a lease that runs out after a minute. A code of an abandoned
//! lease becomes free again; a tried code stays tried.
//!
//! Everything the library does is stated in contracts over a mathematical
//! model of that state and proved with Verus:
//!
//! - `model` is the state of a raid as mathematics, with its steps;
//!   `validity` proves that every step keeps a state valid, and `laws`
//!   what follows for every course of steps;
//! - `raid` is one raid and `registry` the raids by name;
//! - `codes` is the code list, `clock` the instants and deadlines;
//! - `snapshot` and `encoding` store a raid and read it back;
//! - `bitmap`, `encoding` and `clock` hold what is trusted of the `roaring`,
//!   `base64` and `chrono` crates, and `ascending` what "lowest first"
//!   means.

pub mod ascending;
pub mod bitmap;
pub mod clock;
pub mod codes;
pub mod encoding;
pub mod error;
pub mod laws;
pub mod model;
pub mod raid;
pub mod registry;
pub mod service;
pub mod snapshot;
pub mod validity;
