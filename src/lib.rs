//! Zinn runs a directed acyclic graph of shell jobs declared in a Zinnfile.
//!
//! The library holds what decides a run:
//! - `job`: job templates and their realization into a tree of immutable,
//!   fully rendered jobs, compared by value;
//! - `template`: templates addressed by a path of components, cached in the
//!   engine's registry;
//! - `queue`: the scheduling state machine that hands a job out only after
//!   all its dependencies succeeded, and stops once a job failed;
//! - `runner`: what to do before a job's shell starts and what its exit means;
//! - `tracker`: the lines that progress trackers show;
//! - `helpers`: what the template helpers compute;
//! - `setup`: command-line bindings, constants, and filling the queue.
pub mod error;
pub mod helpers;
pub mod job;
pub mod nix;
pub mod queue;
pub mod runner;
pub mod setup;
pub mod template;
pub mod text;
pub mod tracker;
pub mod vars;
