#![verifier::loop_isolation(false)]
//! Ancestry traversal for a content-addressed object store.
//!
//! Given a starting identifier (the tip), the walker lazily produces every
//! reachable ancestor by following the parent links recorded inside decoded
//! commit objects, visiting each identifier at most once. A small companion
//! module locates the configuration file that ships with an installation.

pub mod identifier;
pub mod install;
pub mod laws;
pub mod model;
pub mod objects;
pub mod resolver;
pub mod walker;
