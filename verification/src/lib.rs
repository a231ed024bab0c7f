//! Resolves which test suite owns a file.
//!
//! Suites are declared in a tree of manifests. Each suite has a root
//! directory, a list of glob patterns anchored at that root, and an
//! executable. The loader flattens the manifest tree into one list of suites;
//! the identifier picks, for a candidate path, the suite with the deepest
//! root above that path and confirms it against the suite's own patterns.

pub mod config;
pub mod config_loader;
pub mod error;
pub mod interchange;
pub mod path;
pub mod path_identifier;
pub mod traversal;
pub mod util;
