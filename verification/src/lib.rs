//! Glob-pattern resolution over an abstract filesystem.
//!
//! A path pattern (with `*` and `**` wildcards) is parsed into a sequence
//! of glob units, and each unit is applied against directory listings
//! obtained from a backend, resolving symlinks with cycle detection, so
//! that every reported match is an unambiguous file or directory.

pub mod path;
pub mod stat;
pub mod matcher;
pub mod glob;
pub mod context;
pub mod apply;
pub mod memfs;
