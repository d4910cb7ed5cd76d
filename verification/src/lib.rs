//! An interactive picker for SSH client configuration files.
//!
//! The library holds the verified core: a line-oriented parser that turns
//! configuration text into an ordered list of `Host` records, and a selection
//! model with a bounded cursor and per-host expand flags. Terminal rendering
//! and process launching live outside the library.

pub mod chars;
pub mod host;
pub mod model;
pub mod parser;
pub mod render;
pub mod serial;
