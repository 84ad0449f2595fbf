//! Garbage collection of build artifacts that carry a content hash in their
//! names: which files and directories belong to one compiled unit, how much
//! space each unit takes, which units a retention policy keeps, and what a
//! sweep removes.
//!
//! The library works on plain values. Reading the build tree, running the
//! toolchain and deleting files are left to the caller, who hands in what was
//! read and carries out what comes back.

pub mod artifact;
pub mod cli;
pub mod discover;
pub mod keep;
pub mod laws;
pub mod policy;
pub mod rank;
pub mod record;
pub mod size_index;
pub mod snapshot;
pub mod sweep;
pub mod text;
pub mod toolchain;
pub mod util;
pub mod within;
