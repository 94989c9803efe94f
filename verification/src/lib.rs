//! Synthetic filesystem trees for fixtures and load generation.
//!
//! The crate plans a tree of randomly named, empty files and directories.
//! It never touches the filesystem itself: [`builder::TreeBuilder`] asks its
//! caller to create one node at a time and is told how that went.
//!
//! - [`corpus`] holds the words that names are made of.
//! - [`phrase`] draws names from them.
//! - [`limits`] sets how wide and deep a tree grows.
//! - [`plan`] says what a build is, step by step, and [`trace`] what holds
//!   of a build as a whole.
//! - [`builder`] is the build as it runs.
//! - [`random`] is the boundary to the `rand` crate.

pub mod builder;
pub mod corpus;
pub mod limits;
pub mod phrase;
pub mod plan;
pub mod random;
pub mod trace;
