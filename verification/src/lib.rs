//! Dependency graphs of workspaces.
//!
//! A workspace is a set of first-party packages, the members, with the
//! third-party packages they depend on. From the package records and the
//! resolved dependencies that a metadata provider reports, this library
//! builds the graph of packages, finds what can be reached from a set of
//! roots while leaving chosen packages out, and draws the result as text.
//!
//! The steps, in the order of the data: [`package`] builds the packages,
//! [`resolve`] links them, [`select`] chooses roots and exclusions, [`reach`]
//! marks what is reachable, [`render`] draws. [`graph`] does all of it in
//! one call.

pub mod error;
pub mod graph;
pub mod index_set;
pub mod package;
pub mod reach;
pub mod render;
pub mod resolve;
pub mod resolve_lemmas;
pub mod select;
pub mod version;
