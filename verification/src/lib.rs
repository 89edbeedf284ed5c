//! Boolean operations (union, intersection, difference) on two closed
//! parametric curves, in the Greiner-Hormann style: crossings reported by an
//! external intersection solver are arranged into two circular node lists,
//! classified as `Enter`/`Exit`, and walked to produce the closed boundaries
//! of the requested region set.
//!
//! Curve evaluation, intersection solving and the trim primitive are external
//! collaborators; this crate works on the plain values they report (crossing
//! parameters as order keys, containment answers) and emits trim directives.

pub mod boolean;
pub mod error;
pub mod graph;
pub mod node;
pub mod operation;
pub mod region;
mod sorting;
pub mod status;
pub mod traversal;
