//! Domain decomposition, voxel geometry and the per-partition update rules of an
//! agent-based simulation engine whose coordinates lie on an integer lattice.
//!
//! - [`decomposition`]: how many voxels each partition receives.
//! - [`lattice`], [`cuboid`], [`partition`], [`subdomain`]: the grid of voxels, its
//!   lexicographic numbering, the partitions cut from it, Moore neighbors and the
//!   reflective boundary.
//! - [`domain`]: the capabilities of a domain and its decomposition into
//!   partitions with their entities and neighbor map.
//! - [`cell`], [`particle`]: what the engine asks of entities, and a simple entity.
//! - [`integrator`]: the multi-step time integrator.
//! - [`runtime`], [`exchange`], [`cycle`]: what one partition does between the
//!   synchronisation points of a step: forces, messages, motion, division and
//!   migration.
use vstd::prelude::*;

pub mod decomposition;
pub mod lattice;
pub mod errors;
pub mod cuboid;
pub mod subdomain;
pub mod partition;
pub mod integrator;
pub mod cell;
pub mod runtime;
pub mod domain;
pub mod exchange;
pub mod cycle;
pub mod particle;

verus! {

} // verus!
