//! Errors of domain setup, decomposition, boundary handling and numerics.
use vstd::prelude::*;

verus! {

/// A position or a domain description that does not fit the domain's boundaries.
#[derive(Clone, Copy, Debug, PartialEq, Eq, Structural)]
pub enum BoundaryError {
    /// Coordinates of different lengths were given, or none at all.
    DimensionMismatch,
    /// The lower boundary is not below the upper boundary along this axis.
    MinNotBelowMax { axis: usize },
    /// The interaction range is zero or negative.
    NonPositiveInteractionRange,
    /// Not one voxel of the requested size fits along this axis.
    VoxelLargerThanDomain { axis: usize },
    /// Zero voxels were requested along this axis.
    NoVoxels { axis: usize },
    /// More voxels were requested along this axis than it has lattice units.
    VoxelSmallerThanUnit { axis: usize },
    /// The voxels of the domain cannot be counted in a `usize`.
    TooManyVoxels,
    /// The position lies outside the domain along this axis.
    OutOfDomain { axis: usize },
}

/// The domain could not be split into partitions.
#[derive(Clone, Copy, Debug, PartialEq, Eq, Structural)]
pub enum DecomposeError {
    /// No split into the requested number of partitions exists.
    NoDecomposition,
    /// The voxels of the domain cannot be numbered in a `usize`.
    TooManyVoxels,
    /// An entity lies outside the domain.
    Boundary(BoundaryError),
}

/// A numerical step could not be carried out.
#[derive(Clone, Copy, Debug, PartialEq, Eq, Structural)]
pub enum CalcError {
    /// A coordinate left the range of `i64`.
    Overflow,
    /// Vectors of different lengths were combined.
    DimensionMismatch,
}

/// Information was not where the decomposition says it must be.
#[derive(Clone, Copy, Debug, PartialEq, Eq, Structural)]
pub enum IndexError {
    /// No voxel with this dense index is held here.
    UnknownVoxel { plain_index: u64 },
    /// The voxel holds no entity at this slot.
    UnknownSlot { plain_index: u64, slot: usize },
    /// No partition owns this voxel.
    UnknownOwner { plain_index: u64 },
}

} // verus!
