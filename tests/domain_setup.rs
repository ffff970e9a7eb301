use cellular_raza::cuboid::CartesianCuboid;
use cellular_raza::errors::BoundaryError;

#[test]
fn from_boundaries_and_interaction_range() {
    let min = vec![0; 2];
    let max = vec![2; 2];
    let interaction_range = 1;
    let _ = CartesianCuboid::from_boundaries_and_interaction_range(min, max, interaction_range)
        .unwrap();
}

#[test]
fn from_boundaries_and_n_voxels() {
    let min = vec![-100; 55];
    let max = vec![43000; 55];
    let n_voxels = vec![22; 55];
    let _ = CartesianCuboid::from_boundaries_and_n_voxels(min, max, n_voxels).unwrap();
}

#[test]
fn voxel_counts_from_interaction_range() {
    let domain =
        CartesianCuboid::from_boundaries_and_interaction_range(vec![2, 3, 1], vec![10, 10, 20], 2)
            .unwrap();
    assert_eq!(domain.get_n_voxels(), vec![4, 3, 9]);
    assert_eq!(domain.get_dx(), vec![2, 2, 2]);
    assert_eq!(domain.get_n_indices(), 4 * 3 * 9);
    assert_eq!(domain.get_rng_seed(), 0);
}

#[test]
fn voxel_sides_from_voxel_counts() {
    let domain =
        CartesianCuboid::from_boundaries_and_n_voxels(vec![0, -10], vec![10, 10], vec![3, 4]).unwrap();
    assert_eq!(domain.get_dx(), vec![3, 5]);
    assert_eq!(domain.get_min(), vec![0, -10]);
    assert_eq!(domain.get_max(), vec![10, 10]);
}

#[test]
fn setup_errors() {
    assert_eq!(
        CartesianCuboid::from_boundaries_and_n_voxels(vec![0, 0], vec![10], vec![1, 1]).err(),
        Some(BoundaryError::DimensionMismatch)
    );
    assert_eq!(
        CartesianCuboid::from_boundaries_and_n_voxels(vec![0, 5], vec![10, 5], vec![1, 1]).err(),
        Some(BoundaryError::MinNotBelowMax { axis: 1 })
    );
    assert_eq!(
        CartesianCuboid::from_boundaries_and_n_voxels(vec![0, 0], vec![10, 10], vec![1, 0]).err(),
        Some(BoundaryError::NoVoxels { axis: 1 })
    );
    assert_eq!(
        CartesianCuboid::from_boundaries_and_n_voxels(vec![0], vec![10], vec![11]).err(),
        Some(BoundaryError::VoxelSmallerThanUnit { axis: 0 })
    );
    assert_eq!(
        CartesianCuboid::from_boundaries_and_interaction_range(vec![0], vec![10], 0).err(),
        Some(BoundaryError::NonPositiveInteractionRange)
    );
    assert_eq!(
        CartesianCuboid::from_boundaries_and_interaction_range(vec![0, 0], vec![10, 3], 4).err(),
        Some(BoundaryError::VoxelLargerThanDomain { axis: 1 })
    );
    assert_eq!(
        CartesianCuboid::from_boundaries_and_interaction_range(vec![], vec![], 4).err(),
        Some(BoundaryError::DimensionMismatch)
    );
}

#[test]
fn voxel_index_of_positions() {
    let domain =
        CartesianCuboid::from_boundaries_and_n_voxels(vec![0, 0], vec![10, 20], vec![3, 4]).unwrap();
    // Sides 3 and 5; the last voxel along the first axis also covers 9..=10.
    assert_eq!(domain.get_voxel_index_of_raw(&vec![0, 0]), Ok(vec![0, 0]));
    assert_eq!(domain.get_voxel_index_of_raw(&vec![5, 14]), Ok(vec![1, 2]));
    assert_eq!(domain.get_voxel_index_of_raw(&vec![10, 20]), Ok(vec![2, 3]));
    assert_eq!(domain.get_voxel_index_of_raw(&vec![9, 19]), Ok(vec![2, 3]));
    assert_eq!(
        domain.get_voxel_index_of_raw(&vec![-1, 5]),
        Err(BoundaryError::OutOfDomain { axis: 0 })
    );
    assert_eq!(
        domain.get_voxel_index_of_raw(&vec![3, 21]),
        Err(BoundaryError::OutOfDomain { axis: 1 })
    );
    assert_eq!(domain.get_voxel_index_of_raw(&vec![3]), Err(BoundaryError::DimensionMismatch));
    assert_eq!(domain.get_voxel_index_clamped(&vec![-7, 100]), vec![0, 3]);
}

#[test]
fn all_voxel_indices_in_lexicographic_order() {
    let domain =
        CartesianCuboid::from_boundaries_and_n_voxels(vec![0, 0], vec![4, 6], vec![2, 3]).unwrap();
    assert_eq!(
        domain.get_all_voxel_indices(),
        vec![vec![0, 0], vec![0, 1], vec![0, 2], vec![1, 0], vec![1, 1], vec![1, 2]]
    );
}

#[test]
fn too_many_voxels_to_number() {
    let domain = CartesianCuboid::from_boundaries_and_n_voxels(vec![-100; 55], vec![43000; 55], vec![22; 55])
        .unwrap();
    assert_eq!(domain.count_indices(), None);
    assert_eq!(
        domain.create_subdomains(2).err(),
        Some(cellular_raza::errors::DecomposeError::TooManyVoxels)
    );
}
