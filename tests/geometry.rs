use cellular_raza::cuboid::CartesianCuboid;
use cellular_raza::errors::{BoundaryError, DecomposeError};
use cellular_raza::particle::Particle;

fn grid_4x4() -> CartesianCuboid {
    CartesianCuboid::from_boundaries_and_n_voxels(vec![0, 0], vec![20, 20], vec![4, 4]).unwrap()
}

fn particle(x: i64, y: i64) -> Particle {
    Particle { pos: vec![x, y], vel: vec![0, 0], interaction_range: 3, age: 0, division_age: 0 }
}

#[test]
fn partitions_are_contiguous_runs_of_voxels() {
    let d = grid_4x4();
    // 16 voxels over 3 partitions: one of 6 and two of 5.
    let parts = d.create_subdomains(3).unwrap();
    assert_eq!(parts.len(), 3);
    let sizes: Vec<usize> = parts.iter().map(|(_, _, v)| v.len()).collect();
    assert_eq!(sizes, vec![6, 5, 5]);
    assert_eq!(parts[1].0, 1);
    assert_eq!(parts[1].2[0], vec![1, 2]);
    assert_eq!(parts[1].1.get_voxels(), parts[1].2);
    // Partition 1 holds [1,2], [1,3], [2,0], [2,1], [2,2]: its box spans x 5..15, y 0..20.
    assert_eq!(parts[1].1.get_min(), vec![5, 0]);
    assert_eq!(parts[1].1.get_max(), vec![15, 20]);
    assert_eq!(parts[1].1.get_domain_min(), vec![0, 0]);
    assert_eq!(parts[1].1.get_domain_max(), vec![20, 20]);
    assert_eq!(parts[1].1.get_domain_n_voxels(), vec![4, 4]);
    assert_eq!(parts[1].1.get_dx(), vec![5, 5]);
}

#[test]
fn partition_sizes_add_up_for_every_request() {
    let d = grid_4x4();
    for n in 1..=16 {
        let parts = d.create_subdomains(n).unwrap();
        assert_eq!(parts.len(), n);
        assert_eq!(parts.iter().map(|(_, _, v)| v.len()).sum::<usize>(), 16);
    }
    // More partitions than voxels: only non-empty ones are made.
    assert_eq!(d.create_subdomains(40).unwrap().len(), 16);
}

#[test]
fn each_position_lies_in_one_partition() {
    let d = grid_4x4();
    let parts = d.create_subdomains(5).unwrap();
    for x in 0..=20 {
        for y in 0..=20 {
            let v = d.get_voxel_index_of_raw(&vec![x, y]).unwrap();
            let holders = parts.iter().filter(|(_, _, vs)| vs.contains(&v)).count();
            assert_eq!(holders, 1);
        }
    }
}

#[test]
fn moore_neighbors_are_clipped_at_the_boundary() {
    let d = grid_4x4();
    let parts = d.create_subdomains(1).unwrap();
    let sub = &parts[0].1;
    assert_eq!(sub.get_neighbor_voxel_indices(&vec![0, 0]), vec![vec![0, 1], vec![1, 0], vec![1, 1]]);
    assert_eq!(sub.get_neighbor_voxel_indices(&vec![1, 1]).len(), 8);
    assert_eq!(
        sub.get_neighbor_voxel_indices(&vec![3, 2]),
        vec![vec![2, 1], vec![2, 2], vec![2, 3], vec![3, 1], vec![3, 3]]
    );
    let line = CartesianCuboid::from_boundaries_and_n_voxels(vec![0], vec![10], vec![1]).unwrap();
    let only = line.create_subdomains(1).unwrap();
    assert_eq!(only[0].1.get_neighbor_voxel_indices(&vec![0]), Vec::<Vec<usize>>::new());
}

#[test]
fn interior_positions_are_left_alone() {
    let d = grid_4x4();
    let parts = d.create_subdomains(2).unwrap();
    let mut pos = vec![0, 13];
    let mut vel = vec![-3, 7];
    assert_eq!(parts[0].1.apply_boundary(&mut pos, &mut vel), Ok(()));
    assert_eq!(pos, vec![0, 13]);
    assert_eq!(vel, vec![-3, 7]);
}

#[test]
fn positions_below_the_boundary_are_mirrored() {
    let d = grid_4x4();
    let parts = d.create_subdomains(2).unwrap();
    let mut pos = vec![-3, 5];
    let mut vel = vec![-2, 1];
    assert_eq!(parts[1].1.apply_boundary(&mut pos, &mut vel), Ok(()));
    assert_eq!(pos, vec![3, 5]);
    assert_eq!(vel, vec![2, 1]);
    let mut pos = vec![4, 23];
    let mut vel = vec![0, 6];
    assert_eq!(parts[1].1.apply_boundary(&mut pos, &mut vel), Ok(()));
    assert_eq!(pos, vec![4, 17]);
    assert_eq!(vel, vec![0, -6]);
}

#[test]
fn positions_too_far_out_are_an_error() {
    let d = grid_4x4();
    let parts = d.create_subdomains(1).unwrap();
    let mut pos = vec![5, -45];
    let mut vel = vec![1, -1];
    assert_eq!(
        parts[0].1.apply_boundary(&mut pos, &mut vel),
        Err(BoundaryError::OutOfDomain { axis: 1 })
    );
    assert_eq!(pos, vec![5, -45]);
    assert_eq!(vel, vec![1, -1]);
    let mut short = vec![5];
    assert_eq!(parts[0].1.apply_boundary(&mut short, &mut vel), Err(BoundaryError::DimensionMismatch));
    let mut pos = vec![-1, 0];
    let mut fastest = vec![i64::MIN, 0];
    assert_eq!(
        parts[0].1.apply_boundary(&mut pos, &mut fastest),
        Err(BoundaryError::OutOfDomain { axis: 0 })
    );
}

#[test]
fn subdomain_index_of_positions() {
    let d = grid_4x4();
    let parts = d.create_subdomains(2).unwrap();
    assert_eq!(parts[1].1.get_index_of(&vec![19, 0]), Ok(vec![3, 0]));
    assert_eq!(parts[1].1.get_index_of(&vec![21, 0]), Err(BoundaryError::OutOfDomain { axis: 0 }));
}

#[test]
fn decomposition_builds_the_neighbor_map() {
    let d = grid_4x4();
    // Four partitions: the rows x = 0, 1, 2, 3.
    let dd = d.duplicate().decompose(4, vec![particle(1, 1), particle(16, 2), particle(7, 19)]).unwrap();
    assert_eq!(dd.n_subdomains, 4);
    assert_eq!(dd.rng_seed, 0);
    let mut map = dd.neighbor_map.clone();
    for l in map.iter_mut() {
        l.sort();
    }
    assert_eq!(map, vec![vec![1], vec![0, 2], vec![1, 3], vec![2]]);
    let counts: Vec<usize> = dd.index_subdomain_cells.iter().map(|(_, _, c)| c.len()).collect();
    assert_eq!(counts, vec![1, 1, 0, 1]);
    assert_eq!(dd.index_subdomain_cells[3].2[0].pos, vec![16, 2]);
}

#[test]
fn decomposition_rejects_entities_outside() {
    let d = grid_4x4();
    let r = d.decompose(2, vec![particle(1, 1), particle(30, 1)]);
    assert!(matches!(r, Err(DecomposeError::Boundary(BoundaryError::OutOfDomain { axis: 0 }))));
}
