use cellular_raza::cuboid::CartesianCuboid;
use cellular_raza::decomposition::get_decomp_res;

#[test]
fn test_get_demomp_res() {
    let max = 500;
    for n_voxel in 1..max {
        let max_regions = 100;
        for n_regions in 1..max_regions {
            match get_decomp_res(n_voxel, n_regions) {
                Some(res) => {
                    let (n, m, average_len) = res;
                    assert_eq!(n + m, n_regions);
                    assert_eq!(n * average_len + m * (average_len - 1), n_voxel);
                }
                None => panic!(
                    "No result for inputs n_voxel: {} n_regions: {}",
                    n_voxel, n_regions
                ),
            }
        }
    }
}

#[test]
fn decomposition_examples_from_the_documentation() {
    assert_eq!(get_decomp_res(225, 16), Some((1, 15, 15)));
    assert_eq!(get_decomp_res(225, 17), Some((4, 13, 14)));
    assert_eq!(get_decomp_res(10, 3), Some((1, 2, 4)));
    assert_eq!(get_decomp_res(13, 4), Some((1, 3, 4)));
    assert_eq!(get_decomp_res(100, 13), Some((9, 4, 8)));
}

#[test]
fn decomposition_without_regions_has_no_solution() {
    assert_eq!(get_decomp_res(10, 0), None);
    assert_eq!(get_decomp_res(0, 0), None);
}

#[test]
fn decomposition_of_more_regions_than_voxels() {
    // Two voxels over five chunks: two chunks of one voxel, three empty ones.
    assert_eq!(get_decomp_res(2, 5), Some((2, 3, 1)));
    assert_eq!(get_decomp_res(0, 3), Some((3, 0, 0)));
}

#[test]
fn decomposition_of_largest_sizes() {
    let (n, m, avg) = get_decomp_res(usize::MAX, 7).unwrap();
    assert_eq!(n + m, 7);
    assert_eq!(n as u128 * avg as u128 + m as u128 * (avg as u128 - 1), usize::MAX as u128);
    assert_eq!(get_decomp_res(5, 5), Some((5, 0, 1)));
}

#[test]
fn generate_subdomains() {
    let min = vec![0; 3];
    let max = vec![100; 3];
    let interaction_range = 20;
    let domain =
        CartesianCuboid::from_boundaries_and_interaction_range(min, max, interaction_range)
            .unwrap();
    let sub_domains = domain.create_subdomains(4).unwrap();
    assert_eq!(sub_domains.len(), 4);
    assert_eq!(
        sub_domains
            .iter()
            .map(|(_, _, voxels)| voxels.len())
            .sum::<usize>(),
        5usize.pow(3)
    );
}
