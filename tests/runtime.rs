use cellular_raza::cell::{CellAgentBox, Id, Mechanics};
use cellular_raza::cuboid::CartesianCuboid;
use cellular_raza::particle::Particle;
use cellular_raza::exchange::{ForceInformation, PosInformation};
use cellular_raza::integrator::AuxiliaryCellPropertyStorage;
use cellular_raza::runtime::{plain_index_of, MultiVoxelContainer, SimulationError};

fn particle(x: i64, y: i64, vx: i64, vy: i64) -> Particle {
    Particle { pos: vec![x, y], vel: vec![vx, vy], interaction_range: 3, age: 0, division_age: 0 }
}

fn domain() -> CartesianCuboid {
    // A 4 x 4 grid of voxels of side 5.
    CartesianCuboid::from_boundaries_and_n_voxels(vec![0, 0], vec![20, 20], vec![4, 4]).unwrap()
}

#[test]
fn container_sorts_initial_entities_into_voxels() {
    let d = domain();
    let parts = d.create_subdomains(2).unwrap();
    let (_, sub, voxels) = &parts[0];
    assert_eq!(voxels.len(), 8);
    let m = MultiVoxelContainer::new(d.duplicate(), 2, 0, sub, vec![particle(1, 1, 0, 0), particle(6, 12, 0, 0), particle(2, 3, 0, 0)])
        .unwrap();
    assert_eq!(m.voxels.len(), 8);
    assert_eq!(m.voxels[0].cells.len(), 2);
    assert_eq!(m.voxels[0].cells[0].0.get_id(), (0, 0));
    assert_eq!(m.voxels[0].cells[1].0.get_id(), (0, 1));
    // (6, 12) lies in voxel [1, 2], dense index 6.
    assert_eq!(m.voxels[6].cells.len(), 1);
    assert_eq!(m.voxels[6].cells[0].0.get_id(), (6, 0));
    assert_eq!(m.voxels[6].plain_index, 6);
    assert_eq!(m.voxels[6].neighbors, vec![1, 2, 3, 5, 7, 9, 10, 11]);
}

#[test]
fn container_refuses_entities_of_other_partitions() {
    let d = domain();
    let parts = d.create_subdomains(2).unwrap();
    let r = MultiVoxelContainer::new(d.duplicate(), 2, 0, &parts[0].1, vec![particle(19, 19, 0, 0)]);
    assert!(matches!(r, Err(SimulationError::Index(_))));
}

#[test]
fn migration_moves_entities_to_their_new_voxel_or_partition() {
    let d = domain();
    let parts = d.create_subdomains(2).unwrap();
    let mut m0 = MultiVoxelContainer::new(d.duplicate(), 2, 0, &parts[0].1, vec![particle(1, 1, 0, 0), particle(2, 2, 0, 0)]).unwrap();
    let mut m1 = MultiVoxelContainer::new(d.duplicate(), 2, 1, &parts[1].1, vec![]).unwrap();
    // Move the first entity within partition 0 and the second into partition 1.
    m0.voxels[0].cells[0].0.set_pos(&vec![7, 1]);
    m0.voxels[0].cells[1].0.set_pos(&vec![12, 16]);
    let out = m0.sort_cells_in_voxels().unwrap();
    assert_eq!(m0.voxels[0].cells.len(), 0);
    // (7, 1) is voxel [1, 0], dense index 4.
    assert_eq!(m0.voxels[4].cells.len(), 1);
    assert_eq!(out.len(), 1);
    let (target, cell) = out.into_iter().next().unwrap();
    assert_eq!(target, 1);
    assert_eq!(cell.0.get_id(), (0, 1));
    m1.sort_cell_in_voxel(cell).unwrap();
    // (12, 16) is voxel [2, 3], dense index 11, the fourth voxel of partition 1.
    assert_eq!(m1.voxels[3].plain_index, 11);
    assert_eq!(m1.voxels[3].cells.len(), 1);
    assert_eq!(m1.voxels[3].cells[0].0.get_id(), (0, 1));
    let total: usize = m0.voxels.iter().chain(m1.voxels.iter()).map(|v| v.cells.len()).sum();
    assert_eq!(total, 2);
}

#[test]
fn receiving_an_entity_of_another_partition_fails() {
    let d = domain();
    let parts = d.create_subdomains(2).unwrap();
    let mut m0 = MultiVoxelContainer::new(d.duplicate(), 2, 0, &parts[0].1, vec![]).unwrap();
    let stray = (CellAgentBox::new(3, 0, particle(19, 19, 0, 0), None), AuxiliaryCellPropertyStorage::new(2));
    assert!(matches!(m0.sort_cell_in_voxel(stray), Err(SimulationError::Index(_))));
}

#[test]
fn forces_across_partitions_are_requested_and_applied() {
    let d = domain();
    let parts = d.create_subdomains(2).unwrap();
    // (9, 9) in voxel [1, 1] (partition 0) and (11, 10) in voxel [2, 2] (partition 1).
    let mut m0 = MultiVoxelContainer::new(d.duplicate(), 2, 0, &parts[0].1, vec![particle(9, 9, 0, 0)]).unwrap();
    let mut m1 = MultiVoxelContainer::new(d.duplicate(), 2, 1, &parts[1].1, vec![particle(11, 10, 0, 0)]).unwrap();
    let reqs0: Vec<(usize, PosInformation<()>)> = m0.update_mechanics().unwrap();
    let reqs1: Vec<(usize, PosInformation<()>)> = m1.update_mechanics().unwrap();
    assert!(reqs0.iter().all(|(t, _)| *t == 1));
    // One request per neighboring voxel of partition 1: [2, 0], [2, 1] and [2, 2].
    assert_eq!(reqs0.len(), 3);
    let receivers: Vec<u64> = reqs0.iter().map(|(_, r)| r.index_receiver).collect();
    assert_eq!(receivers, vec![8, 9, 10]);
    assert!(reqs0.iter().all(|(_, r)| r.pos == vec![9, 9] && r.count == 0 && r.index_sender == 5));
    assert!(reqs1.iter().all(|(t, _)| *t == 0));
    let mut replies_to_0: Vec<ForceInformation> = Vec::new();
    for (_, req) in reqs0.iter() {
        let (t, reply) = m1.calculate_forces_for_external_cells(req).unwrap();
        assert_eq!(t, 0);
        replies_to_0.push(reply);
    }
    for reply in replies_to_0.iter() {
        m0.apply_force_reply(reply).unwrap();
    }
    // The entity of partition 1 pushes the one at (9, 9) toward smaller coordinates.
    let p = plain_index_of(&d, &vec![1, 1]);
    assert_eq!(p, 5);
    assert_eq!(m0.voxels[5].cells[0].1.force, vec![-1, -1]);
    let bad = ForceInformation { force: vec![1, 1], count: 7, index_sender: 5 };
    assert!(matches!(m0.apply_force_reply(&bad), Err(SimulationError::Index(_))));
}

#[test]
fn motion_update_uses_euler_then_second_order() {
    let d = domain();
    let parts = d.create_subdomains(1).unwrap();
    let mut m = MultiVoxelContainer::new(d.duplicate(), 1, 0, &parts[0].1, vec![particle(10, 10, 2, 0)]).unwrap();
    // No force: the position moves by the velocity, the velocity stays.
    m.update_positions(1).unwrap();
    let p = plain_index_of(&d, &vec![2, 2]);
    assert_eq!(m.voxels[p].cells[0].0.pos(), vec![12, 10]);
    assert_eq!(m.voxels[p].cells[0].1.inc_pos_back_1, Some(vec![2, 0]));
    assert_eq!(m.voxels[p].cells[0].1.inc_pos_back_2, None);
    // A force of 2 along y; the second-order step takes (3 * 2 - 2) / 2 = 2 along x.
    m.voxels[p].cells[0].1.force = vec![0, 2];
    m.update_positions(1).unwrap();
    assert_eq!(m.voxels[p].cells[0].0.pos(), vec![14, 10]);
    assert_eq!(m.voxels[p].cells[0].0.velocity(), vec![2, 3]);
    assert_eq!(m.voxels[p].cells[0].1.force, vec![0, 0]);
}

#[test]
fn boundary_reflects_entities_of_a_partition() {
    let d = domain();
    let parts = d.create_subdomains(1).unwrap();
    let mut m = MultiVoxelContainer::new(d.duplicate(), 1, 0, &parts[0].1, vec![particle(1, 19, 0, 0)]).unwrap();
    m.voxels[3].cells[0].0.set_pos(&vec![-2, 21]);
    m.voxels[3].cells[0].0.set_velocity(&vec![-4, 5]);
    m.apply_boundaries(&parts[0].1).unwrap();
    assert_eq!(m.voxels[3].cells[0].0.pos(), vec![2, 19]);
    assert_eq!(m.voxels[3].cells[0].0.velocity(), vec![4, -5]);
}

#[test]
fn division_gives_new_identifiers_from_the_voxel_counter() {
    let d = domain();
    let parts = d.create_subdomains(1).unwrap();
    let mut mother = particle(1, 1, 0, 0);
    mother.division_age = 1;
    let mut m = MultiVoxelContainer::new(d.duplicate(), 1, 0, &parts[0].1, vec![mother, particle(2, 2, 0, 0)]).unwrap();
    assert_eq!(m.voxels[0].uuid_counter, 2);
    // The first step asks for division, the second divides.
    m.update_local_functions(1).unwrap();
    assert_eq!(m.voxels[0].cells.len(), 2);
    m.update_local_functions(1).unwrap();
    assert_eq!(m.voxels[0].cells.len(), 3);
    assert_eq!(m.voxels[0].cells[2].0.get_id(), (0, 3));
    assert_eq!(m.voxels[0].cells[2].0.get_parent_id(), Some((0, 0)));
    assert_eq!(m.voxels[0].cells[2].1.force, vec![0, 0]);
    assert_eq!(m.voxels[0].cells[2].1.inc_pos_back_1, None);
    assert!(!m.voxels[0].cells[2].1.cycle_event);
    assert_eq!(m.voxels[0].uuid_counter, 3);
}

/// Runs `steps` full steps of a system split into `n` partitions, exchanging the
/// messages in one thread, and returns every entity's identifier and position.
fn run(n: usize, steps: usize, entities: Vec<Particle>) -> Vec<((u64, u64), Vec<i64>)> {
    let d = domain();
    let parts = d.create_subdomains(n).unwrap();
    let dd = d.duplicate().decompose(n, entities).unwrap();
    let mut ms: Vec<MultiVoxelContainer<Particle>> = Vec::new();
    for (j, (_, sub, cells)) in dd.index_subdomain_cells.into_iter().enumerate() {
        ms.push(MultiVoxelContainer::new(d.duplicate(), n, j, &sub, cells).unwrap());
    }
    for _ in 0..steps {
        let mut requests: Vec<Vec<PosInformation<()>>> = (0..ms.len()).map(|_| Vec::new()).collect();
        for m in ms.iter_mut() {
            for (t, req) in m.update_mechanics().unwrap() {
                requests[t].push(req);
            }
        }
        let mut replies: Vec<Vec<ForceInformation>> = (0..ms.len()).map(|_| Vec::new()).collect();
        for (j, reqs) in requests.iter().enumerate() {
            for req in reqs {
                let (t, reply) = ms[j].calculate_forces_for_external_cells(req).unwrap();
                replies[t].push(reply);
            }
        }
        for (j, reps) in replies.iter().enumerate() {
            for reply in reps {
                ms[j].apply_force_reply(reply).unwrap();
            }
        }
        let mut moving: Vec<Vec<(CellAgentBox<Particle>, AuxiliaryCellPropertyStorage)>> = (0..ms.len()).map(|_| Vec::new()).collect();
        for m in ms.iter_mut() {
            m.update_positions(1).unwrap();
            m.update_local_functions(1).unwrap();
            for (t, cell) in m.sort_cells_in_voxels().unwrap() {
                moving[t].push(cell);
            }
        }
        for (j, cells) in moving.into_iter().enumerate() {
            for cell in cells {
                ms[j].sort_cell_in_voxel(cell).unwrap();
            }
        }
        for (j, m) in ms.iter_mut().enumerate() {
            m.apply_boundaries(&parts[j].1).unwrap();
        }
    }
    let mut out: Vec<((u64, u64), Vec<i64>)> = ms
        .iter()
        .flat_map(|m| m.voxels.iter())
        .flat_map(|v| v.cells.iter())
        .map(|(c, _)| (c.get_id(), c.pos()))
        .collect();
    out.sort();
    out
}

fn crowd() -> Vec<Particle> {
    vec![
        particle(4, 4, 1, 0),
        particle(5, 6, 0, 1),
        particle(9, 10, 1, 1),
        particle(11, 10, -1, 0),
        particle(10, 12, 0, -1),
        particle(17, 3, -1, 1),
        particle(2, 18, 1, -1),
    ]
}

#[test]
fn runs_repeat_whatever_the_number_of_partitions() {
    let one = run(1, 6, crowd());
    let two = run(2, 6, crowd());
    let three = run(3, 6, crowd());
    assert_eq!(one.len(), 7);
    assert_eq!(one, two);
    assert_eq!(one, three);
    assert_eq!(one, run(1, 6, crowd()));
}

#[test]
fn migrated_entities_end_in_the_partition_of_their_voxel() {
    let d = domain();
    let n = 3;
    let parts = d.create_subdomains(n).unwrap();
    let dd = d.duplicate().decompose(n, crowd()).unwrap();
    for (j, (_, _, cells)) in dd.index_subdomain_cells.iter().enumerate() {
        for c in cells {
            let v = d.get_voxel_index_of_raw(&c.pos).unwrap();
            assert!(parts[j].2.contains(&v));
        }
    }
}

#[test]
fn requests_from_unknown_voxels_are_refused() {
    let d = domain();
    let parts = d.create_subdomains(2).unwrap();
    let m1 = MultiVoxelContainer::<Particle>::new(d.duplicate(), 2, 1, &parts[1].1, vec![]).unwrap();
    let from_nowhere = PosInformation { pos: vec![9, 9], vel: vec![0, 0], info: (), count: 0, index_sender: 99, index_receiver: 10 };
    assert!(matches!(
        m1.calculate_forces_for_external_cells(&from_nowhere),
        Err(SimulationError::Index(cellular_raza::errors::IndexError::UnknownOwner { plain_index: 99 }))
    ));
    let misrouted = PosInformation { pos: vec![9, 9], vel: vec![0, 0], info: (), count: 0, index_sender: 5, index_receiver: 2 };
    assert!(matches!(
        m1.calculate_forces_for_external_cells(&misrouted),
        Err(SimulationError::Index(cellular_raza::errors::IndexError::UnknownVoxel { plain_index: 2 }))
    ));
}

#[test]
fn partition_forces_are_added_to_every_entity() {
    let d = domain();
    let parts = d.create_subdomains(1).unwrap();
    let mut m = MultiVoxelContainer::new(d.duplicate(), 1, 0, &parts[0].1, vec![particle(1, 1, 3, -2), particle(12, 12, 0, 5)]).unwrap();
    m.apply_custom_force(&cellular_raza::particle::Drag).unwrap();
    m.apply_custom_force(&cellular_raza::particle::Drag).unwrap();
    assert_eq!(m.voxels[0].cells[0].1.force, vec![-6, 4]);
    assert_eq!(m.voxels[10].cells[0].1.force, vec![0, -10]);
}
