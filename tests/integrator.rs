use cellular_raza::cell::{CellAgentBox, Id};
use cellular_raza::errors::CalcError;
use cellular_raza::integrator::{add_vectors, integrate_step, AuxiliaryCellPropertyStorage, IntegratorOrder};
use cellular_raza::particle::Particle;

#[test]
fn first_step_is_euler_then_second_then_third_order() {
    let mut pos = vec![100, -50];
    let mut vel = vec![0, 0];
    let mut aux = AuxiliaryCellPropertyStorage::new(2);
    assert_eq!(aux.get_order(), IntegratorOrder::Euler);
    integrate_step(&mut pos, &mut vel, &mut aux, vec![4, -2], vec![1, 1], 3).unwrap();
    assert_eq!(pos, vec![112, -56]);
    assert_eq!(vel, vec![3, 3]);
    assert_eq!(aux.get_order(), IntegratorOrder::AdamsBashforth2);
    // (3 * 6 - 4) * 3 / 2 = 21 and (3 * 0 - (-2)) * 3 / 2 = 3.
    integrate_step(&mut pos, &mut vel, &mut aux, vec![6, 0], vec![0, 0], 3).unwrap();
    assert_eq!(pos, vec![133, -53]);
    // (3 * 0 - 1) * 3 / 2 = -1.5, rounded toward zero: -1.
    assert_eq!(vel, vec![2, 2]);
    assert_eq!(aux.get_order(), IntegratorOrder::AdamsBashforth3);
    // (23 * 12 - 16 * 6 + 5 * 4) * 1 / 12 = 200 / 12, rounded toward zero: 16.
    integrate_step(&mut pos, &mut vel, &mut aux, vec![12, 0], vec![0, 0], 1).unwrap();
    assert_eq!(pos[0], 149);
    assert_eq!(aux.inc_pos_back_1, Some(vec![12, 0]));
    assert_eq!(aux.inc_pos_back_2, Some(vec![6, 0]));
}

#[test]
fn negative_weighted_sums_round_toward_zero() {
    let mut pos = vec![0];
    let mut vel = vec![0];
    let mut aux = AuxiliaryCellPropertyStorage::new(1);
    aux.inc_pos_back_1 = Some(vec![1]);
    aux.inc_vel_back_1 = Some(vec![0]);
    // (3 * 0 - 1) * 1 / 2 = -0.5, rounded toward zero: 0.
    integrate_step(&mut pos, &mut vel, &mut aux, vec![0], vec![0], 1).unwrap();
    assert_eq!(pos, vec![0]);
    // (3 * -1 - 0) / 2 = -1.5: -1.
    integrate_step(&mut pos, &mut vel, &mut aux, vec![-1], vec![0], 1).unwrap();
    assert_eq!(pos, vec![-1]);
}

#[test]
fn step_errors_leave_everything_unchanged() {
    let mut pos = vec![i64::MAX - 1];
    let mut vel = vec![0];
    let mut aux = AuxiliaryCellPropertyStorage::new(1);
    assert_eq!(integrate_step(&mut pos, &mut vel, &mut aux, vec![2], vec![0], 1), Err(CalcError::Overflow));
    assert_eq!(pos, vec![i64::MAX - 1]);
    assert_eq!(aux.inc_pos_back_1, None);
    assert_eq!(
        integrate_step(&mut pos, &mut vel, &mut aux, vec![2, 2], vec![0], 1),
        Err(CalcError::DimensionMismatch)
    );
}

#[test]
fn forces_accumulate_and_check_their_range() {
    let mut aux = AuxiliaryCellPropertyStorage::new(2);
    assert_eq!(aux.force, vec![0, 0]);
    aux.add_force(&vec![3, -4]).unwrap();
    aux.add_force(&vec![1, 1]).unwrap();
    assert_eq!(aux.force, vec![4, -3]);
    assert_eq!(aux.add_force(&vec![i64::MAX, 0]), Err(CalcError::Overflow));
    assert_eq!(aux.force, vec![4, -3]);
    assert_eq!(add_vectors(&vec![1, 2], &vec![3, 4]), Some(vec![4, 6]));
    assert_eq!(add_vectors(&vec![1, 2], &vec![3]), None);
}

#[test]
fn entity_boxes_carry_their_identifiers() {
    let p = Particle { pos: vec![1], vel: vec![0], interaction_range: 1, age: 0, division_age: 0 };
    let b = CellAgentBox::new(7, 3, p.clone(), Some((7, 1)));
    assert_eq!(b.get_id(), (7, 3));
    assert_eq!(b.get_parent_id(), Some((7, 1)));
    assert_eq!(b.cell.pos, vec![1]);
    let orphan = CellAgentBox::new(0, 0, p, None);
    assert_eq!(orphan.get_parent_id(), None);
}

#[test]
fn particles_push_each_other_within_range() {
    let p = Particle { pos: vec![5, 5], vel: vec![0, 0], interaction_range: 3, age: 0, division_age: 0 };
    assert_eq!(p.push_on(&vec![5, 5], &vec![7, 4]), Some(vec![1, -1]));
    assert_eq!(p.push_on(&vec![5, 5], &vec![5, 5]), Some(vec![0, 0]));
    assert_eq!(p.push_on(&vec![5, 5], &vec![8, 5]), None);
    assert_eq!(p.push_on(&vec![5, 5], &vec![5]), None);
}
