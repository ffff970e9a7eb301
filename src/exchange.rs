//! Forces within a partition, the messages that ask other partitions for forces
//! and bring them back, and the motion update that uses them.
use vstd::prelude::*;
use crate::cell::{CellAgentBox, Id, Interaction, Mechanics};
use crate::errors::{CalcError, IndexError};
use crate::integrator::{add_vectors, integrate_step, zero_vector, zeros_i64, AuxiliaryCellPropertyStorage};
use crate::runtime::{owner_of, owner_of_plain, MultiVoxelContainer, PlainIndex, SimulationError, VoxelBox};
use crate::subdomain::CartesianSubDomain;

verus! {

/// A request for the force that the entities of voxel `index_receiver` exert on
/// the entity in slot `count` of voxel `index_sender`.
pub struct PosInformation<Inf> {
    pub pos: Vec<i64>,
    pub vel: Vec<i64>,
    pub info: Inf,
    pub count: usize,
    pub index_sender: PlainIndex,
    pub index_receiver: PlainIndex,
}

/// The answer to a [`PosInformation`]: the force for slot `count` of voxel
/// `index_sender`.
pub struct ForceInformation {
    pub force: Vec<i64>,
    pub count: usize,
    pub index_sender: PlainIndex,
}

/// The entry-by-entry sum of `a` and `b`, when their lengths agree and every entry
/// fits an `i64`.
pub open spec fn checked_sum(a: Seq<i64>, b: Seq<i64>) -> Option<Seq<i64>> {
    if a.len() == b.len() && forall|i: int| 0 <= i < a.len() ==> i64::MIN <= #[trigger] a[i] + b[i] <= i64::MAX {
        Some(Seq::new(a.len(), |i: int| (a[i] + b[i]) as i64))
    } else {
        None
    }
}

/// The entities of a voxel's slots.
pub open spec fn entities<C>(cells: Seq<(CellAgentBox<C>, AuxiliaryCellPropertyStorage)>) -> Seq<CellAgentBox<C>> {
    Seq::new(cells.len(), |i: int| cells[i].0)
}

/// The force that the first `n` of the entities `es`, except the one in slot
/// `skip`, exert on an entity at `ext_pos` with velocity `ext_vel` and interaction
/// data `ext_inf`: the sum of their forces, out-of-range ones left out. The first
/// failed force computation, or a sum that leaves `i64`, is the error.
pub open spec fn force_sum<C: Mechanics + Interaction<Inf>, Inf>(
    es: Seq<CellAgentBox<C>>,
    n: int,
    skip: Option<usize>,
    ext_pos: Seq<i64>,
    ext_vel: Seq<i64>,
    ext_inf: Inf,
) -> Result<Seq<i64>, CalcError>
    decreases n,
{
    if n <= 0 {
        Ok(zero_vector(ext_pos.len()))
    } else {
        match force_sum(es, n - 1, skip, ext_pos, ext_vel, ext_inf) {
            Err(e) => Err(e),
            Ok(acc) => if skip == Some((n - 1) as usize) {
                Ok(acc)
            } else {
                let a = es[n - 1];
                match a.force_view(a.pos_view(), a.velocity_view(), ext_pos, ext_vel, ext_inf) {
                    None => Ok(acc),
                    Some(Err(e)) => Err(e),
                    Some(Ok(f)) => match checked_sum(acc, f) {
                        Some(t) => Ok(t),
                        None => Err(if f.len() == acc.len() { CalcError::Overflow } else { CalcError::DimensionMismatch }),
                    },
                }
            },
        }
    }
}

/// An error in the sum of the first `n` entities stays the error of longer sums.
proof fn lemma_force_sum_err<C: Mechanics + Interaction<Inf>, Inf>(
    es: Seq<CellAgentBox<C>>,
    n: int,
    m: int,
    skip: Option<usize>,
    ext_pos: Seq<i64>,
    ext_vel: Seq<i64>,
    ext_inf: Inf,
)
    requires
        0 <= n <= m,
        force_sum(es, n, skip, ext_pos, ext_vel, ext_inf) is Err,
    ensures
        force_sum(es, m, skip, ext_pos, ext_vel, ext_inf) == force_sum(es, n, skip, ext_pos, ext_vel, ext_inf),
    decreases m - n,
{
    if n < m {
        lemma_force_sum_err(es, n, m - 1, skip, ext_pos, ext_vel, ext_inf);
    }
}

/// [`force_sum`] over the entities of a voxel, as a `SimulationError`.
pub open spec fn voxel_force_matches<C: Mechanics + Interaction<Inf>, Inf>(
    r: Result<Vec<i64>, SimulationError>,
    es: Seq<CellAgentBox<C>>,
    skip: Option<usize>,
    ext_pos: Seq<i64>,
    ext_vel: Seq<i64>,
    ext_inf: Inf,
) -> bool {
    match force_sum(es, es.len() as int, skip, ext_pos, ext_vel, ext_inf) {
        Ok(t) => r matches Ok(f) && f@ == t,
        Err(e) => r == Err::<Vec<i64>, SimulationError>(SimulationError::Calc(e)),
    }
}

/// The force that the entities of `vox`, except the one in slot `skip`, exert on
/// an entity at `ext_pos` with velocity `ext_vel` and interaction data `ext_inf`.
fn force_from_voxel<C: Mechanics + Interaction<Inf>, Inf>(
    vox: &VoxelBox<C>,
    ext_pos: &Vec<i64>,
    ext_vel: &Vec<i64>,
    ext_inf: &Inf,
    skip: Option<usize>,
) -> (r: Result<Vec<i64>, SimulationError>)
    ensures
        voxel_force_matches(r, entities(vox.cells@), skip, ext_pos@, ext_vel@, *ext_inf),
{
    let ghost es = entities(vox.cells@);
    let mut force = zeros_i64(ext_pos.len());
    let mut c: usize = 0;
    while c < vox.cells.len()
        invariant
            es == entities(vox.cells@),
            c <= vox.cells.len(),
            force_sum(es, c as int, skip, ext_pos@, ext_vel@, *ext_inf) == Ok::<Seq<i64>, CalcError>(force@),
        decreases vox.cells.len() - c,
    {
        if skip != Some(c) {
            let cell = &vox.cells[c].0;
            let own_pos = cell.pos();
            let own_vel = cell.velocity();
            assert(es[c as int] == *cell);
            match cell.calculate_force_between(&own_pos, &own_vel, ext_pos, ext_vel, ext_inf) {
                Some(Ok(f)) => {
                    match add_vectors(&force, &f) {
                        Some(sum) => {
                            proof {
                                assert(sum@ =~= checked_sum(force@, f@)->Some_0);
                            }
                            force = sum;
                        },
                        None => {
                            proof {
                                assert(checked_sum(force@, f@) is None);
                                lemma_force_sum_err(es, c as int + 1, es.len() as int, skip, ext_pos@, ext_vel@, *ext_inf);
                            }
                            return Err(SimulationError::Calc(
                                if f.len() == force.len() { CalcError::Overflow } else { CalcError::DimensionMismatch },
                            ));
                        },
                    }
                },
                Some(Err(e)) => {
                    proof {
                        lemma_force_sum_err(es, c as int + 1, es.len() as int, skip, ext_pos@, ext_vel@, *ext_inf);
                    }
                    return Err(SimulationError::Calc(e));
                },
                None => {},
            }
        }
        c = c + 1;
    }
    Ok(force)
}

impl<C> VoxelBox<C> {
    /// Adds `f` to the force accumulated by the entity in slot `c`.
    pub fn add_force_to(&mut self, c: usize, f: &Vec<i64>) -> (r: Result<(), SimulationError>)
        requires
            c < old(self).cells@.len(),
        ensures
            final(self).plain_index == old(self).plain_index,
            final(self).index == old(self).index,
            final(self).neighbors == old(self).neighbors,
            final(self).cells@.len() == old(self).cells@.len(),
            forall|q: int| 0 <= q < old(self).cells@.len() ==> (#[trigger] final(self).cells@[q]).0 == old(self).cells@[q].0,
            forall|q: int| 0 <= q < old(self).cells@.len() && q != c ==> #[trigger] final(self).cells@[q] == old(self).cells@[q],
            r is Ok ==> {
                let a = final(self).cells@[c as int].1;
                let b = old(self).cells@[c as int].1;
                &&& a.force@.len() == f@.len()
                &&& b.force@.len() == f@.len()
                &&& forall|i: int| 0 <= i < f@.len() ==> #[trigger] a.force@[i] == b.force@[i] + f@[i]
                &&& a.inc_pos_back_1 == b.inc_pos_back_1 && a.inc_pos_back_2 == b.inc_pos_back_2
                &&& a.inc_vel_back_1 == b.inc_vel_back_1 && a.inc_vel_back_2 == b.inc_vel_back_2
                &&& a.cycle_event == b.cycle_event
            },
            r is Err ==> final(self).cells@ == old(self).cells@,
            r matches Err(e) ==> e == SimulationError::Calc(CalcError::Overflow),
            ({
                let g = old(self).cells@[c as int].1.force@;
                &&& g.len() == f@.len()
                &&& forall|i: int| 0 <= i < g.len() ==> i64::MIN <= #[trigger] g[i] + f@[i] <= i64::MAX
            }) ==> r is Ok,
    {
        let ghost before = self.cells@;
        match self.cells[c].1.add_force(f) {
            Ok(()) => {
                proof {
                    assert forall|q: int| 0 <= q < before.len() && q != c implies #[trigger] self.cells@[q] == before[q] by {}
                }
                Ok(())
            },
            Err(_) => {
                proof {
                    assert(self.cells@[c as int] == before[c as int]);
                    assert(self.cells@ =~= before);
                }
                Err(SimulationError::Calc(CalcError::Overflow))
            },
        }
    }
}

impl<C: Mechanics> MultiVoxelContainer<C> {
    /// The slot in `voxels` of the voxel with dense index `plain`, if this
    /// partition owns it.
    pub fn local_slot(&self, plain: PlainIndex) -> (r: Option<usize>)
        requires
            self.wf(),
        ensures
            r is Some <==> self.owns(plain as int),
            r matches Some(k) ==> k as int == plain - self.first_plain() && k < self.voxels@.len(),
    {
        proof {
            crate::runtime::lemma_partition_span(self.domain@, self.n_subdomains as int, self.mvc_id as int);
        }
        let first = self.voxels[0].plain_index;
        if first <= plain && plain - first < self.voxels.len() as u64 {
            Some((plain - first) as usize)
        } else {
            None
        }
    }

    /// Answers a request from another partition: the force that the entities of the
    /// requested voxel exert on the requesting entity, and the partition to send it to.
    pub fn calculate_forces_for_external_cells<Inf>(&self, info: &PosInformation<Inf>) -> (r: Result<(usize, ForceInformation), SimulationError>)
        where
            C: Interaction<Inf>,
        requires
            self.wf(),
        ensures
            !self.owns(info.index_receiver as int) ==> r == Err::<(usize, ForceInformation), SimulationError>(
                SimulationError::Index(IndexError::UnknownVoxel { plain_index: info.index_receiver })),
            self.owns(info.index_receiver as int) && info.index_sender >= self.domain@.total() ==> r == Err::<(usize, ForceInformation), SimulationError>(
                SimulationError::Index(IndexError::UnknownOwner { plain_index: info.index_sender })),
            self.owns(info.index_receiver as int) && info.index_sender < self.domain@.total() ==> {
                let es = entities(self.voxels@[info.index_receiver - self.first_plain()].cells@);
                match force_sum(es, es.len() as int, None, info.pos@, info.vel@, info.info) {
                    Ok(t) => r matches Ok((target, reply)) && {
                        &&& target == owner_of(self.domain@, self.n_subdomains as int, info.index_sender as int)
                        &&& reply.count == info.count
                        &&& reply.index_sender == info.index_sender
                        &&& reply.force@ == t
                    },
                    Err(e) => r == Err::<(usize, ForceInformation), SimulationError>(SimulationError::Calc(e)),
                }
            },
    {
        let k = match self.local_slot(info.index_receiver) {
            Some(k) => k,
            None => {
                return Err(SimulationError::Index(IndexError::UnknownVoxel { plain_index: info.index_receiver }));
            },
        };
        let total = self.domain.get_n_indices();
        if info.index_sender >= total as u64 {
            return Err(SimulationError::Index(IndexError::UnknownOwner { plain_index: info.index_sender }));
        }
        let force = match force_from_voxel(&self.voxels[k], &info.pos, &info.vel, &info.info, None) {
            Ok(f) => f,
            Err(e) => {
                return Err(e);
            },
        };
        let target = owner_of_plain(&self.domain, self.n_subdomains, info.index_sender as usize);
        Ok((target, ForceInformation { force, count: info.count, index_sender: info.index_sender }))
    }

    /// Adds a force that another partition sent back to the entity it was meant
    /// for, found by the voxel's dense index and the entity's slot.
    pub fn apply_force_reply(&mut self, reply: &ForceInformation) -> (r: Result<(), SimulationError>)
        requires
            old(self).wf(),
        ensures
            final(self).wf(),
            final(self).same_cells(old(self)),
            !old(self).owns(reply.index_sender as int) ==> r == Err::<(), SimulationError>(
                SimulationError::Index(IndexError::UnknownVoxel { plain_index: reply.index_sender })),
            old(self).owns(reply.index_sender as int)
                && reply.count >= old(self).voxels@[reply.index_sender - old(self).first_plain()].cells@.len()
                ==> r == Err::<(), SimulationError>(SimulationError::Index(
                    IndexError::UnknownSlot { plain_index: reply.index_sender, slot: reply.count })),
            ({
                let k = reply.index_sender - old(self).first_plain();
                let f = old(self).voxels@[k].cells@[reply.count as int].1.force@;
                &&& old(self).owns(reply.index_sender as int)
                &&& reply.count < old(self).voxels@[k].cells@.len()
                &&& f.len() == reply.force@.len()
                &&& forall|i: int| 0 <= i < f.len() ==> i64::MIN <= #[trigger] f[i] + reply.force@[i] <= i64::MAX
            }) ==> r is Ok,
            r is Ok ==> reply_applied(old(self), final(self), *reply),
    {
        let k = match self.local_slot(reply.index_sender) {
            Some(k) => k,
            None => {
                return Err(SimulationError::Index(IndexError::UnknownVoxel { plain_index: reply.index_sender }));
            },
        };
        if reply.count >= self.voxels[k].cells.len() {
            return Err(SimulationError::Index(IndexError::UnknownSlot { plain_index: reply.index_sender, slot: reply.count }));
        }
        if self.voxels[k].cells[reply.count].1.force.len() != reply.force.len() {
            return Err(SimulationError::Calc(CalcError::DimensionMismatch));
        }
        let ghost before = self.voxels@;
        let res = self.voxels[k].add_force_to(reply.count, &reply.force);
        proof {
            assert(self.voxels@ == before.update(k as int, self.voxels@[k as int]));
            assert forall|q: int| 0 <= q < self.voxels@.len() && q != k implies #[trigger] self.voxels@[q] == before[q] by {}
            assert forall|kk: int, q: int| 0 <= kk < self.voxels@.len() && 0 <= q < self.voxels@[kk].cells@.len() implies
                (#[trigger] self.voxels@[kk].cells@[q]).0 == before[kk].cells@[q].0 by {
                if kk != k {
                    assert(self.voxels@[kk] == before[kk]);
                }
            }
        }
        res
    }
}

/// `reqs` holds a request from slot `c` of voxel `sender` to voxel `receiver`.
pub open spec fn requested<Inf>(reqs: Seq<(usize, PosInformation<Inf>)>, sender: u64, c: int, receiver: u64) -> bool {
    exists|q: int| 0 <= q < reqs.len() && (#[trigger] reqs[q]).1.index_sender == sender && reqs[q].1.count == c
        && reqs[q].1.index_receiver == receiver
}

/// When neighbor `i` of voxel slot `k` lies in another partition, `reqs` asks it
/// for the force on the entity in slot `c` of that voxel.
pub open spec fn covered<C: Mechanics, Inf>(m: &MultiVoxelContainer<C>, reqs: Seq<(usize, PosInformation<Inf>)>, k: int, c: int, i: int) -> bool {
    !m.owns(m.voxels@[k].neighbors@[i] as int) ==> requested(reqs, m.voxels@[k].plain_index, c, m.voxels@[k].neighbors@[i])
}

/// `new` is `old` with the force of `reply` added to the entity it names, and
/// nothing else changed.
pub open spec fn reply_applied<C: Mechanics>(old: &MultiVoxelContainer<C>, new: &MultiVoxelContainer<C>, reply: ForceInformation) -> bool {
    let k = reply.index_sender - old.first_plain();
    let c = reply.count as int;
    let a = new.voxels@[k].cells@[c].1;
    let b = old.voxels@[k].cells@[c].1;
    &&& new.same_cells(old)
    &&& old.owns(reply.index_sender as int)
    &&& c < old.voxels@[k].cells@.len()
    &&& forall|q: int| 0 <= q < new.voxels@.len() && q != k ==> #[trigger] new.voxels@[q] == old.voxels@[q]
    &&& forall|q: int| 0 <= q < new.voxels@[k].cells@.len() && q != c ==> #[trigger] new.voxels@[k].cells@[q] == old.voxels@[k].cells@[q]
    &&& a.force@.len() == reply.force@.len()
    &&& b.force@.len() == reply.force@.len()
    &&& forall|i: int| 0 <= i < reply.force@.len() ==> #[trigger] a.force@[i] == b.force@[i] + reply.force@[i]
    &&& a.cycle_event == b.cycle_event
    &&& a.inc_pos_back_1 == b.inc_pos_back_1 && a.inc_pos_back_2 == b.inc_pos_back_2
    &&& a.inc_vel_back_1 == b.inc_vel_back_1 && a.inc_vel_back_2 == b.inc_vel_back_2
}

/// Force replies may arrive in any order: applying two replies one way round or
/// the other leaves every entity with the same accumulated force.
pub proof fn lemma_replies_commute<C: Mechanics>(
    m0: &MultiVoxelContainer<C>,
    m1: &MultiVoxelContainer<C>,
    m2: &MultiVoxelContainer<C>,
    n1: &MultiVoxelContainer<C>,
    n2: &MultiVoxelContainer<C>,
    a: ForceInformation,
    b: ForceInformation,
)
    requires
        reply_applied(m0, m1, a),
        reply_applied(m1, m2, b),
        reply_applied(m0, n1, b),
        reply_applied(n1, n2, a),
    ensures
        m2.same_cells(n2),
        forall|k: int, c: int| 0 <= k < m2.voxels@.len() && 0 <= c < m2.voxels@[k].cells@.len() ==>
            (#[trigger] m2.voxels@[k].cells@[c]).1.force@ == n2.voxels@[k].cells@[c].1.force@,
{
    let ka = a.index_sender - m0.first_plain();
    let kb = b.index_sender - m0.first_plain();
    let ca = a.count as int;
    let cb = b.count as int;
    assert forall|k: int, c: int| 0 <= k < m2.voxels@.len() && 0 <= c < m2.voxels@[k].cells@.len() implies
        (#[trigger] m2.voxels@[k].cells@[c]).1.force@ == n2.voxels@[k].cells@[c].1.force@ by {
        let hit_a = k == ka && c == ca;
        let hit_b = k == kb && c == cb;
        if hit_a && hit_b {
            assert(m2.voxels@[k].cells@[c].1.force@ =~= n2.voxels@[k].cells@[c].1.force@);
        } else if hit_a {
            assert(m2.voxels@[k].cells@[c] == m1.voxels@[k].cells@[c]);
            assert(n1.voxels@[k].cells@[c] == m0.voxels@[k].cells@[c]);
            assert(m2.voxels@[k].cells@[c].1.force@ =~= n2.voxels@[k].cells@[c].1.force@);
        } else if hit_b {
            assert(m1.voxels@[k].cells@[c] == m0.voxels@[k].cells@[c]);
            assert(n2.voxels@[k].cells@[c] == n1.voxels@[k].cells@[c]);
            assert(m2.voxels@[k].cells@[c].1.force@ =~= n2.voxels@[k].cells@[c].1.force@);
        } else {
            assert(m1.voxels@[k].cells@[c] == m0.voxels@[k].cells@[c]);
            assert(m2.voxels@[k].cells@[c] == m1.voxels@[k].cells@[c]);
            assert(n1.voxels@[k].cells@[c] == m0.voxels@[k].cells@[c]);
            assert(n2.voxels@[k].cells@[c] == n1.voxels@[k].cells@[c]);
        }
    }
}

/// `new` is `old` after one integrator step of length `dt` with increments that
/// the entity itself supplied, recorded as its most recent history.
pub open spec fn advanced<C: Mechanics>(
    old_cell: (CellAgentBox<C>, AuxiliaryCellPropertyStorage),
    new_cell: (CellAgentBox<C>, AuxiliaryCellPropertyStorage),
    dt: int,
) -> bool {
    let (oc, oa) = old_cell;
    let (nc, na) = new_cell;
    &&& nc.id_view() == oc.id_view()
    &&& nc.parent_view() == oc.parent_view()
    &&& na.inc_pos_back_1 is Some && na.inc_vel_back_1 is Some
    &&& oc.increment_view(oa.force@) == Ok::<(Seq<i64>, Seq<i64>), CalcError>((na.inc_pos_back_1->Some_0@, na.inc_vel_back_1->Some_0@))
    &&& crate::integrator::history_after_step(oa, na, na.inc_pos_back_1->Some_0, na.inc_vel_back_1->Some_0)
    &&& na.force@ == crate::integrator::zero_vector(oc.pos_view().len())
    &&& nc.pos_view().len() == oc.pos_view().len()
    &&& nc.velocity_view().len() == oc.velocity_view().len()
    &&& forall|i: int| 0 <= i < oc.pos_view().len() ==> #[trigger] nc.pos_view()[i] == crate::integrator::advance_all(
        oc.pos_view(), na.inc_pos_back_1->Some_0@, crate::integrator::opt_view(oa.inc_pos_back_1),
        crate::integrator::opt_view(oa.inc_pos_back_2), dt, oa.order())[i]
    &&& forall|i: int| 0 <= i < oc.velocity_view().len() ==> #[trigger] nc.velocity_view()[i] == crate::integrator::advance_all(
        oc.velocity_view(), na.inc_vel_back_1->Some_0@, crate::integrator::opt_view(oa.inc_vel_back_1),
        crate::integrator::opt_view(oa.inc_vel_back_2), dt, oa.order())[i]
}

/// The entity can take an integrator step of length `dt`: it computes increments
/// from its accumulated force, their lengths fit, and the new coordinates fit `i64`.
pub open spec fn step_ok<C: Mechanics>(cell: (CellAgentBox<C>, AuxiliaryCellPropertyStorage), dt: int) -> bool {
    let e = cell.0;
    let a = cell.1;
    let p = e.pos_view();
    let v = e.velocity_view();
    match e.increment_view(a.force@) {
        Err(_) => false,
        Ok((dx, dv)) => {
            &&& v.len() == p.len()
            &&& dx.len() == p.len()
            &&& dv.len() == p.len()
            &&& a.dims_match(p.len())
            &&& forall|i: int| 0 <= i < p.len() ==> i64::MIN <= #[trigger] crate::integrator::advance_all(p, dx,
                crate::integrator::opt_view(a.inc_pos_back_1), crate::integrator::opt_view(a.inc_pos_back_2), dt, a.order())[i] <= i64::MAX
            &&& forall|i: int| 0 <= i < v.len() ==> i64::MIN <= #[trigger] crate::integrator::advance_all(v, dv,
                crate::integrator::opt_view(a.inc_vel_back_1), crate::integrator::opt_view(a.inc_vel_back_2), dt, a.order())[i] <= i64::MAX
        },
    }
}

/// The reflective boundary of `sub`'s domain can be applied to the entity.
pub open spec fn boundary_ok<C: Mechanics>(
    sub: crate::subdomain::SubDomainModel,
    cell: (CellAgentBox<C>, AuxiliaryCellPropertyStorage),
) -> bool {
    &&& cell.0.pos_view().len() == sub.domain.dim()
    &&& cell.0.velocity_view().len() == sub.domain.dim()
    &&& sub.reflect_all_ok(cell.0.pos_view(), cell.0.velocity_view())
}

/// `new` is `old` after the reflective boundary of `sub`'s domain.
pub open spec fn reflected<C: Mechanics>(
    sub: crate::subdomain::SubDomainModel,
    old_cell: (CellAgentBox<C>, AuxiliaryCellPropertyStorage),
    new_cell: (CellAgentBox<C>, AuxiliaryCellPropertyStorage),
) -> bool {
    let p = old_cell.0.pos_view();
    let v = old_cell.0.velocity_view();
    &&& new_cell.0.id_view() == old_cell.0.id_view()
    &&& new_cell.1 == old_cell.1
    &&& sub.reflect_all_ok(p, v)
    &&& new_cell.0.pos_view().len() == p.len()
    &&& new_cell.0.velocity_view().len() == p.len()
    &&& forall|i: int| 0 <= i < p.len() ==> #[trigger] new_cell.0.pos_view()[i] as int == sub.reflect_all(p, v).0[i]
    &&& forall|i: int| 0 <= i < p.len() ==> #[trigger] new_cell.0.velocity_view()[i] as int == sub.reflect_all(p, v).1[i]
}

/// The force on the entity in slot `c` of voxel slot `k` after the forces from the
/// other entities of its voxel are added to what it has accumulated.
pub open spec fn own_force<C: Mechanics + Interaction<Inf>, Inf>(m: &MultiVoxelContainer<C>, k: int, c: int) -> Result<Seq<i64>, CalcError> {
    let e = m.voxels@[k].cells@[c].0;
    let es = entities(m.voxels@[k].cells@);
    match force_sum(es, es.len() as int, Some(c as usize), e.pos_view(), e.velocity_view(), e.info_view()) {
        Err(x) => Err(x),
        Ok(f) => match checked_sum(m.voxels@[k].cells@[c].1.force@, f) {
            Some(t) => Ok(t),
            None => Err(CalcError::Overflow),
        },
    }
}

/// The force on the entity in slot `c` of voxel slot `k` after [`own_force`] and
/// the forces from the entities of the first `n` neighbors of its voxel that this
/// partition owns; the first failure is the error.
pub open spec fn mechanics_force<C: Mechanics + Interaction<Inf>, Inf>(m: &MultiVoxelContainer<C>, k: int, c: int, n: int) -> Result<Seq<i64>, CalcError>
    decreases n,
{
    if n <= 0 {
        own_force(m, k, c)
    } else {
        match mechanics_force(m, k, c, n - 1) {
            Err(x) => Err(x),
            Ok(acc) => {
                let p = m.voxels@[k].neighbors@[n - 1];
                if m.owns(p as int) {
                    let e = m.voxels@[k].cells@[c].0;
                    let es = entities(m.voxels@[p - m.first_plain()].cells@);
                    match force_sum(es, es.len() as int, None, e.pos_view(), e.velocity_view(), e.info_view()) {
                        Err(x) => Err(x),
                        Ok(f) => match checked_sum(acc, f) {
                            Some(t) => Ok(t),
                            None => Err(CalcError::Overflow),
                        },
                    }
                } else {
                    Ok(acc)
                }
            },
        }
    }
}

/// The full force on the entity in slot `c` of voxel slot `k` from this partition.
pub open spec fn partition_force<C: Mechanics + Interaction<Inf>, Inf>(m: &MultiVoxelContainer<C>, k: int, c: int) -> Result<Seq<i64>, CalcError> {
    mechanics_force(m, k, c, m.voxels@[k].neighbors@.len() as int)
}

proof fn lemma_mechanics_force_err<C: Mechanics + Interaction<Inf>, Inf>(m: &MultiVoxelContainer<C>, k: int, c: int, n: int, l: int)
    requires
        0 <= n <= l,
        mechanics_force(m, k, c, n) is Err,
    ensures
        mechanics_force(m, k, c, l) is Err,
    decreases l - n,
{
    if n < l {
        lemma_mechanics_force_err(m, k, c, n, l - 1);
    }
}

/// Two containers with the same entities, where slot `c` of voxel slot `k` has the
/// same accumulated force, give that entity the same partition force.
proof fn lemma_mechanics_force_same<C: Mechanics + Interaction<Inf>, Inf>(a: &MultiVoxelContainer<C>, b: &MultiVoxelContainer<C>, k: int, c: int, n: int)
    requires
        a.same_cells(b),
        0 <= k < a.voxels@.len(),
        0 <= c < a.voxels@[k].cells@.len(),
        a.voxels@[k].cells@[c].1.force == b.voxels@[k].cells@[c].1.force,
        n <= a.voxels@[k].neighbors@.len(),
        a.wf(),
    ensures
        mechanics_force(a, k, c, n) == mechanics_force(b, k, c, n),
    decreases n,
{
    lemma_same_cells_structure(a, b);
    assert(entities(a.voxels@[k].cells@) =~= entities(b.voxels@[k].cells@));
    if n > 0 {
        lemma_mechanics_force_same(a, b, k, c, n - 1);
        let p = a.voxels@[k].neighbors@[n - 1];
        if a.owns(p as int) {
            let q = p - a.first_plain();
            assert(entities(a.voxels@[q].cells@) =~= entities(b.voxels@[q].cells@));
        }
    }
}

/// `req`, to be sent to partition `target`, asks for the force on the entity in
/// slot `c` of voxel slot `k` from that voxel's neighbor `i`, which another
/// partition owns, and carries the entity's position, velocity and interaction data.
pub open spec fn request_for<C: Mechanics + Interaction<Inf>, Inf>(
    m: &MultiVoxelContainer<C>,
    k: int,
    c: int,
    i: int,
    target: usize,
    req: PosInformation<Inf>,
) -> bool {
    let e = m.voxels@[k].cells@[c].0;
    let p = m.voxels@[k].neighbors@[i];
    &&& 0 <= k < m.voxels@.len()
    &&& 0 <= c < m.voxels@[k].cells@.len()
    &&& 0 <= i < m.voxels@[k].neighbors@.len()
    &&& !m.owns(p as int)
    &&& target == owner_of(m.domain@, m.n_subdomains as int, p as int)
    &&& req.index_sender == m.voxels@[k].plain_index
    &&& req.count == c
    &&& req.index_receiver == p
    &&& req.pos@ == e.pos_view()
    &&& req.vel@ == e.velocity_view()
    &&& req.info == e.info_view()
}

/// `req` is a request of the entity in slot `c` of voxel slot `k` for one of the
/// neighbors of its voxel.
pub open spec fn request_of<C: Mechanics + Interaction<Inf>, Inf>(
    m: &MultiVoxelContainer<C>,
    k: int,
    c: int,
    req: (usize, PosInformation<Inf>),
) -> bool {
    exists|i: int| #[trigger] request_for(m, k, c, i, req.0, req.1)
}

/// `reqs` are the requests of the entity in slot `c` of voxel slot `k`: one for
/// each neighbor of its voxel that another partition owns, and no other.
pub open spec fn entity_requests<C: Mechanics + Interaction<Inf>, Inf>(
    m: &MultiVoxelContainer<C>,
    k: int,
    c: int,
    reqs: Seq<(usize, PosInformation<Inf>)>,
) -> bool {
    &&& forall|q: int| 0 <= q < reqs.len() ==> #[trigger] request_of(m, k, c, reqs[q])
    &&& forall|i: int| 0 <= i < m.voxels@[k].neighbors@.len() && !m.owns(m.voxels@[k].neighbors@[i] as int) ==>
        exists|q: int| 0 <= q < reqs.len() && #[trigger] reqs[q].1.index_receiver == m.voxels@[k].neighbors@[i]
    &&& forall|q1: int, q2: int| 0 <= q1 < q2 < reqs.len() ==>
        #[trigger] reqs[q1].1.index_receiver != #[trigger] reqs[q2].1.index_receiver
}

proof fn lemma_entity_requests<C: Mechanics + Interaction<Inf>, Inf>(
    o: &MultiVoxelContainer<C>,
    k: int,
    m: int,
    reqs: Seq<(usize, PosInformation<Inf>)>,
    idx: Seq<int>,
)
    requires
        neighbors_distinct(o.voxels@),
        0 <= k < o.voxels@.len(),
        idx.len() == reqs.len(),
        forall|q1: int, q2: int| 0 <= q1 < q2 < reqs.len() ==> #[trigger] idx[q1] < #[trigger] idx[q2],
        forall|q: int| 0 <= q < reqs.len() ==> request_for(o, k, m, idx[q], #[trigger] reqs[q].0, reqs[q].1),
        forall|i2: int| 0 <= i2 < o.voxels@[k].neighbors@.len() && !o.owns(o.voxels@[k].neighbors@[i2] as int) ==>
            exists|q: int| 0 <= q < reqs.len() && #[trigger] idx[q] == i2,
    ensures
        entity_requests(o, k, m, reqs),
{
    assert forall|q: int| 0 <= q < reqs.len() implies #[trigger] request_of(o, k, m, reqs[q]) by {
        assert(request_for(o, k, m, idx[q], reqs[q].0, reqs[q].1));
    }
    assert forall|i2: int| 0 <= i2 < o.voxels@[k].neighbors@.len() && !o.owns(o.voxels@[k].neighbors@[i2] as int) implies
        exists|q: int| 0 <= q < reqs.len() && #[trigger] reqs[q].1.index_receiver == o.voxels@[k].neighbors@[i2] by {
        let q0 = choose|q: int| 0 <= q < reqs.len() && #[trigger] idx[q] == i2;
        assert(request_for(o, k, m, idx[q0], reqs[q0].0, reqs[q0].1));
    }
    assert forall|q1: int, q2: int| 0 <= q1 < q2 < reqs.len() implies
        #[trigger] reqs[q1].1.index_receiver != #[trigger] reqs[q2].1.index_receiver by {
        assert(request_for(o, k, m, idx[q1], reqs[q1].0, reqs[q1].1));
        assert(request_for(o, k, m, idx[q2], reqs[q2].0, reqs[q2].1));
        assert(idx[q1] < idx[q2]);
        assert(o.voxels@[k].neighbors@[idx[q1]] != o.voxels@[k].neighbors@[idx[q2]]);
    }
}

/// `new` holds for the entity in slot `c` of voxel slot `k` the force that
/// [`partition_force`] gives from `old`, with the rest of its storage unchanged.
pub open spec fn force_added<C: Mechanics + Interaction<Inf>, Inf>(old: &MultiVoxelContainer<C>, new: &MultiVoxelContainer<C>, k: int, c: int) -> bool {
    let a = new.voxels@[k].cells@[c].1;
    let b = old.voxels@[k].cells@[c].1;
    &&& partition_force(old, k, c) matches Ok(f) && a.force@ == f
    &&& a.cycle_event == b.cycle_event
    &&& a.inc_pos_back_1 == b.inc_pos_back_1 && a.inc_pos_back_2 == b.inc_pos_back_2
    &&& a.inc_vel_back_1 == b.inc_vel_back_1 && a.inc_vel_back_2 == b.inc_vel_back_2
}

/// `req` is the request of some entity of `m` for one of its voxel's neighbors.
pub open spec fn request_in<C: Mechanics + Interaction<Inf>, Inf>(m: &MultiVoxelContainer<C>, req: (usize, PosInformation<Inf>)) -> bool {
    exists|k: int, c: int| #[trigger] request_of(m, k, c, req)
}

/// The two requests come from the same slot of the same voxel and ask the same voxel.
pub open spec fn same_request<Inf>(a: PosInformation<Inf>, b: PosInformation<Inf>) -> bool {
    a.index_sender == b.index_sender && a.count == b.count && a.index_receiver == b.index_receiver
}

proof fn lemma_entity_requests_same<C: Mechanics + Interaction<Inf>, Inf>(
    a: &MultiVoxelContainer<C>,
    b: &MultiVoxelContainer<C>,
    k: int,
    c: int,
    reqs: Seq<(usize, PosInformation<Inf>)>,
)
    requires
        a.same_cells(b),
        0 <= k < a.voxels@.len(),
        0 <= c < a.voxels@[k].cells@.len(),
        entity_requests(a, k, c, reqs),
    ensures
        entity_requests(b, k, c, reqs),
{
    lemma_same_cells_structure(a, b);
    assert forall|q: int| 0 <= q < reqs.len() implies #[trigger] request_of(b, k, c, reqs[q]) by {
        assert(request_of(a, k, c, reqs[q]));
        let i = choose|i: int| #[trigger] request_for(a, k, c, i, reqs[q].0, reqs[q].1);
        assert(request_for(b, k, c, i, reqs[q].0, reqs[q].1));
    }
}

proof fn lemma_covered_grows<C: Mechanics, Inf>(
    m: &MultiVoxelContainer<C>,
    a: Seq<(usize, PosInformation<Inf>)>,
    b: Seq<(usize, PosInformation<Inf>)>,
    k: int,
    c: int,
    i: int,
)
    requires
        covered(m, a, k, c, i),
    ensures
        covered(m, a + b, k, c, i),
{
    if !m.owns(m.voxels@[k].neighbors@[i] as int) {
        let q = choose|q: int| 0 <= q < a.len() && (#[trigger] a[q]).1.index_sender == m.voxels@[k].plain_index && a[q].1.count == c
            && a[q].1.index_receiver == m.voxels@[k].neighbors@[i];
        assert((a + b)[q] == a[q]);
    }
}

proof fn lemma_covered_new<C: Mechanics + Interaction<Inf>, Inf>(
    m: &MultiVoxelContainer<C>,
    a: Seq<(usize, PosInformation<Inf>)>,
    b: Seq<(usize, PosInformation<Inf>)>,
    k: int,
    c: int,
    i: int,
)
    requires
        0 <= k < m.voxels@.len(),
        0 <= c < m.voxels@[k].cells@.len(),
        0 <= i < m.voxels@[k].neighbors@.len(),
        entity_requests(m, k, c, b),
    ensures
        covered(m, a + b, k, c, i),
{
    if !m.owns(m.voxels@[k].neighbors@[i] as int) {
        let q = choose|q: int| 0 <= q < b.len() && #[trigger] b[q].1.index_receiver == m.voxels@[k].neighbors@[i];
        assert(request_of(m, k, c, b[q]));
        let j = choose|j: int| #[trigger] request_for(m, k, c, j, b[q].0, b[q].1);
        assert((a + b)[a.len() + q] == b[q]);
    }
}

proof fn lemma_requests_distinct<C: Mechanics + Interaction<Inf>, Inf>(
    m: &MultiVoxelContainer<C>,
    reqs: Seq<(usize, PosInformation<Inf>)>,
    rk: Seq<int>,
    rc: Seq<int>,
)
    requires
        m.wf(),
        rk.len() == reqs.len(),
        rc.len() == reqs.len(),
        forall|q: int| 0 <= q < reqs.len() ==> #[trigger] request_of(m, rk[q], rc[q], reqs[q]),
        forall|q1: int, q2: int| 0 <= q1 < q2 < reqs.len() ==> #[trigger] rk[q1] <= #[trigger] rk[q2],
        forall|q1: int, q2: int| 0 <= q1 < q2 < reqs.len() && rk[q1] == rk[q2] ==> #[trigger] rc[q1] <= #[trigger] rc[q2],
        forall|q1: int, q2: int| 0 <= q1 < q2 < reqs.len() && rk[q1] == rk[q2] && rc[q1] == rc[q2] ==>
            #[trigger] reqs[q1].1.index_receiver != #[trigger] reqs[q2].1.index_receiver,
    ensures
        forall|q1: int, q2: int| 0 <= q1 < q2 < reqs.len() ==> !same_request(#[trigger] reqs[q1].1, #[trigger] reqs[q2].1),
{
    assert forall|q1: int, q2: int| 0 <= q1 < q2 < reqs.len() implies !same_request(#[trigger] reqs[q1].1, #[trigger] reqs[q2].1) by {
        assert(request_of(m, rk[q1], rc[q1], reqs[q1]));
        assert(request_of(m, rk[q2], rc[q2], reqs[q2]));
        let i1 = choose|i: int| #[trigger] request_for(m, rk[q1], rc[q1], i, reqs[q1].0, reqs[q1].1);
        let i2 = choose|i: int| #[trigger] request_for(m, rk[q2], rc[q2], i, reqs[q2].0, reqs[q2].1);
        assert(m.voxels@[rk[q1]].plain_index == m.first_plain() + rk[q1]);
        assert(m.voxels@[rk[q2]].plain_index == m.first_plain() + rk[q2]);
    }
}

/// No voxel lists a neighbor twice.
pub open spec fn neighbors_distinct<C>(vs: Seq<VoxelBox<C>>) -> bool {
    forall|k: int, i: int, j: int| 0 <= k < vs.len() && 0 <= i < j < vs[k].neighbors@.len()
        ==> #[trigger] vs[k].neighbors@[i] != #[trigger] vs[k].neighbors@[j]
}

/// `(k1, c1, i1)` comes before `(k2, c2, i2)` in lexicographic order.
pub open spec fn lex_less(a: (int, int, int), b: (int, int, int)) -> bool {
    a.0 < b.0 || (a.0 == b.0 && (a.1 < b.1 || (a.1 == b.1 && a.2 < b.2)))
}

impl<C: Mechanics> MultiVoxelContainer<C> {
    /// The same voxels with the same entities in the same slots; only their
    /// integrator storage may differ.
    pub open spec fn same_cells(&self, other: &Self) -> bool {
        &&& self.same_voxels(other)
        &&& forall|k: int| 0 <= k < self.voxels@.len() ==> (#[trigger] self.voxels@[k]).cells@.len() == other.voxels@[k].cells@.len()
        &&& forall|k: int, c: int| 0 <= k < self.voxels@.len() && 0 <= c < self.voxels@[k].cells@.len() ==>
            (#[trigger] self.voxels@[k].cells@[c]).0 == other.voxels@[k].cells@[c].0
    }

    /// The first part of the mechanics of a step, before the partitions exchange
    /// forces: accumulates the forces between entities of this partition, within
    /// each voxel and from each neighboring voxel that this partition owns. For
    /// each entity and each neighboring voxel owned elsewhere it returns one
    /// request, with the partition to send it to.
    #[verifier::rlimit(80)]
    pub fn update_mechanics<Inf>(&mut self) -> (r: Result<Vec<(usize, PosInformation<Inf>)>, SimulationError>)
        where
            C: Interaction<Inf>,
        requires
            old(self).wf(),
            forall|k: int, i: int| 0 <= k < old(self).voxels@.len() && 0 <= i < old(self).voxels@[k].neighbors@.len()
                ==> (#[trigger] old(self).voxels@[k].neighbors@[i]) < old(self).domain@.total(),
            neighbors_distinct(old(self).voxels@),
        ensures
            final(self).wf(),
            final(self).same_cells(old(self)),
            r is Ok <==> forall|k: int, c: int| 0 <= k < old(self).voxels@.len() && 0 <= c < old(self).voxels@[k].cells@.len()
                ==> #[trigger] partition_force(old(self), k, c) is Ok,
            r matches Err(e) ==> e is Calc,
            r is Ok ==> forall|k: int, c: int| 0 <= k < old(self).voxels@.len() && 0 <= c < old(self).voxels@[k].cells@.len()
                ==> #[trigger] force_added(old(self), final(self), k, c),
            r matches Ok(reqs) ==> forall|q: int| 0 <= q < reqs@.len() ==> #[trigger] request_in(old(self), reqs@[q]),
            r matches Ok(reqs) ==> forall|k: int, c: int, i: int|
                0 <= k < old(self).voxels@.len() && 0 <= c < old(self).voxels@[k].cells@.len()
                    && 0 <= i < old(self).voxels@[k].neighbors@.len() ==> #[trigger] covered(old(self), reqs@, k, c, i),
            r matches Ok(reqs) ==> forall|q1: int, q2: int| 0 <= q1 < q2 < reqs@.len() ==>
                !same_request(#[trigger] reqs@[q1].1, #[trigger] reqs@[q2].1),
    {
        let ghost o = *self;
        let mut requests: Vec<(usize, PosInformation<Inf>)> = Vec::new();
        let ghost mut rk: Seq<int> = Seq::empty();
        let ghost mut rc: Seq<int> = Seq::empty();
        let mut k: usize = 0;
        while k < self.voxels.len()
            invariant
                o == *old(self),
                o.wf(),
                self.wf(),
                self.same_cells(&o),
                forall|k2: int, i: int| 0 <= k2 < o.voxels@.len() && 0 <= i < o.voxels@[k2].neighbors@.len()
                    ==> (#[trigger] o.voxels@[k2].neighbors@[i]) < o.domain@.total(),
                neighbors_distinct(o.voxels@),
                k <= self.voxels@.len(),
                forall|k2: int, c: int| 0 <= k2 < k && 0 <= c < o.voxels@[k2].cells@.len() ==> #[trigger] force_added(&o, self, k2, c),
                forall|k2: int| k <= k2 < self.voxels@.len() ==> #[trigger] self.voxels@[k2] == o.voxels@[k2],
                forall|k2: int, c: int| 0 <= k2 < k && 0 <= c < o.voxels@[k2].cells@.len() ==> #[trigger] partition_force(&o, k2, c) is Ok,
                rk.len() == requests@.len(),
                rc.len() == requests@.len(),
                forall|q: int| 0 <= q < requests@.len() ==> 0 <= #[trigger] rk[q] < k,
                forall|q: int| 0 <= q < requests@.len() ==> #[trigger] request_of(&o, rk[q], rc[q], requests@[q]),
                forall|q1: int, q2: int| 0 <= q1 < q2 < requests@.len() ==> #[trigger] rk[q1] <= #[trigger] rk[q2],
                forall|q1: int, q2: int| 0 <= q1 < q2 < requests@.len() && rk[q1] == rk[q2] ==> #[trigger] rc[q1] <= #[trigger] rc[q2],
                forall|q1: int, q2: int| 0 <= q1 < q2 < requests@.len() && rk[q1] == rk[q2] && rc[q1] == rc[q2] ==>
                    #[trigger] requests@[q1].1.index_receiver != #[trigger] requests@[q2].1.index_receiver,
                forall|k2: int, c: int, i: int|
                    0 <= k2 < k && 0 <= c < o.voxels@[k2].cells@.len()
                        && 0 <= i < o.voxels@[k2].neighbors@.len() ==> #[trigger] covered(&o, requests@, k2, c, i),
            decreases self.voxels@.len() - k,
        {
            let n_cells = self.voxels[k].cells.len();
            let mut m: usize = 0;
            while m < n_cells
                invariant
                    o == *old(self),
                    o.wf(),
                    self.wf(),
                    self.same_cells(&o),
                    forall|k2: int, i: int| 0 <= k2 < o.voxels@.len() && 0 <= i < o.voxels@[k2].neighbors@.len()
                        ==> (#[trigger] o.voxels@[k2].neighbors@[i]) < o.domain@.total(),
                    neighbors_distinct(o.voxels@),
                    k < self.voxels@.len(),
                    n_cells == o.voxels@[k as int].cells@.len(),
                    m <= n_cells,
                    forall|k2: int, c: int| 0 <= k2 < k && 0 <= c < o.voxels@[k2].cells@.len() ==> #[trigger] force_added(&o, self, k2, c),
                    forall|c: int| 0 <= c < m ==> #[trigger] force_added(&o, self, k as int, c),
                    forall|c: int| m <= c < n_cells ==> #[trigger] self.voxels@[k as int].cells@[c] == o.voxels@[k as int].cells@[c],
                    forall|k2: int| k < k2 < self.voxels@.len() ==> #[trigger] self.voxels@[k2] == o.voxels@[k2],
                    forall|k2: int, c: int| 0 <= k2 < k && 0 <= c < o.voxels@[k2].cells@.len() ==> #[trigger] partition_force(&o, k2, c) is Ok,
                    forall|c: int| 0 <= c < m ==> #[trigger] partition_force(&o, k as int, c) is Ok,
                    rk.len() == requests@.len(),
                    rc.len() == requests@.len(),
                    forall|q: int| 0 <= q < requests@.len() ==> 0 <= #[trigger] rk[q] <= k,
                    forall|q: int| 0 <= q < requests@.len() && rk[q] == k ==> #[trigger] rc[q] < m,
                    forall|q: int| 0 <= q < requests@.len() ==> #[trigger] request_of(&o, rk[q], rc[q], requests@[q]),
                    forall|q1: int, q2: int| 0 <= q1 < q2 < requests@.len() ==> #[trigger] rk[q1] <= #[trigger] rk[q2],
                    forall|q1: int, q2: int| 0 <= q1 < q2 < requests@.len() && rk[q1] == rk[q2] ==> #[trigger] rc[q1] <= #[trigger] rc[q2],
                    forall|q1: int, q2: int| 0 <= q1 < q2 < requests@.len() && rk[q1] == rk[q2] && rc[q1] == rc[q2] ==>
                        #[trigger] requests@[q1].1.index_receiver != #[trigger] requests@[q2].1.index_receiver,
                    forall|k2: int, c: int, i: int|
                        0 <= k2 < k && 0 <= c < o.voxels@[k2].cells@.len()
                            && 0 <= i < o.voxels@[k2].neighbors@.len() ==> #[trigger] covered(&o, requests@, k2, c, i),
                    forall|c: int, i: int| 0 <= c < m && 0 <= i < o.voxels@[k as int].neighbors@.len()
                        ==> #[trigger] covered(&o, requests@, k as int, c, i),
                decreases n_cells - m,
            {
                let ghost before = *self;
                proof {
                    lemma_same_cells_structure(self, &o);
                    lemma_mechanics_force_same(self, &o, k as int, m as int, o.voxels@[k as int].neighbors@.len() as int);
                }
                let res = self.accumulate_entity(k, m);
                proof {
                    lemma_same_cells_trans(self, &before, &o);
                }
                let er = match res {
                    Ok(er) => er,
                    Err(e) => {
                        proof {
                            assert(partition_force(&o, k as int, m as int) is Err);
                        }
                        return Err(e);
                    },
                };
                proof {
                    lemma_entity_requests_same(&before, &o, k as int, m as int, er@);
                    assert(force_added(&o, self, k as int, m as int));
                    assert forall|c: int| 0 <= c < m implies #[trigger] force_added(&o, self, k as int, c) by {
                        assert(force_added(&o, &before, k as int, c));
                        assert(self.voxels@[k as int].cells@[c] == before.voxels@[k as int].cells@[c]);
                    }
                    assert forall|k2: int, c: int| 0 <= k2 < k && 0 <= c < o.voxels@[k2].cells@.len() implies #[trigger] force_added(&o, self, k2, c) by {
                        assert(force_added(&o, &before, k2, c));
                        assert(self.voxels@[k2] == before.voxels@[k2]);
                    }
                }
                let ghost old_reqs = requests@;
                let ghost n_er = er@.len();
                let ghost er_v = er@;
                let mut er_mut = er;
                requests.append(&mut er_mut);
                proof {
                    let er_s = er_v;
                    assert(requests@ == old_reqs + er_s);
                    rk = rk + Seq::new(n_er, |q: int| k as int);
                    rc = rc + Seq::new(n_er, |q: int| m as int);
                    assert forall|q: int| 0 <= q < requests@.len() implies #[trigger] request_of(&o, rk[q], rc[q], requests@[q]) by {
                        if q >= old_reqs.len() {
                            assert(requests@[q] == er_s[q - old_reqs.len()]);
                        } else {
                            assert(requests@[q] == old_reqs[q]);
                        }
                    }
                    assert forall|q1: int, q2: int| 0 <= q1 < q2 < requests@.len() && rk[q1] == rk[q2] && rc[q1] == rc[q2] implies
                        #[trigger] requests@[q1].1.index_receiver != #[trigger] requests@[q2].1.index_receiver by {
                        if q1 >= old_reqs.len() {
                            assert(requests@[q1] == er_s[q1 - old_reqs.len()]);
                            assert(requests@[q2] == er_s[q2 - old_reqs.len()]);
                        } else if q2 < old_reqs.len() {
                            assert(requests@[q1] == old_reqs[q1]);
                            assert(requests@[q2] == old_reqs[q2]);
                        }
                    }
                    assert forall|k2: int, c: int, i: int|
                        0 <= k2 < k && 0 <= c < o.voxels@[k2].cells@.len()
                            && 0 <= i < o.voxels@[k2].neighbors@.len() implies #[trigger] covered(&o, requests@, k2, c, i) by {
                        assert(covered(&o, old_reqs, k2, c, i));
                        lemma_covered_grows(&o, old_reqs, er_s, k2, c, i);
                    }
                    assert forall|c: int, i: int| 0 <= c < m + 1 && 0 <= i < o.voxels@[k as int].neighbors@.len()
                        implies #[trigger] covered(&o, requests@, k as int, c, i) by {
                        if c < m {
                            assert(covered(&o, old_reqs, k as int, c, i));
                            lemma_covered_grows(&o, old_reqs, er_s, k as int, c, i);
                        } else {
                            lemma_covered_new(&o, old_reqs, er_s, k as int, c, i);
                        }
                    }
                }
                m = m + 1;
            }
            k = k + 1;
        }
        proof {
            lemma_requests_distinct(&o, requests@, rk, rc);
            assert forall|q: int| 0 <= q < requests@.len() implies #[trigger] request_in(&o, requests@[q]) by {
                assert(request_of(&o, rk[q], rc[q], requests@[q]));
            }
        }
        Ok(requests)
    }

    /// Adds `f` to the force of the entity in slot `c` of voxel slot `k`.
    fn add_force_at(&mut self, k: usize, c: usize, f: &Vec<i64>) -> (r: Result<(), SimulationError>)
        requires
            old(self).wf(),
            k < old(self).voxels@.len(),
            c < old(self).voxels@[k as int].cells@.len(),
        ensures
            final(self).wf(),
            final(self).same_cells(old(self)),
            forall|k2: int| 0 <= k2 < final(self).voxels@.len() && k2 != k ==> #[trigger] final(self).voxels@[k2] == old(self).voxels@[k2],
            forall|c2: int| 0 <= c2 < final(self).voxels@[k as int].cells@.len() && c2 != c ==>
                #[trigger] final(self).voxels@[k as int].cells@[c2] == old(self).voxels@[k as int].cells@[c2],
            r is Ok <==> checked_sum(old(self).voxels@[k as int].cells@[c as int].1.force@, f@) is Some,
            r is Ok ==> {
                let a = final(self).voxels@[k as int].cells@[c as int].1;
                let b = old(self).voxels@[k as int].cells@[c as int].1;
                &&& a.force@ == checked_sum(b.force@, f@)->Some_0
                &&& a.cycle_event == b.cycle_event
                &&& a.inc_pos_back_1 == b.inc_pos_back_1 && a.inc_pos_back_2 == b.inc_pos_back_2
                &&& a.inc_vel_back_1 == b.inc_vel_back_1 && a.inc_vel_back_2 == b.inc_vel_back_2
            },
            r matches Err(e) ==> e == SimulationError::Calc(CalcError::Overflow),
    {
        let ghost before = self.voxels@;
        let res = self.voxels[k].add_force_to(c, f);
        proof {
            assert(self.voxels@ == before.update(k as int, self.voxels@[k as int]));
            assert forall|kk: int, q: int| 0 <= kk < self.voxels@.len() && 0 <= q < self.voxels@[kk].cells@.len() implies
                (#[trigger] self.voxels@[kk].cells@[q]).0 == before[kk].cells@[q].0 by {
                if kk != k {
                    assert(self.voxels@[kk] == before[kk]);
                }
            }
            assert forall|k2: int| 0 <= k2 < self.voxels@.len() && k2 != k implies #[trigger] self.voxels@[k2] == before[k2] by {}
            let b = before[k as int].cells@[c as int].1;
            if res is Ok {
                let a = self.voxels@[k as int].cells@[c as int].1;
                assert forall|i: int| 0 <= i < b.force@.len() implies i64::MIN <= #[trigger] b.force@[i] + f@[i] <= i64::MAX by {
                    assert(a.force@[i] == b.force@[i] + f@[i]);
                }
                assert(checked_sum(b.force@, f@) is Some);
                assert(a.force@ =~= checked_sum(b.force@, f@)->Some_0);
            } else {
                if checked_sum(b.force@, f@) is Some {
                    assert(b.force@.len() == f@.len());
                    assert forall|i: int| 0 <= i < b.force@.len() implies i64::MIN <= #[trigger] b.force@[i] + f@[i] <= i64::MAX by {}
                }
            }
        }
        res
    }

    /// The forces on the entity in slot `m` of voxel slot `k` from this partition,
    /// added to what it has accumulated, and the requests for the forces from the
    /// neighboring voxels that other partitions own, in the order of the neighbors.
    #[verifier::rlimit(60)]
    fn accumulate_entity<Inf>(&mut self, k: usize, m: usize) -> (r: Result<Vec<(usize, PosInformation<Inf>)>, SimulationError>)
        where
            C: Interaction<Inf>,
        requires
            old(self).wf(),
            k < old(self).voxels@.len(),
            m < old(self).voxels@[k as int].cells@.len(),
            forall|i: int| 0 <= i < old(self).voxels@[k as int].neighbors@.len()
                ==> (#[trigger] old(self).voxels@[k as int].neighbors@[i]) < old(self).domain@.total(),
            neighbors_distinct(old(self).voxels@),
        ensures
            final(self).wf(),
            final(self).same_cells(old(self)),
            forall|k2: int| 0 <= k2 < final(self).voxels@.len() && k2 != k ==> #[trigger] final(self).voxels@[k2] == old(self).voxels@[k2],
            forall|c2: int| 0 <= c2 < final(self).voxels@[k as int].cells@.len() && c2 != m ==>
                #[trigger] final(self).voxels@[k as int].cells@[c2] == old(self).voxels@[k as int].cells@[c2],
            r is Ok <==> partition_force(old(self), k as int, m as int) is Ok,
            r matches Err(e) ==> e is Calc,
            r is Ok ==> {
                let a = final(self).voxels@[k as int].cells@[m as int].1;
                let b = old(self).voxels@[k as int].cells@[m as int].1;
                &&& a.force@ == partition_force(old(self), k as int, m as int)->Ok_0
                &&& a.cycle_event == b.cycle_event
                &&& a.inc_pos_back_1 == b.inc_pos_back_1 && a.inc_pos_back_2 == b.inc_pos_back_2
                &&& a.inc_vel_back_1 == b.inc_vel_back_1 && a.inc_vel_back_2 == b.inc_vel_back_2
            },
            r matches Ok(reqs) ==> entity_requests(old(self), k as int, m as int, reqs@),
    {
        let ghost o = *self;
        let pos = self.voxels[k].cells[m].0.pos();
        let vel = self.voxels[k].cells[m].0.velocity();
        let inf = self.voxels[k].cells[m].0.get_interaction_information();
        let ghost es0 = entities(self.voxels@[k as int].cells@);
        let f = match force_from_voxel(&self.voxels[k], &pos, &vel, &inf, Some(m)) {
            Ok(f) => f,
            Err(e) => {
                proof {
                    lemma_mechanics_force_err(&o, k as int, m as int, 0, o.voxels@[k as int].neighbors@.len() as int);
                }
                return Err(e);
            },
        };
        match self.add_force_at(k, m, &f) {
            Ok(()) => {},
            Err(e) => {
                proof {
                    lemma_mechanics_force_err(&o, k as int, m as int, 0, o.voxels@[k as int].neighbors@.len() as int);
                }
                return Err(e);
            },
        }
        let mut reqs: Vec<(usize, PosInformation<Inf>)> = Vec::new();
        let ghost mut idx: Seq<int> = Seq::empty();
        let n_neighbors = self.voxels[k].neighbors.len();
        let mut i: usize = 0;
        while i < n_neighbors
            invariant
                o == *old(self),
                self.wf(),
                self.same_cells(&o),
                o.wf(),
                k < o.voxels@.len(),
                m < o.voxels@[k as int].cells@.len(),
                n_neighbors == o.voxels@[k as int].neighbors@.len(),
                forall|i2: int| 0 <= i2 < n_neighbors ==> (#[trigger] o.voxels@[k as int].neighbors@[i2]) < o.domain@.total(),
                neighbors_distinct(o.voxels@),
                pos@ == o.voxels@[k as int].cells@[m as int].0.pos_view(),
                vel@ == o.voxels@[k as int].cells@[m as int].0.velocity_view(),
                inf == o.voxels@[k as int].cells@[m as int].0.info_view(),
                i <= n_neighbors,
                forall|k2: int| 0 <= k2 < self.voxels@.len() && k2 != k ==> #[trigger] self.voxels@[k2] == o.voxels@[k2],
                forall|c2: int| 0 <= c2 < self.voxels@[k as int].cells@.len() && c2 != m ==>
                    #[trigger] self.voxels@[k as int].cells@[c2] == o.voxels@[k as int].cells@[c2],
                mechanics_force(&o, k as int, m as int, i as int) == Ok::<Seq<i64>, CalcError>(self.voxels@[k as int].cells@[m as int].1.force@),
                ({
                    let a = self.voxels@[k as int].cells@[m as int].1;
                    let b = o.voxels@[k as int].cells@[m as int].1;
                    &&& a.cycle_event == b.cycle_event
                    &&& a.inc_pos_back_1 == b.inc_pos_back_1 && a.inc_pos_back_2 == b.inc_pos_back_2
                    &&& a.inc_vel_back_1 == b.inc_vel_back_1 && a.inc_vel_back_2 == b.inc_vel_back_2
                }),
                idx.len() == reqs@.len(),
                forall|q: int| 0 <= q < reqs@.len() ==> 0 <= #[trigger] idx[q] < i,
                forall|q1: int, q2: int| 0 <= q1 < q2 < reqs@.len() ==> #[trigger] idx[q1] < #[trigger] idx[q2],
                forall|q: int| 0 <= q < reqs@.len() ==> request_for(&o, k as int, m as int, idx[q], #[trigger] reqs@[q].0, reqs@[q].1),
                forall|i2: int| 0 <= i2 < i && !o.owns(o.voxels@[k as int].neighbors@[i2] as int) ==>
                    exists|q: int| 0 <= q < reqs@.len() && #[trigger] idx[q] == i2,
            decreases n_neighbors - i,
        {
            let p = self.voxels[k].neighbors[i];
            proof {
                lemma_same_cells_structure(self, &o);
            }
            let ghost old_idx = idx;
            let ghost old_reqs = reqs@;
            match self.local_slot(p) {
                Some(q) => {
                    assert(entities(self.voxels@[q as int].cells@) =~= entities(o.voxels@[q as int].cells@));
                    let f = match force_from_voxel(&self.voxels[q], &pos, &vel, &inf, None) {
                        Ok(f) => f,
                        Err(e) => {
                            proof {
                                lemma_mechanics_force_err(&o, k as int, m as int, i as int + 1, n_neighbors as int);
                            }
                            return Err(e);
                        },
                    };
                    let ghost mid = *self;
                    let added = self.add_force_at(k, m, &f);
                    proof {
                        lemma_same_cells_trans(self, &mid, &o);
                    }
                    match added {
                        Ok(()) => {},
                        Err(e) => {
                            proof {
                                lemma_mechanics_force_err(&o, k as int, m as int, i as int + 1, n_neighbors as int);
                            }
                            return Err(e);
                        },
                    }
                },
                None => {
                    let target = owner_of_plain(&self.domain, self.n_subdomains, p as usize);
                    let req = PosInformation {
                        pos: crate::cuboid::copy_coords(&pos),
                        vel: crate::cuboid::copy_coords(&vel),
                        info: self.voxels[k].cells[m].0.get_interaction_information(),
                        count: m,
                        index_sender: self.voxels[k].plain_index,
                        index_receiver: p,
                    };
                    reqs.push((target, req));
                    proof {
                        idx = idx.push(i as int);
                        assert(request_for(&o, k as int, m as int, i as int, reqs@[reqs@.len() - 1].0, reqs@[reqs@.len() - 1].1));
                        assert forall|q: int| 0 <= q < reqs@.len() implies request_for(&o, k as int, m as int, idx[q], #[trigger] reqs@[q].0, reqs@[q].1) by {
                            if q < old_reqs.len() {
                                assert(reqs@[q] == old_reqs[q]);
                            }
                        }
                    }
                },
            }
            proof {
                assert forall|i2: int| 0 <= i2 < i + 1 && !o.owns(o.voxels@[k as int].neighbors@[i2] as int) implies
                    exists|q: int| 0 <= q < reqs@.len() && #[trigger] idx[q] == i2 by {
                    if i2 < i {
                        let q0 = choose|q: int| 0 <= q < old_idx.len() && #[trigger] old_idx[q] == i2;
                        assert(idx[q0] == old_idx[q0]);
                    } else {
                        assert(idx[idx.len() - 1] == i2);
                    }
                }
            }
            i = i + 1;
        }
        proof {
            lemma_entity_requests(&o, k as int, m as int, reqs@, idx);
        }
        proof {
            assert(o == *old(self));
        }
        Ok(reqs)
    }

    /// Advances every entity by one integrator step of length `dt`, with the
    /// increments each entity computes from its accumulated force.
    pub fn update_positions(&mut self, dt: u32) -> (r: Result<(), SimulationError>)
        requires
            old(self).wf(),
        ensures
            final(self).wf(),
            final(self).same_voxels(old(self)),
            r is Ok ==> forall|k: int| 0 <= k < final(self).voxels@.len() ==> (#[trigger] final(self).voxels@[k]).cells@.len() == old(self).voxels@[k].cells@.len(),
            r is Ok ==> forall|k: int, c: int| 0 <= k < final(self).voxels@.len() && 0 <= c < final(self).voxels@[k].cells@.len() ==>
                advanced(old(self).voxels@[k].cells@[c], #[trigger] final(self).voxels@[k].cells@[c], dt as int),
            r is Ok <==> forall|k: int, c: int| 0 <= k < old(self).voxels@.len() && 0 <= c < old(self).voxels@[k].cells@.len() ==>
                step_ok(#[trigger] old(self).voxels@[k].cells@[c], dt as int),
    {
        let mut k: usize = 0;
        while k < self.voxels.len()
            invariant
                self.wf(),
                self.same_voxels(old(self)),
                k <= self.voxels@.len(),
                forall|k2: int| 0 <= k2 < self.voxels@.len() ==> (#[trigger] self.voxels@[k2]).cells@.len() == old(self).voxels@[k2].cells@.len(),
                forall|k2: int, c: int| 0 <= k2 < k && 0 <= c < self.voxels@[k2].cells@.len() ==>
                    advanced(old(self).voxels@[k2].cells@[c], #[trigger] self.voxels@[k2].cells@[c], dt as int),
                forall|k2: int| k <= k2 < self.voxels@.len() ==> (#[trigger] self.voxels@[k2]).cells@ == old(self).voxels@[k2].cells@,
                forall|k2: int, c: int| 0 <= k2 < k && 0 <= c < old(self).voxels@[k2].cells@.len() ==>
                    step_ok(#[trigger] old(self).voxels@[k2].cells@[c], dt as int),
            decreases self.voxels@.len() - k,
        {
            let n_cells = self.voxels[k].cells.len();
            let mut c: usize = 0;
            while c < n_cells
                invariant
                    self.wf(),
                    self.same_voxels(old(self)),
                    k < self.voxels@.len(),
                    n_cells == self.voxels@[k as int].cells@.len(),
                    forall|k2: int| 0 <= k2 < self.voxels@.len() ==> (#[trigger] self.voxels@[k2]).cells@.len() == old(self).voxels@[k2].cells@.len(),
                    forall|k2: int, c2: int| 0 <= k2 < k && 0 <= c2 < self.voxels@[k2].cells@.len() ==>
                        advanced(old(self).voxels@[k2].cells@[c2], #[trigger] self.voxels@[k2].cells@[c2], dt as int),
                    forall|c2: int| 0 <= c2 < c ==>
                        advanced(old(self).voxels@[k as int].cells@[c2], #[trigger] self.voxels@[k as int].cells@[c2], dt as int),
                    forall|c2: int| c <= c2 < n_cells ==> #[trigger] self.voxels@[k as int].cells@[c2] == old(self).voxels@[k as int].cells@[c2],
                    forall|k2: int| k < k2 < self.voxels@.len() ==> (#[trigger] self.voxels@[k2]).cells@ == old(self).voxels@[k2].cells@,
                    forall|k2: int, c2: int| 0 <= k2 < k && 0 <= c2 < old(self).voxels@[k2].cells@.len() ==>
                        step_ok(#[trigger] old(self).voxels@[k2].cells@[c2], dt as int),
                    forall|c2: int| 0 <= c2 < c ==> step_ok(#[trigger] old(self).voxels@[k as int].cells@[c2], dt as int),
                decreases n_cells - c,
            {
                let ghost before = self.voxels@;
                let res = self.step_cell(k, c, dt);
                proof {
                    assert(before[k as int].cells@[c as int] == old(self).voxels@[k as int].cells@[c as int]);
                }
                match res {
                    Ok(()) => {},
                    Err(e) => {
                        return Err(e);
                    },
                }
                c = c + 1;
            }
            k = k + 1;
        }
        Ok(())
    }

    /// One integrator step for the entity in slot `c` of voxel slot `k`.
    fn step_cell(&mut self, k: usize, c: usize, dt: u32) -> (r: Result<(), SimulationError>)
        requires
            old(self).wf(),
            k < old(self).voxels@.len(),
            c < old(self).voxels@[k as int].cells@.len(),
        ensures
            final(self).wf(),
            final(self).same_voxels(old(self)),
            final(self).voxels@.len() == old(self).voxels@.len(),
            forall|k2: int| 0 <= k2 < final(self).voxels@.len() && k2 != k ==> #[trigger] final(self).voxels@[k2] == old(self).voxels@[k2],
            final(self).voxels@[k as int].cells@.len() == old(self).voxels@[k as int].cells@.len(),
            forall|c2: int| 0 <= c2 < old(self).voxels@[k as int].cells@.len() && c2 != c ==>
                #[trigger] final(self).voxels@[k as int].cells@[c2] == old(self).voxels@[k as int].cells@[c2],
            r is Ok ==> advanced(old(self).voxels@[k as int].cells@[c as int], final(self).voxels@[k as int].cells@[c as int], dt as int),
            r is Ok <==> step_ok(old(self).voxels@[k as int].cells@[c as int], dt as int),
            r is Err ==> final(self).voxels@[k as int].cells@[c as int] == old(self).voxels@[k as int].cells@[c as int],
    {
        let ghost before = self.voxels@;
        let (dx, dv) = match self.voxels[k].cells[c].0.calculate_increment(&self.voxels[k].cells[c].1.force) {
            Ok(x) => x,
            Err(e) => {
                return Err(SimulationError::Calc(e));
            },
        };
        let mut pos = self.voxels[k].cells[c].0.pos();
        let mut vel = self.voxels[k].cells[c].0.velocity();
        match integrate_step(&mut pos, &mut vel, &mut self.voxels[k].cells[c].1, dx, dv, dt) {
            Ok(()) => {},
            Err(e) => {
                proof {
                    assert(self.voxels@[k as int].cells@ =~= before[k as int].cells@);
                    assert(self.voxels@[k as int].cells@[c as int] == before[k as int].cells@[c as int]);
                }
                return Err(SimulationError::Calc(e));
            },
        }
        self.voxels[k].cells[c].0.set_position(&pos);
        self.voxels[k].cells[c].0.set_velocity_to(&vel);
        proof {
            assert forall|k2: int| 0 <= k2 < self.voxels@.len() && k2 != k implies #[trigger] self.voxels@[k2] == before[k2] by {}
        }
        Ok(())
    }

    /// Applies the reflective boundary of the whole domain to every entity.
    pub fn apply_boundaries(&mut self, sub: &CartesianSubDomain) -> (r: Result<(), SimulationError>)
        requires
            old(self).wf(),
            sub@.wf(),
        ensures
            final(self).wf(),
            final(self).same_voxels(old(self)),
            r is Ok ==> forall|k: int| 0 <= k < final(self).voxels@.len() ==> (#[trigger] final(self).voxels@[k]).cells@.len() == old(self).voxels@[k].cells@.len(),
            r is Ok ==> forall|k: int, c: int| 0 <= k < final(self).voxels@.len() && 0 <= c < final(self).voxels@[k].cells@.len() ==>
                reflected(sub@, old(self).voxels@[k].cells@[c], #[trigger] final(self).voxels@[k].cells@[c]),
            r is Err ==> exists|k: int, c: int| 0 <= k < old(self).voxels@.len() && 0 <= c < old(self).voxels@[k].cells@.len()
                && !boundary_ok(sub@, #[trigger] old(self).voxels@[k].cells@[c]),
            r matches Err(e) ==> e matches SimulationError::Boundary(_),
    {
        let mut k: usize = 0;
        while k < self.voxels.len()
            invariant
                self.wf(),
                sub@.wf(),
                self.same_voxels(old(self)),
                k <= self.voxels@.len(),
                forall|k2: int| 0 <= k2 < self.voxels@.len() ==> (#[trigger] self.voxels@[k2]).cells@.len() == old(self).voxels@[k2].cells@.len(),
                forall|k2: int, c: int| 0 <= k2 < k && 0 <= c < self.voxels@[k2].cells@.len() ==>
                    reflected(sub@, old(self).voxels@[k2].cells@[c], #[trigger] self.voxels@[k2].cells@[c]),
                forall|k2: int| k <= k2 < self.voxels@.len() ==> (#[trigger] self.voxels@[k2]).cells@ == old(self).voxels@[k2].cells@,
            decreases self.voxels@.len() - k,
        {
            let n_cells = self.voxels[k].cells.len();
            let mut c: usize = 0;
            while c < n_cells
                invariant
                    self.wf(),
                    sub@.wf(),
                    self.same_voxels(old(self)),
                    k < self.voxels@.len(),
                    n_cells == self.voxels@[k as int].cells@.len(),
                    forall|k2: int| 0 <= k2 < self.voxels@.len() ==> (#[trigger] self.voxels@[k2]).cells@.len() == old(self).voxels@[k2].cells@.len(),
                    forall|k2: int, c2: int| 0 <= k2 < k && 0 <= c2 < self.voxels@[k2].cells@.len() ==>
                        reflected(sub@, old(self).voxels@[k2].cells@[c2], #[trigger] self.voxels@[k2].cells@[c2]),
                    forall|c2: int| 0 <= c2 < c ==>
                        reflected(sub@, old(self).voxels@[k as int].cells@[c2], #[trigger] self.voxels@[k as int].cells@[c2]),
                    forall|c2: int| c <= c2 < n_cells ==> #[trigger] self.voxels@[k as int].cells@[c2] == old(self).voxels@[k as int].cells@[c2],
                    forall|k2: int| k < k2 < self.voxels@.len() ==> (#[trigger] self.voxels@[k2]).cells@ == old(self).voxels@[k2].cells@,
                decreases n_cells - c,
            {
                let ghost before = self.voxels@;
                let mut pos = self.voxels[k].cells[c].0.pos();
                let mut vel = self.voxels[k].cells[c].0.velocity();
                let ghost pos_in = pos@;
                let ghost vel_in = vel@;
                match sub.apply_boundary(&mut pos, &mut vel) {
                    Ok(()) => {},
                    Err(e) => {
                        proof {
                            assert(!boundary_ok(sub@, old(self).voxels@[k as int].cells@[c as int]));
                        }
                        return Err(SimulationError::Boundary(e));
                    },
                }
                let ghost pos_start = before[k as int].cells@[c as int].0.pos_view();
                let ghost vel_start = before[k as int].cells@[c as int].0.velocity_view();
                self.voxels[k].cells[c].0.set_position(&pos);
                self.voxels[k].cells[c].0.set_velocity_to(&vel);
                proof {
                    assert forall|k2: int| 0 <= k2 < self.voxels@.len() && k2 != k implies #[trigger] self.voxels@[k2] == before[k2] by {}
                    let nc = self.voxels@[k as int].cells@[c as int];
                    assert(nc.0.pos_view() == pos@);
                    assert(nc.0.velocity_view() == vel@);
                    assert(nc.1 == before[k as int].cells@[c as int].1);
                    assert(old(self).voxels@[k as int].cells@[c as int] == before[k as int].cells@[c as int]);
                    assert forall|i: int| 0 <= i < pos_start.len() implies #[trigger] nc.0.pos_view()[i] as int == sub@.reflect_all(pos_start, vel_start).0[i] by {}
                    assert(pos_in == pos_start && vel_in == vel_start);
                    assert forall|i: int| 0 <= i < pos_start.len() implies #[trigger] nc.0.velocity_view()[i] as int == sub@.reflect_all(pos_start, vel_start).1[i] by {
                        assert(pos@[i] as int == sub@.reflect_all(pos_in, vel_in).0[i]);
                        assert(vel@[i] as int == sub@.reflect_all(pos_in, vel_in).1[i]);
                    }
                    assert(reflected(sub@, old(self).voxels@[k as int].cells@[c as int], nc));
                }
                c = c + 1;
            }
            k = k + 1;
        }
        Ok(())
    }
}

/// The custom force of `field` on the entity can be added to what it has
/// accumulated.
pub open spec fn custom_ok<C: Mechanics, F: crate::domain::SubDomainForce>(field: F, cell: (CellAgentBox<C>, AuxiliaryCellPropertyStorage)) -> bool {
    match field.custom_force_view(cell.0.pos_view(), cell.0.velocity_view()) {
        Ok(f) => checked_sum(cell.1.force@, f) is Some,
        Err(_) => false,
    }
}

/// `new` is `old` with the custom force of `field` added to its accumulated force.
pub open spec fn custom_added<C: Mechanics, F: crate::domain::SubDomainForce>(
    field: F,
    old_cell: (CellAgentBox<C>, AuxiliaryCellPropertyStorage),
    new_cell: (CellAgentBox<C>, AuxiliaryCellPropertyStorage),
) -> bool {
    let a = new_cell.1;
    let b = old_cell.1;
    &&& new_cell.0 == old_cell.0
    &&& field.custom_force_view(old_cell.0.pos_view(), old_cell.0.velocity_view()) matches Ok(f)
    &&& checked_sum(b.force@, f) matches Some(t) && a.force@ == t
    &&& a.cycle_event == b.cycle_event
    &&& a.inc_pos_back_1 == b.inc_pos_back_1 && a.inc_pos_back_2 == b.inc_pos_back_2
    &&& a.inc_vel_back_1 == b.inc_vel_back_1 && a.inc_vel_back_2 == b.inc_vel_back_2
}

impl<C: Mechanics> MultiVoxelContainer<C> {
    /// Adds the force that the partition itself exerts (a field gradient, a
    /// drag) to every entity.
    pub fn apply_custom_force<F: crate::domain::SubDomainForce>(&mut self, field: &F) -> (r: Result<(), SimulationError>)
        requires
            old(self).wf(),
        ensures
            final(self).wf(),
            final(self).same_cells(old(self)),
            r is Ok <==> forall|k: int, c: int| 0 <= k < old(self).voxels@.len() && 0 <= c < old(self).voxels@[k].cells@.len() ==>
                custom_ok(*field, #[trigger] old(self).voxels@[k].cells@[c]),
            r is Ok ==> forall|k: int, c: int| 0 <= k < old(self).voxels@.len() && 0 <= c < old(self).voxels@[k].cells@.len() ==>
                custom_added(*field, old(self).voxels@[k].cells@[c], #[trigger] final(self).voxels@[k].cells@[c]),
            r matches Err(e) ==> e is Calc,
    {
        let mut k: usize = 0;
        while k < self.voxels.len()
            invariant
                self.wf(),
                self.same_cells(old(self)),
                k <= self.voxels@.len(),
                forall|k2: int, c: int| 0 <= k2 < k && 0 <= c < old(self).voxels@[k2].cells@.len() ==>
                    custom_ok(*field, #[trigger] old(self).voxels@[k2].cells@[c]),
                forall|k2: int, c: int| 0 <= k2 < k && 0 <= c < old(self).voxels@[k2].cells@.len() ==>
                    custom_added(*field, old(self).voxels@[k2].cells@[c], #[trigger] self.voxels@[k2].cells@[c]),
                forall|k2: int| k <= k2 < self.voxels@.len() ==> #[trigger] self.voxels@[k2] == old(self).voxels@[k2],
            decreases self.voxels@.len() - k,
        {
            let n_cells = self.voxels[k].cells.len();
            let mut c: usize = 0;
            while c < n_cells
                invariant
                    self.wf(),
                    self.same_cells(old(self)),
                    k < self.voxels@.len(),
                    n_cells == old(self).voxels@[k as int].cells@.len(),
                    c <= n_cells,
                    forall|k2: int, c2: int| 0 <= k2 < k && 0 <= c2 < old(self).voxels@[k2].cells@.len() ==>
                        custom_ok(*field, #[trigger] old(self).voxels@[k2].cells@[c2]),
                    forall|k2: int, c2: int| 0 <= k2 < k && 0 <= c2 < old(self).voxels@[k2].cells@.len() ==>
                        custom_added(*field, old(self).voxels@[k2].cells@[c2], #[trigger] self.voxels@[k2].cells@[c2]),
                    forall|c2: int| 0 <= c2 < c ==> custom_ok(*field, #[trigger] old(self).voxels@[k as int].cells@[c2]),
                    forall|c2: int| 0 <= c2 < c ==>
                        custom_added(*field, old(self).voxels@[k as int].cells@[c2], #[trigger] self.voxels@[k as int].cells@[c2]),
                    forall|c2: int| c <= c2 < n_cells ==> #[trigger] self.voxels@[k as int].cells@[c2] == old(self).voxels@[k as int].cells@[c2],
                    forall|k2: int| k < k2 < self.voxels@.len() ==> #[trigger] self.voxels@[k2] == old(self).voxels@[k2],
                decreases n_cells - c,
            {
                let ghost before = *self;
                let pos = self.voxels[k].cells[c].0.pos();
                let vel = self.voxels[k].cells[c].0.velocity();
                let f = match field.calculate_custom_force(&pos, &vel) {
                    Ok(f) => f,
                    Err(e) => {
                        proof {
                            assert(!custom_ok(*field, old(self).voxels@[k as int].cells@[c as int]));
                        }
                        return Err(SimulationError::Calc(e));
                    },
                };
                let res = self.add_force_at(k, c, &f);
                proof {
                    lemma_same_cells_trans(self, &before, old(self));
                    assert(before.voxels@[k as int].cells@[c as int] == old(self).voxels@[k as int].cells@[c as int]);
                }
                match res {
                    Ok(()) => {},
                    Err(e) => {
                        proof {
                            assert(!custom_ok(*field, old(self).voxels@[k as int].cells@[c as int]));
                        }
                        return Err(e);
                    },
                }
                proof {
                    assert(custom_added(*field, old(self).voxels@[k as int].cells@[c as int], self.voxels@[k as int].cells@[c as int]));
                    assert forall|k2: int, c2: int| 0 <= k2 < k && 0 <= c2 < old(self).voxels@[k2].cells@.len() implies
                        custom_added(*field, old(self).voxels@[k2].cells@[c2], #[trigger] self.voxels@[k2].cells@[c2]) by {
                        assert(self.voxels@[k2] == before.voxels@[k2]);
                    }
                    assert forall|c2: int| 0 <= c2 < c implies
                        custom_added(*field, old(self).voxels@[k as int].cells@[c2], #[trigger] self.voxels@[k as int].cells@[c2]) by {
                        assert(self.voxels@[k as int].cells@[c2] == before.voxels@[k as int].cells@[c2]);
                    }
                }
                c = c + 1;
            }
            k = k + 1;
        }
        Ok(())
    }
}

proof fn lemma_same_cells_trans<C: Mechanics>(a: &MultiVoxelContainer<C>, b: &MultiVoxelContainer<C>, c: &MultiVoxelContainer<C>)
    requires
        a.same_cells(b),
        b.same_cells(c),
    ensures
        a.same_cells(c),
{
    assert forall|k: int, q: int| 0 <= k < a.voxels@.len() && 0 <= q < a.voxels@[k].cells@.len() implies
        (#[trigger] a.voxels@[k].cells@[q]).0 == c.voxels@[k].cells@[q].0 by {
        assert(a.voxels@[k].cells@[q].0 == b.voxels@[k].cells@[q].0);
    }
}

proof fn lemma_same_cells_structure<C: Mechanics>(a: &MultiVoxelContainer<C>, b: &MultiVoxelContainer<C>)
    requires
        a.same_cells(b),
    ensures
        forall|x: int| a.owns(x) <==> b.owns(x),
        a.first_plain() == b.first_plain(),
        a.domain@ == b.domain@,
        forall|k: int| 0 <= k < a.voxels@.len() ==> (#[trigger] a.voxels@[k]).cells@.len() == b.voxels@[k].cells@.len(),
{
}

} // verus!
