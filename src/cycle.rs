//! Growth and division of the entities of a voxel, and identifiers for the new ones.
use vstd::prelude::*;
use crate::cell::{CellAgentBox, CellularIdentifier, Cycle, CycleEvent, Id, Mechanics};
use crate::errors::CalcError;
use crate::integrator::AuxiliaryCellPropertyStorage;
use crate::runtime::{MultiVoxelContainer, SimulationError, VoxelBox};

verus! {

/// The number of entities among `cells` that asked to divide.
pub open spec fn flagged_count<C>(cells: Seq<(CellAgentBox<C>, AuxiliaryCellPropertyStorage)>) -> int
    decreases cells.len(),
{
    if cells.len() == 0 {
        0
    } else {
        flagged_count(cells.drop_last()) + if cells.last().1.cycle_event { 1int } else { 0int }
    }
}

proof fn lemma_flagged_count_step<C>(cells: Seq<(CellAgentBox<C>, AuxiliaryCellPropertyStorage)>, c: int)
    requires
        0 <= c < cells.len(),
    ensures
        flagged_count(cells.take(c + 1)) == flagged_count(cells.take(c)) + if cells[c].1.cycle_event { 1int } else { 0int },
{
    assert(cells.take(c + 1).drop_last() =~= cells.take(c));
}

proof fn lemma_flagged_count_mono<C>(cells: Seq<(CellAgentBox<C>, AuxiliaryCellPropertyStorage)>, c: int)
    requires
        0 <= c <= cells.len(),
    ensures
        flagged_count(cells.take(c)) <= flagged_count(cells),
    decreases cells.len() - c,
{
    if c < cells.len() {
        lemma_flagged_count_mono(cells, c + 1);
        lemma_flagged_count_step(cells, c);
    } else {
        assert(cells.take(c) =~= cells);
    }
}

/// Integrator storage as a new entity gets it: no force, no history, no request
/// to divide.
pub open spec fn fresh_storage(a: AuxiliaryCellPropertyStorage, dim: nat) -> bool {
    &&& a.force@ == crate::integrator::zero_vector(dim)
    &&& !a.cycle_event
    &&& a.inc_pos_back_1 is None && a.inc_pos_back_2 is None
    &&& a.inc_vel_back_1 is None && a.inc_vel_back_2 is None
}

/// `p` names an entity of `vox` that had asked to divide.
pub open spec fn flagged_parent<C>(vox: VoxelBox<C>, p: Option<CellularIdentifier>) -> bool {
    exists|c: int| 0 <= c < vox.cells@.len() && (#[trigger] vox.cells@[c]).1.cycle_event && p == Some(vox.cells@[c].0.id_view())
}

/// `new` is `old` after a successful intrinsic update: the old entities keep their
/// identifiers, forces and history; at most one new entity per entity that had
/// asked to divide is appended, with a flagged parent, the next identifiers of the
/// voxel and fresh integrator storage.
pub open spec fn local_update<C>(old: VoxelBox<C>, new: VoxelBox<C>) -> bool {
    let n = old.cells@.len();
    let added = new.cells@.len() - n;
    let dim: nat = if n > 0 { old.cells@[0].1.force@.len() } else { 0 };
    &&& new.plain_index == old.plain_index
    &&& new.index == old.index
    &&& new.neighbors == old.neighbors
    &&& 0 <= added <= flagged_count(old.cells@)
    &&& new.uuid_counter == old.uuid_counter + added
    &&& forall|c: int| 0 <= c < n ==> {
        &&& (#[trigger] new.cells@[c]).0.id_view() == old.cells@[c].0.id_view()
        &&& new.cells@[c].1.force == old.cells@[c].1.force
        &&& new.cells@[c].1.inc_pos_back_1 == old.cells@[c].1.inc_pos_back_1
        &&& new.cells@[c].1.inc_pos_back_2 == old.cells@[c].1.inc_pos_back_2
        &&& new.cells@[c].1.inc_vel_back_1 == old.cells@[c].1.inc_vel_back_1
        &&& new.cells@[c].1.inc_vel_back_2 == old.cells@[c].1.inc_vel_back_2
    }
    &&& forall|c: int| n <= c < new.cells@.len() ==> {
        &&& (#[trigger] new.cells@[c]).0.id_view() == (old.plain_index, (old.uuid_counter + (c - n) + 1) as u64)
        &&& flagged_parent(old, new.cells@[c].0.parent_view())
        &&& fresh_storage(new.cells@[c].1, dim)
    }
    &&& new.new_cells@.len() == 0
}

/// No entity of `vox` has asked to divide.
pub open spec fn none_flagged<C>(vox: VoxelBox<C>) -> bool {
    forall|c: int| 0 <= c < vox.cells@.len() ==> !(#[trigger] vox.cells@[c]).1.cycle_event
}

impl<C: Mechanics + Cycle> VoxelBox<C> {
    /// Runs the intrinsic update of every entity of the voxel.
    ///
    /// An entity that asked to divide in the previous step divides now; every
    /// entity then advances its cycle, which sets its request to divide for the
    /// next step. The new entities are appended after the existing ones, each
    /// numbered by this voxel's dense index and the next value of its counter, with
    /// the dividing entity as parent and fresh integrator storage.
    pub fn update_local_functions(&mut self, dt: u32) -> (r: Result<(), SimulationError>)
        ensures
            final(self).plain_index == old(self).plain_index,
            final(self).index == old(self).index,
            final(self).neighbors == old(self).neighbors,
            none_flagged(*old(self)) ==> r is Ok,
            r is Ok ==> local_update(*old(self), *final(self)),
            r matches Err(e) ==> e is Calc,
    {
        let ghost o = *self;
        let n_cells = self.cells.len();
        let mut born: Vec<(C, CellularIdentifier)> = Vec::new();
        let mut c: usize = 0;
        while c < n_cells
            invariant
                o == *old(self),
                n_cells == o.cells@.len(),
                self.cells@.len() == n_cells,
                c <= n_cells,
                self.plain_index == o.plain_index,
                self.index == o.index,
                self.neighbors == o.neighbors,
                self.uuid_counter == o.uuid_counter,
                forall|q: int| 0 <= q < n_cells ==> {
                    &&& (#[trigger] self.cells@[q]).0.id_view() == o.cells@[q].0.id_view()
                    &&& self.cells@[q].1.force == o.cells@[q].1.force
                    &&& self.cells@[q].1.inc_pos_back_1 == o.cells@[q].1.inc_pos_back_1
                    &&& self.cells@[q].1.inc_pos_back_2 == o.cells@[q].1.inc_pos_back_2
                    &&& self.cells@[q].1.inc_vel_back_1 == o.cells@[q].1.inc_vel_back_1
                    &&& self.cells@[q].1.inc_vel_back_2 == o.cells@[q].1.inc_vel_back_2
                },
                forall|q: int| c <= q < n_cells ==> (#[trigger] self.cells@[q]).1.cycle_event == o.cells@[q].1.cycle_event,
                born@.len() <= flagged_count(o.cells@.take(c as int)),
                forall|q: int| 0 <= q < born@.len() ==> flagged_parent(o, Some((#[trigger] born@[q]).1)),
            decreases n_cells - c,
        {
            let ghost before = self.cells@;
            let ghost born_before = born@;
            proof {
                lemma_flagged_count_step(o.cells@, c as int);
            }
            if self.cells[c].1.cycle_event {
                let parent = self.cells[c].0.get_id();
                match self.cells[c].0.divide_with(&mut self.rng) {
                    Ok(Some(daughter)) => {
                        born.push((daughter, parent));
                        proof {
                            assert(o.cells@[c as int].1.cycle_event);
                            assert(flagged_parent(o, Some(parent)));
                            assert forall|q: int| 0 <= q < born@.len() implies flagged_parent(o, Some((#[trigger] born@[q]).1)) by {
                                if q < born_before.len() {
                                    assert(born@[q] == born_before[q]);
                                }
                            }
                        }
                    },
                    Ok(None) => {},
                    Err(e) => {
                        proof {
                            assert(!none_flagged(o)) by {
                                assert(o.cells@[c as int].1.cycle_event);
                            }
                        }
                        return Err(SimulationError::Calc(e));
                    },
                }
            }
            self.cells[c].1.cycle_event = false;
            if let Some(CycleEvent::Division) = self.cells[c].0.update_cycle_with(&mut self.rng, dt) {
                self.cells[c].1.cycle_event = true;
            }
            proof {
                assert forall|q: int| 0 <= q < n_cells && q != c implies #[trigger] self.cells@[q] == before[q] by {}
            }
            c = c + 1;
        }
        proof {
            assert(o.cells@.take(n_cells as int) =~= o.cells@);
        }
        // Give the new entities their identifiers.
        let dim = if n_cells > 0 { self.cells[0].1.force.len() } else { 0 };
        let ghost born_all = born@;
        let mut rest = crate::runtime::reversed(born);
        let ghost mut k: int = 0;
        while rest.len() > 0
            invariant
                o == *old(self),
                n_cells == o.cells@.len(),
                dim as nat == if n_cells > 0 { o.cells@[0].1.force@.len() } else { 0 },
                k >= 0,
                k + rest@.len() == born_all.len(),
                born_all.len() <= flagged_count(o.cells@),
                forall|q: int| 0 <= q < rest@.len() ==> flagged_parent(o, Some((#[trigger] rest@[q]).1)),
                self.cells@.len() == n_cells + k,
                self.plain_index == o.plain_index,
                self.index == o.index,
                self.neighbors == o.neighbors,
                self.uuid_counter == o.uuid_counter + k,
                forall|q: int| 0 <= q < n_cells ==> {
                    &&& (#[trigger] self.cells@[q]).0.id_view() == o.cells@[q].0.id_view()
                    &&& self.cells@[q].1.force == o.cells@[q].1.force
                    &&& self.cells@[q].1.inc_pos_back_1 == o.cells@[q].1.inc_pos_back_1
                    &&& self.cells@[q].1.inc_pos_back_2 == o.cells@[q].1.inc_pos_back_2
                    &&& self.cells@[q].1.inc_vel_back_1 == o.cells@[q].1.inc_vel_back_1
                    &&& self.cells@[q].1.inc_vel_back_2 == o.cells@[q].1.inc_vel_back_2
                },
                forall|q: int| n_cells <= q < self.cells@.len() ==> {
                    &&& (#[trigger] self.cells@[q]).0.id_view() == (o.plain_index, (o.uuid_counter + (q - n_cells) + 1) as u64)
                    &&& flagged_parent(o, self.cells@[q].0.parent_view())
                    &&& fresh_storage(self.cells@[q].1, dim as nat)
                },
            decreases rest.len(),
        {
            let ghost rest_before = rest@;
            let (daughter, parent) = rest.pop().unwrap();
            proof {
                assert(flagged_parent(o, Some(rest_before[rest_before.len() - 1].1)));
            }
            if self.uuid_counter == u64::MAX {
                return Err(SimulationError::Calc(CalcError::Overflow));
            }
            self.uuid_counter = self.uuid_counter + 1;
            let boxed = CellAgentBox::new(self.plain_index, self.uuid_counter, daughter, Some(parent));
            let ghost before = self.cells@;
            self.cells.push((boxed, AuxiliaryCellPropertyStorage::new(dim)));
            proof {
                k = k + 1;
                assert forall|q: int| 0 <= q < before.len() implies #[trigger] self.cells@[q] == before[q] by {}
                assert(self.cells@[before.len() as int].0.id_view() == (o.plain_index, (o.uuid_counter + k) as u64));
                assert forall|q: int| 0 <= q < rest@.len() implies flagged_parent(o, Some((#[trigger] rest@[q]).1)) by {
                    assert(rest@[q] == rest_before[q]);
                }
            }
        }
        self.new_cells = Vec::new();
        proof {
            assert(self.cells@.len() - o.cells@.len() == k);
        }
        Ok(())
    }
}

impl<C: Mechanics + Cycle> MultiVoxelContainer<C> {
    /// Runs the intrinsic update of every voxel of this partition.
    pub fn update_local_functions(&mut self, dt: u32) -> (r: Result<(), SimulationError>)
        requires
            old(self).wf(),
        ensures
            final(self).wf(),
            final(self).same_voxels(old(self)),
            (forall|k: int| 0 <= k < old(self).voxels@.len() ==> none_flagged(#[trigger] old(self).voxels@[k])) ==> r is Ok,
            r is Ok ==> forall|k: int| 0 <= k < old(self).voxels@.len() ==>
                local_update(#[trigger] old(self).voxels@[k], final(self).voxels@[k]),
            r matches Err(e) ==> e is Calc,
    {
        let mut k: usize = 0;
        while k < self.voxels.len()
            invariant
                self.wf(),
                self.same_voxels(old(self)),
                k <= self.voxels@.len(),
                forall|q: int| 0 <= q < k ==> local_update(#[trigger] old(self).voxels@[q], self.voxels@[q]),
                forall|q: int| k <= q < self.voxels@.len() ==> #[trigger] self.voxels@[q] == old(self).voxels@[q],
            decreases self.voxels@.len() - k,
        {
            let ghost before = self.voxels@;
            let res = self.voxels[k].update_local_functions(dt);
            proof {
                assert forall|q: int| 0 <= q < self.voxels@.len() && q != k implies #[trigger] self.voxels@[q] == before[q] by {}
                assert(before[k as int] == old(self).voxels@[k as int]);
            }
            match res {
                Ok(()) => {},
                Err(e) => {
                    proof {
                        assert(!none_flagged(old(self).voxels@[k as int]));
                    }
                    return Err(e);
                },
            }
            k = k + 1;
        }
        Ok(())
    }
}

} // verus!
