//! Entities and the capabilities the engine needs from them.
use vstd::prelude::*;
use crate::errors::CalcError;

verus! {

/// A unique identifier of an entity that does not depend on how threads interleave:
/// the dense index of the voxel it was created in, and how many entities that voxel
/// had created before.
pub type CellularIdentifier = (u64, u64);

/// Access to the identifier of an entity.
pub trait Id {
    spec fn id_view(&self) -> CellularIdentifier;

    /// The identifier of the entity.
    fn get_id(&self) -> (r: CellularIdentifier)
        ensures
            r == self.id_view();
}

/// Position and velocity of an entity on the integer lattice, and how they change.
pub trait Mechanics {
    spec fn pos_view(&self) -> Seq<i64>;

    spec fn velocity_view(&self) -> Seq<i64>;

    /// The current position.
    fn pos(&self) -> (r: Vec<i64>)
        ensures
            r@ == self.pos_view();

    /// The current velocity.
    fn velocity(&self) -> (r: Vec<i64>)
        ensures
            r@ == self.velocity_view();

    /// Moves the entity to `pos`.
    fn set_pos(&mut self, pos: &Vec<i64>)
        ensures
            final(self).pos_view() == pos@,
            final(self).velocity_view() == old(self).velocity_view();

    /// Sets the velocity of the entity.
    fn set_velocity(&mut self, velocity: &Vec<i64>)
        ensures
            final(self).velocity_view() == velocity@,
            final(self).pos_view() == old(self).pos_view();

    /// The increments of position and velocity per unit of time under `force`.
    spec fn increment_view(&self, force: Seq<i64>) -> Result<(Seq<i64>, Seq<i64>), CalcError>;

    /// The increments of position and velocity per unit of time under `force`.
    fn calculate_increment(&self, force: &Vec<i64>) -> (r: Result<(Vec<i64>, Vec<i64>), CalcError>)
        ensures
            increment_result_view(r) == self.increment_view(force@);
}

/// The view of a computed pair of increments.
pub open spec fn increment_result_view(r: Result<(Vec<i64>, Vec<i64>), CalcError>) -> Result<(Seq<i64>, Seq<i64>), CalcError> {
    match r {
        Ok((a, b)) => Ok((a@, b@)),
        Err(e) => Err(e),
    }
}

/// The view of a computed force.
pub open spec fn force_result_view(r: Option<Result<Vec<i64>, CalcError>>) -> Option<Result<Seq<i64>, CalcError>> {
    match r {
        None => None,
        Some(Ok(f)) => Some(Ok(f@)),
        Some(Err(e)) => Some(Err(e)),
    }
}

/// The force between two entities, computed by the entity that feels it.
pub trait Interaction<Inf> {
    /// What another entity needs to know of this one to compute a force.
    spec fn info_view(&self) -> Inf;

    /// The force this entity, at `own_pos`, exerts on another at `ext_pos`; `None`
    /// when the two are out of each other's range.
    spec fn force_view(&self, own_pos: Seq<i64>, own_vel: Seq<i64>, ext_pos: Seq<i64>, ext_vel: Seq<i64>, ext_info: Inf)
        -> Option<Result<Seq<i64>, CalcError>>;

    /// What another entity needs to know of this one to compute a force.
    fn get_interaction_information(&self) -> (r: Inf)
        ensures
            r == self.info_view();

    /// The force this entity, at `own_pos`, exerts on another at `ext_pos`; `None`
    /// when the two are out of each other's range.
    fn calculate_force_between(
        &self,
        own_pos: &Vec<i64>,
        own_vel: &Vec<i64>,
        ext_pos: &Vec<i64>,
        ext_vel: &Vec<i64>,
        ext_info: &Inf,
    ) -> (r: Option<Result<Vec<i64>, CalcError>>)
        ensures
            force_result_view(r) == self.force_view(own_pos@, own_vel@, ext_pos@, ext_vel@, *ext_info);
}

/// An event in the life of an entity.
#[derive(Clone, Copy, Debug, PartialEq, Eq, Structural)]
pub enum CycleEvent {
    Division,
}

/// How an entity grows and divides, drawing on its voxel's random generator.
pub trait Cycle: Sized {
    /// Advances the entity's intrinsic state by `dt`; `Some` when it asks to divide.
    fn update_cycle(rng: &mut rand_chacha::ChaCha8Rng, dt: u32, cell: &mut Self) -> Option<CycleEvent>;

    /// Divides the entity: it becomes one daughter and the other is returned.
    fn divide(rng: &mut rand_chacha::ChaCha8Rng, cell: &mut Self) -> Result<Option<Self>, CalcError>;
}

/// Everything the engine asks of an entity.
pub trait Agent<Inf>: Mechanics + Interaction<Inf> + Cycle {}

/// An entity together with its identifier and the identifier of its parent.
#[derive(Debug)]
pub struct CellAgentBox<Cel> {
    id: CellularIdentifier,
    parent_id: Option<CellularIdentifier>,
    /// The entity itself.
    pub cell: Cel,
}

impl<Cel> CellAgentBox<Cel> {
    pub closed spec fn parent_view(&self) -> Option<CellularIdentifier> {
        self.parent_id
    }

    /// The wrapped entity.
    pub closed spec fn inner(&self) -> Cel {
        self.cell
    }

    /// Wraps `cell`, created in the voxel with dense index `voxel_index` as the
    /// `n_cell`-th entity of that voxel.
    pub fn new(voxel_index: u64, n_cell: u64, cell: Cel, parent_id: Option<CellularIdentifier>) -> (r: Self)
        ensures
            r.id_view() == (voxel_index, n_cell),
            r.parent_view() == parent_id,
            r.inner() == cell,
    {
        CellAgentBox { id: (voxel_index, n_cell), parent_id, cell }
    }

    /// Moves the entity to `pos`; its identifiers and velocity stay.
    pub fn set_position(&mut self, pos: &Vec<i64>)
        where
            Cel: Mechanics,
        ensures
            final(self).pos_view() == pos@,
            final(self).velocity_view() == old(self).velocity_view(),
            final(self).id_view() == old(self).id_view(),
            final(self).parent_view() == old(self).parent_view(),
    {
        self.cell.set_pos(pos);
    }

    /// Sets the velocity of the entity; its identifiers and position stay.
    pub fn set_velocity_to(&mut self, vel: &Vec<i64>)
        where
            Cel: Mechanics,
        ensures
            final(self).velocity_view() == vel@,
            final(self).pos_view() == old(self).pos_view(),
            final(self).id_view() == old(self).id_view(),
            final(self).parent_view() == old(self).parent_view(),
    {
        self.cell.set_velocity(vel);
    }

    /// Advances the entity's cycle; its identifiers stay.
    pub fn update_cycle_with(&mut self, rng: &mut rand_chacha::ChaCha8Rng, dt: u32) -> (r: Option<CycleEvent>)
        where
            Cel: Cycle,
        ensures
            final(self).id_view() == old(self).id_view(),
            final(self).parent_view() == old(self).parent_view(),
    {
        Cel::update_cycle(rng, dt, &mut self.cell)
    }

    /// Divides the entity; its identifiers stay, the daughter is returned.
    pub fn divide_with(&mut self, rng: &mut rand_chacha::ChaCha8Rng) -> (r: Result<Option<Cel>, CalcError>)
        where
            Cel: Cycle,
        ensures
            final(self).id_view() == old(self).id_view(),
            final(self).parent_view() == old(self).parent_view(),
    {
        Cel::divide(rng, &mut self.cell)
    }

    /// The identifier of the parent entity, if there is one.
    pub fn get_parent_id(&self) -> (r: Option<CellularIdentifier>)
        ensures
            r == self.parent_view(),
    {
        self.parent_id
    }
}

impl<Cel> Id for CellAgentBox<Cel> {
    closed spec fn id_view(&self) -> CellularIdentifier {
        self.id
    }

    fn get_id(&self) -> (r: CellularIdentifier) {
        self.id
    }
}

impl<Cel: Mechanics> Mechanics for CellAgentBox<Cel> {
    open spec fn pos_view(&self) -> Seq<i64> {
        self.inner().pos_view()
    }

    open spec fn velocity_view(&self) -> Seq<i64> {
        self.inner().velocity_view()
    }

    fn pos(&self) -> (r: Vec<i64>) {
        self.cell.pos()
    }

    fn velocity(&self) -> (r: Vec<i64>) {
        self.cell.velocity()
    }

    fn set_pos(&mut self, pos: &Vec<i64>) {
        self.cell.set_pos(pos);
    }

    fn set_velocity(&mut self, velocity: &Vec<i64>) {
        self.cell.set_velocity(velocity);
    }

    open spec fn increment_view(&self, force: Seq<i64>) -> Result<(Seq<i64>, Seq<i64>), CalcError> {
        self.inner().increment_view(force)
    }

    fn calculate_increment(&self, force: &Vec<i64>) -> (r: Result<(Vec<i64>, Vec<i64>), CalcError>) {
        self.cell.calculate_increment(force)
    }
}

impl<Inf, Cel: Interaction<Inf>> Interaction<Inf> for CellAgentBox<Cel> {
    open spec fn info_view(&self) -> Inf {
        self.inner().info_view()
    }

    open spec fn force_view(&self, own_pos: Seq<i64>, own_vel: Seq<i64>, ext_pos: Seq<i64>, ext_vel: Seq<i64>, ext_info: Inf)
        -> Option<Result<Seq<i64>, CalcError>> {
        self.inner().force_view(own_pos, own_vel, ext_pos, ext_vel, ext_info)
    }

    fn get_interaction_information(&self) -> (r: Inf) {
        self.cell.get_interaction_information()
    }

    fn calculate_force_between(
        &self,
        own_pos: &Vec<i64>,
        own_vel: &Vec<i64>,
        ext_pos: &Vec<i64>,
        ext_vel: &Vec<i64>,
        ext_info: &Inf,
    ) -> (r: Option<Result<Vec<i64>, CalcError>>) {
        self.cell.calculate_force_between(own_pos, own_vel, ext_pos, ext_vel, ext_info)
    }
}

} // verus!
