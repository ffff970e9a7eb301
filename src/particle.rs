//! A simple entity on the integer lattice: a point with a velocity that pushes
//! nearby points away, ages, and divides at a fixed age.
use vstd::prelude::*;
use crate::cell::{Agent, Cycle, CycleEvent, Interaction, Mechanics};
use crate::cuboid::copy_coords;
use crate::errors::CalcError;

verus! {

/// A point entity.
#[derive(Clone, Debug)]
pub struct Particle {
    pub pos: Vec<i64>,
    pub vel: Vec<i64>,
    /// Other particles closer than this along every axis are pushed away.
    pub interaction_range: i64,
    /// Steps lived since creation or the last division.
    pub age: u32,
    /// The age at which the particle asks to divide; zero never divides.
    pub division_age: u32,
}

/// The sign of `x`: -1, 0 or 1.
pub open spec fn sign(x: int) -> int {
    if x > 0 { 1 } else if x < 0 { -1 } else { 0 }
}

/// `ext` lies closer than `range` to `own` along every axis.
pub open spec fn within_range(own: Seq<i64>, ext: Seq<i64>, range: int) -> bool {
    &&& own.len() == ext.len()
    &&& forall|i: int| 0 <= i < own.len() ==> -range < #[trigger] own[i] - ext[i] < range
}

impl Mechanics for Particle {
    open spec fn pos_view(&self) -> Seq<i64> {
        self.pos@
    }

    open spec fn velocity_view(&self) -> Seq<i64> {
        self.vel@
    }

    fn pos(&self) -> (r: Vec<i64>) {
        copy_coords(&self.pos)
    }

    fn velocity(&self) -> (r: Vec<i64>) {
        copy_coords(&self.vel)
    }

    fn set_pos(&mut self, pos: &Vec<i64>) {
        self.pos = copy_coords(pos);
    }

    fn set_velocity(&mut self, velocity: &Vec<i64>) {
        self.vel = copy_coords(velocity);
    }

    /// The position changes by the velocity, the velocity by the force.
    open spec fn increment_view(&self, force: Seq<i64>) -> Result<(Seq<i64>, Seq<i64>), CalcError> {
        if force.len() != self.vel@.len() {
            Err(CalcError::DimensionMismatch)
        } else {
            Ok((self.vel@, force))
        }
    }

    fn calculate_increment(&self, force: &Vec<i64>) -> (r: Result<(Vec<i64>, Vec<i64>), CalcError>) {
        if force.len() != self.vel.len() {
            return Err(CalcError::DimensionMismatch);
        }
        Ok((copy_coords(&self.vel), copy_coords(force)))
    }
}

impl Particle {
    /// The push this particle, at `own_pos`, gives a particle at `ext_pos`: one
    /// unit away from `own_pos` along each axis, when `ext_pos` is within range.
    pub fn push_on(&self, own_pos: &Vec<i64>, ext_pos: &Vec<i64>) -> (r: Option<Vec<i64>>)
        ensures
            r is Some <==> within_range(own_pos@, ext_pos@, self.interaction_range as int),
            r matches Some(f) ==> f@.len() == own_pos@.len() && forall|i: int| 0 <= i < own_pos@.len()
                ==> #[trigger] f@[i] as int == sign(ext_pos@[i] - own_pos@[i]),
    {
        if own_pos.len() != ext_pos.len() {
            return None;
        }
        let range = self.interaction_range as i128;
        let mut f: Vec<i64> = Vec::new();
        let mut i: usize = 0;
        while i < own_pos.len()
            invariant
                own_pos.len() == ext_pos.len(),
                range == self.interaction_range,
                i <= own_pos.len(),
                f@.len() == i,
                forall|j: int| 0 <= j < i ==> -range < #[trigger] own_pos@[j] - ext_pos@[j] < range,
                forall|j: int| 0 <= j < i ==> #[trigger] f@[j] as int == sign(ext_pos@[j] - own_pos@[j]),
            decreases own_pos.len() - i,
        {
            let d: i128 = own_pos[i] as i128 - ext_pos[i] as i128;
            if d <= -range || d >= range {
                return None;
            }
            let s: i64 = if ext_pos[i] > own_pos[i] { 1 } else if ext_pos[i] < own_pos[i] { -1 } else { 0 };
            f.push(s);
            i = i + 1;
        }
        Some(f)
    }
}

/// The unit push of [`Particle::push_on`].
pub open spec fn push_view(own_pos: Seq<i64>, ext_pos: Seq<i64>) -> Seq<i64> {
    Seq::new(own_pos.len(), |i: int| sign(ext_pos[i] - own_pos[i]) as i64)
}

impl Interaction<()> for Particle {
    open spec fn info_view(&self) -> () {
        ()
    }

    open spec fn force_view(&self, own_pos: Seq<i64>, own_vel: Seq<i64>, ext_pos: Seq<i64>, ext_vel: Seq<i64>, ext_info: ())
        -> Option<Result<Seq<i64>, CalcError>> {
        if within_range(own_pos, ext_pos, self.interaction_range as int) {
            Some(Ok(push_view(own_pos, ext_pos)))
        } else {
            None
        }
    }

    fn get_interaction_information(&self) {
    }

    fn calculate_force_between(
        &self,
        own_pos: &Vec<i64>,
        own_vel: &Vec<i64>,
        ext_pos: &Vec<i64>,
        ext_vel: &Vec<i64>,
        ext_info: &(),
    ) -> (r: Option<Result<Vec<i64>, CalcError>>) {
        match self.push_on(own_pos, ext_pos) {
            Some(f) => {
                proof {
                    assert(f@ =~= push_view(own_pos@, ext_pos@));
                }
                Some(Ok(f))
            },
            None => None,
        }
    }
}

impl Cycle for Particle {
    /// The particle ages by one step and asks to divide when it reaches its
    /// division age.
    fn update_cycle(rng: &mut rand_chacha::ChaCha8Rng, dt: u32, cell: &mut Self) -> Option<CycleEvent> {
        if cell.age < u32::MAX {
            cell.age = cell.age + 1;
        }
        if cell.division_age > 0 && cell.age == cell.division_age {
            Some(CycleEvent::Division)
        } else {
            None
        }
    }

    /// Both daughters start at age zero at the mother's place and velocity.
    fn divide(rng: &mut rand_chacha::ChaCha8Rng, cell: &mut Self) -> Result<Option<Self>, CalcError> {
        cell.age = 0;
        Ok(Some(Particle {
            pos: copy_coords(&cell.pos),
            vel: copy_coords(&cell.vel),
            interaction_range: cell.interaction_range,
            age: 0,
            division_age: cell.division_age,
        }))
    }
}

impl Agent<()> for Particle {}

/// A drag that pulls every entity against its velocity: the force is the
/// velocity with the opposite sign.
#[derive(Clone, Copy, Debug)]
pub struct Drag;

/// The velocity `vel` with the opposite sign, when every entry can be negated.
pub open spec fn drag_view(vel: Seq<i64>) -> Result<Seq<i64>, CalcError> {
    if forall|i: int| 0 <= i < vel.len() ==> #[trigger] vel[i] != i64::MIN {
        Ok(Seq::new(vel.len(), |i: int| -vel[i] as i64))
    } else {
        Err(CalcError::Overflow)
    }
}

impl crate::domain::SubDomainForce for Drag {
    open spec fn custom_force_view(&self, pos: Seq<i64>, vel: Seq<i64>) -> Result<Seq<i64>, CalcError> {
        drag_view(vel)
    }

    fn calculate_custom_force(&self, pos: &Vec<i64>, vel: &Vec<i64>) -> (r: Result<Vec<i64>, CalcError>) {
        let mut f: Vec<i64> = Vec::new();
        let mut i: usize = 0;
        while i < vel.len()
            invariant
                i <= vel.len(),
                f@.len() == i,
                forall|j: int| 0 <= j < i ==> #[trigger] vel@[j] != i64::MIN,
                forall|j: int| 0 <= j < i ==> #[trigger] f@[j] == -vel@[j],
            decreases vel.len() - i,
        {
            if vel[i] == i64::MIN {
                return Err(CalcError::Overflow);
            }
            f.push(-vel[i]);
            i = i + 1;
        }
        proof {
            assert(f@ =~= Seq::new(vel@.len(), |j: int| -vel@[j] as i64));
        }
        Ok(f)
    }
}

} // verus!
