//! Explicit multi-step time integration of positions and velocities.
//!
//! An entity keeps the increments of its last two steps. With two of them the step
//! uses the third-order Adams-Bashforth scheme, with one the second-order scheme,
//! and with none the explicit Euler scheme. The history is a two-slot ring: each
//! step moves the most recent increment into the older slot, so the third-order
//! scheme is reached from the third step on. The coefficients assume a fixed `dt`.
//!
//! Coordinates are integers; the weighted sums are divided last and rounded
//! toward zero.
use vstd::prelude::*;
use crate::errors::CalcError;

verus! {

/// Which scheme a step uses.
#[derive(Clone, Copy, Debug, PartialEq, Eq, Structural)]
pub enum IntegratorOrder {
    Euler,
    AdamsBashforth2,
    AdamsBashforth3,
}

/// `a / d` rounded toward zero, for `d >= 1`.
pub open spec fn div_toward_zero(a: int, d: int) -> int {
    if a >= 0 {
        a / d
    } else {
        -((-a) / d)
    }
}

/// One coordinate after a step from `old` with the current increment `i0` and the
/// earlier increments `i1` (one step back) and `i2` (two steps back).
pub open spec fn advance(old: int, i0: int, i1: int, i2: int, dt: int, order: IntegratorOrder) -> int {
    match order {
        IntegratorOrder::Euler => old + i0 * dt,
        IntegratorOrder::AdamsBashforth2 => old + div_toward_zero((3 * i0 - i1) * dt, 2),
        IntegratorOrder::AdamsBashforth3 => old + div_toward_zero((23 * i0 - 16 * i1 + 5 * i2) * dt, 12),
    }
}

/// [`advance`] applied to every axis; the missing history reads as zero.
pub open spec fn advance_all(
    old: Seq<i64>,
    inc: Seq<i64>,
    back_1: Seq<i64>,
    back_2: Seq<i64>,
    dt: int,
    order: IntegratorOrder,
) -> Seq<int> {
    Seq::new(old.len(), |i: int| advance(old[i] as int, inc[i] as int,
        if i < back_1.len() { back_1[i] as int } else { 0 },
        if i < back_2.len() { back_2[i] as int } else { 0 }, dt, order))
}

/// What an entity carries between steps: its accumulated force, whether its cycle
/// asked for a division, and the increments of its last two steps.
#[derive(Clone, Debug)]
pub struct AuxiliaryCellPropertyStorage {
    pub force: Vec<i64>,
    pub cycle_event: bool,
    pub inc_pos_back_1: Option<Vec<i64>>,
    pub inc_pos_back_2: Option<Vec<i64>>,
    pub inc_vel_back_1: Option<Vec<i64>>,
    pub inc_vel_back_2: Option<Vec<i64>>,
}

/// The view of an optional vector: empty when absent.
pub open spec fn opt_view(v: Option<Vec<i64>>) -> Seq<i64> {
    match v {
        Some(x) => x@,
        None => Seq::empty(),
    }
}

/// `n` zeros.
pub open spec fn zero_vector(n: nat) -> Seq<i64> {
    Seq::new(n, |i: int| 0i64)
}

impl AuxiliaryCellPropertyStorage {
    /// The scheme the next step uses: the third-order one with two increments of
    /// each kind, the second-order one with exactly one of each, Euler otherwise.
    pub open spec fn order(&self) -> IntegratorOrder {
        if self.inc_pos_back_1 is Some && self.inc_pos_back_2 is Some && self.inc_vel_back_1 is Some
            && self.inc_vel_back_2 is Some {
            IntegratorOrder::AdamsBashforth3
        } else if self.inc_pos_back_1 is Some && self.inc_pos_back_2 is None && self.inc_vel_back_1 is Some
            && self.inc_vel_back_2 is None {
            IntegratorOrder::AdamsBashforth2
        } else {
            IntegratorOrder::Euler
        }
    }

    /// Every stored vector has `dim` entries.
    pub open spec fn dims_match(&self, dim: nat) -> bool {
        &&& self.force@.len() == dim
        &&& (self.inc_pos_back_1 matches Some(v) ==> v@.len() == dim)
        &&& (self.inc_pos_back_2 matches Some(v) ==> v@.len() == dim)
        &&& (self.inc_vel_back_1 matches Some(v) ==> v@.len() == dim)
        &&& (self.inc_vel_back_2 matches Some(v) ==> v@.len() == dim)
    }

    /// Fresh storage for a `dim`-dimensional entity: no force, no history.
    pub fn new(dim: usize) -> (r: Self)
        ensures
            r.force@ == zero_vector(dim as nat),
            !r.cycle_event,
            r.inc_pos_back_1 is None,
            r.inc_pos_back_2 is None,
            r.inc_vel_back_1 is None,
            r.inc_vel_back_2 is None,
            r.order() == IntegratorOrder::Euler,
    {
        AuxiliaryCellPropertyStorage {
            force: zeros_i64(dim),
            cycle_event: false,
            inc_pos_back_1: None,
            inc_pos_back_2: None,
            inc_vel_back_1: None,
            inc_vel_back_2: None,
        }
    }

    /// Which scheme the next step uses.
    pub fn get_order(&self) -> (r: IntegratorOrder)
        ensures
            r == self.order(),
    {
        if self.inc_pos_back_1.is_some() && self.inc_pos_back_2.is_some() && self.inc_vel_back_1.is_some()
            && self.inc_vel_back_2.is_some() {
            IntegratorOrder::AdamsBashforth3
        } else if self.inc_pos_back_1.is_some() && self.inc_pos_back_2.is_none()
            && self.inc_vel_back_1.is_some() && self.inc_vel_back_2.is_none() {
            IntegratorOrder::AdamsBashforth2
        } else {
            IntegratorOrder::Euler
        }
    }

    /// Adds `f` to the accumulated force.
    pub fn add_force(&mut self, f: &Vec<i64>) -> (r: Result<(), CalcError>)
        ensures
            r is Ok <==> f@.len() == old(self).force@.len() && forall|i: int| 0 <= i < f@.len() ==>
                i64::MIN <= #[trigger] old(self).force@[i] + f@[i] <= i64::MAX,
            r is Ok ==> final(self).force@.len() == f@.len() && forall|i: int| 0 <= i < f@.len() ==>
                #[trigger] final(self).force@[i] == old(self).force@[i] + f@[i],
            r is Err ==> *final(self) == *old(self),
            final(self).cycle_event == old(self).cycle_event,
            final(self).inc_pos_back_1 == old(self).inc_pos_back_1,
            final(self).inc_pos_back_2 == old(self).inc_pos_back_2,
            final(self).inc_vel_back_1 == old(self).inc_vel_back_1,
            final(self).inc_vel_back_2 == old(self).inc_vel_back_2,
    {
        match add_vectors(&self.force, f) {
            Some(sum) => {
                self.force = sum;
                Ok(())
            },
            None => Err(CalcError::Overflow),
        }
    }
}

/// `after` holds the history of `before` moved back one slot, with `dx` and `dv`
/// as the most recent increments.
pub open spec fn history_after_step(
    before: AuxiliaryCellPropertyStorage,
    after: AuxiliaryCellPropertyStorage,
    dx: Vec<i64>,
    dv: Vec<i64>,
) -> bool {
    &&& after.inc_pos_back_1 == Some(dx)
    &&& after.inc_vel_back_1 == Some(dv)
    &&& after.inc_pos_back_2 == before.inc_pos_back_1
    &&& after.inc_vel_back_2 == before.inc_vel_back_1
}

/// An entity without history advances by the Euler scheme; after one step it holds
/// exactly one increment of each kind and advances by the second-order scheme;
/// after a second step it advances by the third-order scheme.
pub proof fn lemma_order_progression(
    fresh: AuxiliaryCellPropertyStorage,
    once: AuxiliaryCellPropertyStorage,
    twice: AuxiliaryCellPropertyStorage,
    dx1: Vec<i64>,
    dv1: Vec<i64>,
    dx2: Vec<i64>,
    dv2: Vec<i64>,
)
    requires
        fresh.inc_pos_back_1 is None,
        fresh.inc_pos_back_2 is None,
        fresh.inc_vel_back_1 is None,
        fresh.inc_vel_back_2 is None,
        history_after_step(fresh, once, dx1, dv1),
        history_after_step(once, twice, dx2, dv2),
    ensures
        fresh.order() == IntegratorOrder::Euler,
        once.inc_pos_back_1 is Some && once.inc_pos_back_2 is None,
        once.inc_vel_back_1 is Some && once.inc_vel_back_2 is None,
        once.order() == IntegratorOrder::AdamsBashforth2,
        twice.order() == IntegratorOrder::AdamsBashforth3,
{
}

/// A vector of `n` zeros.
pub fn zeros_i64(n: usize) -> (r: Vec<i64>)
    ensures
        r@ == zero_vector(n as nat),
{
    let mut r: Vec<i64> = Vec::new();
    let mut i: usize = 0;
    while i < n
        invariant
            i <= n,
            r@ =~= zero_vector(i as nat),
        decreases n - i,
    {
        r.push(0);
        i = i + 1;
    }
    r
}

/// The sum of two vectors of the same length, when every entry fits an `i64`.
pub fn add_vectors(a: &Vec<i64>, b: &Vec<i64>) -> (r: Option<Vec<i64>>)
    ensures
        r is Some <==> a@.len() == b@.len() && forall|i: int| 0 <= i < a@.len() ==>
            i64::MIN <= #[trigger] a@[i] + b@[i] <= i64::MAX,
        r matches Some(s) ==> s@.len() == a@.len() && forall|i: int| 0 <= i < a@.len() ==>
            #[trigger] s@[i] == a@[i] + b@[i],
{
    if a.len() != b.len() {
        return None;
    }
    let mut s: Vec<i64> = Vec::new();
    let mut i: usize = 0;
    while i < a.len()
        invariant
            a.len() == b.len(),
            i <= a.len(),
            s@.len() == i,
            forall|j: int| 0 <= j < i ==> i64::MIN <= #[trigger] a@[j] + b@[j] <= i64::MAX,
            forall|j: int| 0 <= j < i ==> #[trigger] s@[j] == a@[j] + b@[j],
        decreases a.len() - i,
    {
        match a[i].checked_add(b[i]) {
            Some(x) => s.push(x),
            None => {
                return None;
            },
        }
        i = i + 1;
    }
    Some(s)
}

fn advance_axis(old: i64, i0: i64, i1: i64, i2: i64, dt: u32, order: IntegratorOrder) -> (r: Option<i64>)
    ensures
        r is Some <==> i64::MIN <= advance(old as int, i0 as int, i1 as int, i2 as int, dt as int, order) <= i64::MAX,
        r matches Some(x) ==> x == advance(old as int, i0 as int, i1 as int, i2 as int, dt as int, order),
{
    let d: i128 = dt as i128;
    let a0: i128 = i0 as i128;
    let a1: i128 = i1 as i128;
    let a2: i128 = i2 as i128;
    assert(-0x8000_0000_0000_0000 * 0x1_0000_0000 <= a0 * d <= 0x8000_0000_0000_0000 * 0x1_0000_0000
        && -0x8000_0000_0000_0000 * 0x1_0000_0000 <= a1 * d <= 0x8000_0000_0000_0000 * 0x1_0000_0000
        && -0x8000_0000_0000_0000 * 0x1_0000_0000 <= a2 * d <= 0x8000_0000_0000_0000 * 0x1_0000_0000) by (nonlinear_arith)
        requires
            -0x8000_0000_0000_0000 <= a0 <= 0x8000_0000_0000_0000,
            -0x8000_0000_0000_0000 <= a1 <= 0x8000_0000_0000_0000,
            -0x8000_0000_0000_0000 <= a2 <= 0x8000_0000_0000_0000,
            0 <= d <= 0x1_0000_0000,
    ;
    let delta: i128 = match order {
        IntegratorOrder::Euler => a0 * d,
        IntegratorOrder::AdamsBashforth2 => {
            let w: i128 = 3 * (a0 * d) - a1 * d;
            assert(w == (3 * i0 - i1) * dt) by (nonlinear_arith)
                requires
                    w == 3 * (a0 * d) - a1 * d,
                    a0 == i0,
                    a1 == i1,
                    d == dt,
            ;
            if w >= 0 {
                w / 2
            } else {
                -((-w) / 2)
            }
        },
        IntegratorOrder::AdamsBashforth3 => {
            let w: i128 = 23 * (a0 * d) - 16 * (a1 * d) + 5 * (a2 * d);
            assert(w == (23 * i0 - 16 * i1 + 5 * i2) * dt) by (nonlinear_arith)
                requires
                    w == 23 * (a0 * d) - 16 * (a1 * d) + 5 * (a2 * d),
                    a0 == i0,
                    a1 == i1,
                    a2 == i2,
                    d == dt,
            ;
            if w >= 0 {
                w / 12
            } else {
                -((-w) / 12)
            }
        },
    };
    let x: i128 = old as i128 + delta;
    if x < i64::MIN as i128 || x > i64::MAX as i128 {
        None
    } else {
        Some(x as i64)
    }
}

/// [`advance_all`] when every coordinate fits an `i64`.
pub fn advance_vector(
    old: &Vec<i64>,
    inc: &Vec<i64>,
    back_1: &Vec<i64>,
    back_2: &Vec<i64>,
    dt: u32,
    order: IntegratorOrder,
) -> (r: Option<Vec<i64>>)
    requires
        inc@.len() == old@.len(),
    ensures
        r is Some <==> forall|i: int| 0 <= i < old@.len() ==>
            i64::MIN <= #[trigger] advance_all(old@, inc@, back_1@, back_2@, dt as int, order)[i] <= i64::MAX,
        r matches Some(v) ==> v@.len() == old@.len() && forall|i: int| 0 <= i < old@.len() ==>
            #[trigger] v@[i] == advance_all(old@, inc@, back_1@, back_2@, dt as int, order)[i],
{
    let mut v: Vec<i64> = Vec::new();
    let mut i: usize = 0;
    while i < old.len()
        invariant
            inc@.len() == old@.len(),
            i <= old.len(),
            v@.len() == i,
            forall|j: int| 0 <= j < i ==>
                i64::MIN <= #[trigger] advance_all(old@, inc@, back_1@, back_2@, dt as int, order)[j] <= i64::MAX,
            forall|j: int| 0 <= j < i ==>
                #[trigger] v@[j] == advance_all(old@, inc@, back_1@, back_2@, dt as int, order)[j],
        decreases old.len() - i,
    {
        let b1: i64 = if i < back_1.len() { back_1[i] } else { 0 };
        let b2: i64 = if i < back_2.len() { back_2[i] } else { 0 };
        assert(advance_all(old@, inc@, back_1@, back_2@, dt as int, order)[i as int]
            == advance(old@[i as int] as int, inc@[i as int] as int, b1 as int, b2 as int, dt as int, order));
        match advance_axis(old[i], inc[i], b1, b2, dt, order) {
            Some(x) => v.push(x),
            None => {
                return None;
            },
        }
        i = i + 1;
    }
    Some(v)
}

/// The stored vector, or an empty one when none is stored.
fn history(v: &Option<Vec<i64>>) -> (r: Vec<i64>)
    ensures
        r@ == opt_view(*v),
{
    match v {
        Some(x) => crate::cuboid::copy_coords(x),
        None => Vec::new(),
    }
}

/// Advances one entity by one step of length `dt` with the increments `dx` of its
/// position and `dv` of its velocity.
///
/// The scheme is chosen by the stored history (see [`AuxiliaryCellPropertyStorage::order`]).
/// Afterwards the force is reset to zero, the most recent stored increments move to
/// the older slots and `dx`, `dv` become the most recent ones. When the vectors'
/// lengths differ, or a coordinate leaves the range of `i64`, nothing changes.
pub fn integrate_step(
    pos: &mut Vec<i64>,
    vel: &mut Vec<i64>,
    aux: &mut AuxiliaryCellPropertyStorage,
    dx: Vec<i64>,
    dv: Vec<i64>,
    dt: u32,
) -> (r: Result<(), CalcError>)
    ensures
        r == Err::<(), CalcError>(CalcError::DimensionMismatch) <==> {
            ||| old(vel)@.len() != old(pos)@.len()
            ||| dx@.len() != old(pos)@.len()
            ||| dv@.len() != old(pos)@.len()
            ||| !old(aux).dims_match(old(pos)@.len())
        },
        r is Ok <==> {
            &&& old(vel)@.len() == old(pos)@.len()
            &&& dx@.len() == old(pos)@.len()
            &&& dv@.len() == old(pos)@.len()
            &&& old(aux).dims_match(old(pos)@.len())
            &&& forall|i: int| 0 <= i < old(pos)@.len() ==> i64::MIN <= #[trigger] advance_all(old(pos)@, dx@,
                opt_view(old(aux).inc_pos_back_1), opt_view(old(aux).inc_pos_back_2), dt as int, old(aux).order())[i] <= i64::MAX
            &&& forall|i: int| 0 <= i < old(vel)@.len() ==> i64::MIN <= #[trigger] advance_all(old(vel)@, dv@,
                opt_view(old(aux).inc_vel_back_1), opt_view(old(aux).inc_vel_back_2), dt as int, old(aux).order())[i] <= i64::MAX
        },
        r is Ok ==> {
            &&& final(pos)@.len() == old(pos)@.len()
            &&& final(vel)@.len() == old(vel)@.len()
            &&& forall|i: int| 0 <= i < old(pos)@.len() ==> #[trigger] final(pos)@[i] == advance_all(old(pos)@, dx@,
                opt_view(old(aux).inc_pos_back_1), opt_view(old(aux).inc_pos_back_2), dt as int, old(aux).order())[i]
            &&& forall|i: int| 0 <= i < old(vel)@.len() ==> #[trigger] final(vel)@[i] == advance_all(old(vel)@, dv@,
                opt_view(old(aux).inc_vel_back_1), opt_view(old(aux).inc_vel_back_2), dt as int, old(aux).order())[i]
            &&& final(aux).force@ == zero_vector(old(pos)@.len())
            &&& final(aux).cycle_event == old(aux).cycle_event
            &&& history_after_step(*old(aux), *final(aux), dx, dv)
        },
        r is Err ==> *final(pos) == *old(pos) && *final(vel) == *old(vel) && *final(aux) == *old(aux),
{
    let dim = pos.len();
    if vel.len() != dim || dx.len() != dim || dv.len() != dim || aux.force.len() != dim {
        return Err(CalcError::DimensionMismatch);
    }
    let pos_b1 = history(&aux.inc_pos_back_1);
    let pos_b2 = history(&aux.inc_pos_back_2);
    let vel_b1 = history(&aux.inc_vel_back_1);
    let vel_b2 = history(&aux.inc_vel_back_2);
    if (aux.inc_pos_back_1.is_some() && pos_b1.len() != dim) || (aux.inc_pos_back_2.is_some() && pos_b2.len() != dim)
        || (aux.inc_vel_back_1.is_some() && vel_b1.len() != dim) || (aux.inc_vel_back_2.is_some() && vel_b2.len() != dim) {
        return Err(CalcError::DimensionMismatch);
    }
    let order = aux.get_order();
    let new_pos = match advance_vector(pos, &dx, &pos_b1, &pos_b2, dt, order) {
        Some(v) => v,
        None => {
            return Err(CalcError::Overflow);
        },
    };
    let new_vel = match advance_vector(vel, &dv, &vel_b1, &vel_b2, dt, order) {
        Some(v) => v,
        None => {
            return Err(CalcError::Overflow);
        },
    };
    *pos = new_pos;
    *vel = new_vel;
    aux.force = zeros_i64(dim);
    aux.inc_pos_back_2 = aux.inc_pos_back_1.take();
    aux.inc_vel_back_2 = aux.inc_vel_back_1.take();
    aux.inc_pos_back_1 = Some(dx);
    aux.inc_vel_back_1 = Some(dv);
    Ok(())
}

} // verus!
