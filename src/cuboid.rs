//! A cuboid simulation domain on an integer lattice, cut into a regular grid of voxels.
use vstd::prelude::*;
use crate::errors::BoundaryError;
use crate::lattice::{cartesian_product, grid_nth, grid_size, in_grid, zeros};

verus! {

/// The mathematical content of a [`CartesianCuboid`].
pub ghost struct CuboidModel {
    pub min: Seq<i64>,
    pub max: Seq<i64>,
    pub dx: Seq<u64>,
    pub n_voxels: Seq<usize>,
    pub rng_seed: u64,
}

/// Lower and upper boundaries of equal, positive length.
pub open spec fn dims_ok(min: Seq<i64>, max: Seq<i64>) -> bool {
    min.len() >= 1 && min.len() == max.len()
}

/// Every lower boundary lies below its upper boundary.
pub open spec fn min_below_max(min: Seq<i64>, max: Seq<i64>) -> bool {
    forall|i: int| 0 <= i < min.len() ==> #[trigger] min[i] < max[i]
}

/// The side lengths of voxels when `n[i]` of them share the extent of axis `i`.
pub open spec fn side_lengths(min: Seq<i64>, max: Seq<i64>, n: Seq<usize>) -> Seq<u64> {
    Seq::new(min.len(), |i: int| ((max[i] - min[i]) / (n[i] as int)) as u64)
}

/// Voxel counts for voxels no smaller than `range`: as many as fit along each axis.
pub open spec fn counts_for_range(min: Seq<i64>, max: Seq<i64>, range: int) -> Seq<usize> {
    Seq::new(min.len(), |i: int| ((max[i] - min[i]) / range) as usize)
}

impl CuboidModel {
    pub open spec fn dim(self) -> int {
        self.min.len() as int
    }

    pub open spec fn extent(self, i: int) -> int {
        self.max[i] - self.min[i]
    }

    /// Axis `i` holds between one voxel and one voxel per lattice unit, all of
    /// the same side length; the last voxel also takes what is left over.
    pub open spec fn axis_ok(self, i: int) -> bool {
        &&& self.min[i] < self.max[i]
        &&& 1 <= self.n_voxels[i] <= self.extent(i)
        &&& self.dx[i] as int == self.extent(i) / (self.n_voxels[i] as int)
    }

    pub open spec fn wf(self) -> bool {
        &&& dims_ok(self.min, self.max)
        &&& self.dx.len() == self.min.len()
        &&& self.n_voxels.len() == self.min.len()
        &&& forall|i: int| 0 <= i < self.dim() ==> #[trigger] self.axis_ok(i)
    }

    /// The number of voxels fits a `usize`, so that voxels can be numbered.
    pub open spec fn countable(self) -> bool {
        grid_size(self.n_voxels) <= usize::MAX
    }

    /// The number of voxels.
    pub open spec fn total(self) -> int {
        grid_size(self.n_voxels)
    }

    /// `pos` lies within the boundaries, both included.
    pub open spec fn contains(self, pos: Seq<i64>) -> bool {
        &&& pos.len() == self.dim()
        &&& forall|i: int| 0 <= i < self.dim() ==> self.min[i] <= #[trigger] pos[i] <= self.max[i]
    }

    /// `floor((p - min) / dx)` along axis `i`, clamped to the voxels of that axis.
    pub open spec fn axis_index(self, p: i64, i: int) -> int {
        if p < self.min[i] {
            0
        } else {
            let k = (p - self.min[i]) / (self.dx[i] as int);
            if k >= self.n_voxels[i] {
                self.n_voxels[i] - 1
            } else {
                k
            }
        }
    }

    /// The voxel that holds `pos`, clamped to the grid.
    pub open spec fn voxel_index(self, pos: Seq<i64>) -> Seq<usize> {
        Seq::new(self.min.len(), |i: int| self.axis_index(pos[i], i) as usize)
    }

    /// Lower boundary of voxel coordinate `k` along axis `i`.
    pub open spec fn voxel_lower(self, k: int, i: int) -> int {
        self.min[i] + k * (self.dx[i] as int)
    }

    /// Upper boundary of voxel coordinate `k` along axis `i`: the last voxel ends at
    /// the domain's upper boundary.
    pub open spec fn voxel_upper(self, k: int, i: int) -> int {
        if k + 1 >= self.n_voxels[i] {
            self.max[i] as int
        } else {
            self.min[i] + (k + 1) * (self.dx[i] as int)
        }
    }
}

/// A cuboid domain with boundaries `min` and `max` on an integer lattice, split
/// into `n_voxels[i]` voxels of side `dx[i]` along axis `i`.
#[derive(Clone, Debug)]
pub struct CartesianCuboid {
    min: Vec<i64>,
    max: Vec<i64>,
    dx: Vec<u64>,
    n_voxels: Vec<usize>,
    /// Seed from which all random numbers are initially drawn.
    pub rng_seed: u64,
}

impl View for CartesianCuboid {
    type V = CuboidModel;

    closed spec fn view(&self) -> CuboidModel {
        CuboidModel {
            min: self.min@,
            max: self.max@,
            dx: self.dx@,
            n_voxels: self.n_voxels@,
            rng_seed: self.rng_seed,
        }
    }
}

/// Facts about the voxels along one axis of a well-formed domain.
pub proof fn lemma_axis_ok(d: CuboidModel, i: int)
    requires
        d.wf(),
        0 <= i < d.dim(),
    ensures
        d.dx[i] >= 1,
        1 <= d.n_voxels[i] <= d.extent(i),
        d.min[i] < d.max[i],
        d.n_voxels[i] * (d.dx[i] as int) <= d.extent(i),
{
    assert(d.axis_ok(i));
    let e = d.extent(i);
    let n = d.n_voxels[i] as int;
    let q = d.dx[i] as int;
    vstd::arithmetic::div_mod::lemma_fundamental_div_mod(e, n);
    vstd::arithmetic::div_mod::lemma_mod_pos_bound(e, n);
    assert(q >= 1) by (nonlinear_arith)
        requires
            e == n * q + e % n,
            0 <= e % n < n,
            n <= e,
    ;
    assert(n * q <= e) by (nonlinear_arith)
        requires
            e == n * q + e % n,
            0 <= e % n < n,
            q >= 1,
            n >= 1,
    ;
}

/// A voxel coordinate lies in the grid.
pub proof fn lemma_axis_index_bounds(d: CuboidModel, p: i64, i: int)
    requires
        d.wf(),
        0 <= i < d.dim(),
    ensures
        0 <= d.axis_index(p, i) < d.n_voxels[i],
{
    lemma_axis_ok(d, i);
    if p >= d.min[i] {
        let off = p - d.min[i];
        let q = d.dx[i] as int;
        assert(off / q >= 0) by (nonlinear_arith)
            requires
                off >= 0,
                q >= 1,
        ;
    }
}

/// Copies a voxel index.
pub fn copy_index(v: &Vec<usize>) -> (r: Vec<usize>)
    ensures
        r@ == v@,
{
    let mut r: Vec<usize> = Vec::new();
    let mut i: usize = 0;
    while i < v.len()
        invariant
            i <= v.len(),
            r@ == v@.take(i as int),
        decreases v.len() - i,
    {
        r.push(v[i]);
        i = i + 1;
        proof {
            assert(r@ =~= v@.take(i as int));
        }
    }
    assert(v@.take(v.len() as int) =~= v@);
    r
}

/// Copies a vector of coordinates.
pub fn copy_coords(v: &Vec<i64>) -> (r: Vec<i64>)
    ensures
        r@ == v@,
{
    let mut r: Vec<i64> = Vec::new();
    let mut i: usize = 0;
    while i < v.len()
        invariant
            i <= v.len(),
            r@ == v@.take(i as int),
        decreases v.len() - i,
    {
        r.push(v[i]);
        i = i + 1;
        proof {
            assert(r@ =~= v@.take(i as int));
        }
    }
    assert(v@.take(v.len() as int) =~= v@);
    r
}

fn check_min_max(min: &Vec<i64>, max: &Vec<i64>) -> (r: Result<(), BoundaryError>)
    ensures
        r is Ok <==> dims_ok(min@, max@) && min_below_max(min@, max@),
        r == Err::<(), BoundaryError>(BoundaryError::DimensionMismatch) <==> !dims_ok(min@, max@),
        r matches Err(BoundaryError::MinNotBelowMax { axis }) ==> {
            &&& dims_ok(min@, max@)
            &&& axis < min.len()
            &&& min[axis as int] >= max[axis as int]
            &&& forall|j: int| 0 <= j < axis ==> #[trigger] min[j] < max[j]
        },
        r matches Err(e) ==> e is DimensionMismatch || e is MinNotBelowMax,
{
    if min.len() == 0 || min.len() != max.len() {
        return Err(BoundaryError::DimensionMismatch);
    }
    let mut i: usize = 0;
    while i < min.len()
        invariant
            dims_ok(min@, max@),
            i <= min.len(),
            forall|j: int| 0 <= j < i ==> #[trigger] min[j] < max[j],
        decreases min.len() - i,
    {
        if min[i] >= max[i] {
            return Err(BoundaryError::MinNotBelowMax { axis: i });
        }
        i = i + 1;
    }
    Ok(())
}

/// Multiplies the voxel counts of all axes, or says that the product exceeds `usize`.
fn count_voxels(n: &Vec<usize>) -> (r: Option<usize>)
    requires
        forall|i: int| 0 <= i < n.len() ==> n[i] >= 1,
    ensures
        r matches Some(c) ==> c == grid_size(n@),
        r is None <==> grid_size(n@) > usize::MAX,
{
    let mut res: usize = 1;
    let mut i: usize = 0;
    while i < n.len()
        invariant
            i <= n.len(),
            forall|j: int| 0 <= j < n.len() ==> n[j] >= 1,
            res == grid_size(n@.take(i as int)),
        decreases n.len() - i,
    {
        proof {
            lemma_grid_size_step(n@, i as int);
        }
        match res.checked_mul(n[i]) {
            Some(p) => {
                res = p;
            },
            None => {
                proof {
                    lemma_grid_size_prefix_mono(n@, i as int + 1, n.len() as int);
                    assert(n@.take(n.len() as int) =~= n@);
                }
                return None;
            },
        }
        i = i + 1;
    }
    assert(n@.take(n.len() as int) =~= n@);
    Some(res)
}

/// Adding an axis multiplies the number of voxels by its count.
pub proof fn lemma_grid_size_step(n: Seq<usize>, i: int)
    requires
        0 <= i < n.len(),
    ensures
        grid_size(n.take(i + 1)) == grid_size(n.take(i)) * n[i],
{
    let a = n.take(i + 1);
    assert(a.drop_last() =~= n.take(i));
    assert(zeros(a.len()).drop_last() =~= zeros(n.take(i).len()));
}

/// A grid with at least one voxel per axis is not empty.
pub proof fn lemma_grid_size_prefix_pos(n: Seq<usize>, i: int)
    requires
        0 <= i <= n.len(),
        forall|k: int| 0 <= k < n.len() ==> n[k] >= 1,
    ensures
        grid_size(n.take(i)) >= 1,
    decreases i,
{
    if i > 0 {
        lemma_grid_size_prefix_pos(n, i - 1);
        lemma_grid_size_step(n, i - 1);
        let a = grid_size(n.take(i - 1));
        let b = n[i - 1] as int;
        assert(a * b >= 1) by (nonlinear_arith)
            requires
                a >= 1,
                b >= 1,
        ;
    } else {
        assert(n.take(0).len() == 0);
    }
}

/// Taking more axes gives no fewer voxels.
pub proof fn lemma_grid_size_prefix_mono(n: Seq<usize>, i: int, j: int)
    requires
        0 <= i <= j <= n.len(),
        forall|k: int| 0 <= k < n.len() ==> n[k] >= 1,
    ensures
        grid_size(n.take(i)) <= grid_size(n.take(j)),
    decreases j - i,
{
    if i < j {
        lemma_grid_size_prefix_mono(n, i, j - 1);
        lemma_grid_size_prefix_pos(n, j - 1);
        lemma_grid_size_step(n, j - 1);
        let a = grid_size(n.take(j - 1));
        let b = n[j - 1] as int;
        assert(a <= a * b) by (nonlinear_arith)
            requires
                a >= 1,
                b >= 1,
        ;
    }
}

impl CartesianCuboid {
    /// Builds the domain from its checked parts.
    fn build(min: Vec<i64>, max: Vec<i64>, n_voxels: Vec<usize>) -> (d: Self)
        requires
            dims_ok(min@, max@),
            min_below_max(min@, max@),
            n_voxels.len() == min.len(),
            forall|i: int|
                0 <= i < min.len() ==> 1 <= #[trigger] n_voxels[i] <= max[i] - min[i],
        ensures
            d@ == (CuboidModel {
                min: min@,
                max: max@,
                dx: side_lengths(min@, max@, n_voxels@),
                n_voxels: n_voxels@,
                rng_seed: 0,
            }),
            d@.wf(),
    {
        let mut dx: Vec<u64> = Vec::new();
        let mut i: usize = 0;
        while i < min.len()
            invariant
                dims_ok(min@, max@),
                min_below_max(min@, max@),
                n_voxels.len() == min.len(),
                forall|j: int| 0 <= j < min.len() ==> 1 <= #[trigger] n_voxels[j] <= max[j] - min[j],
                i <= min.len(),
                dx@ =~= side_lengths(min@, max@, n_voxels@).take(i as int),
            decreases min.len() - i,
        {
            let e: i128 = max[i] as i128 - min[i] as i128;
            let ni: usize = n_voxels[i];
            let side: i128 = e / (ni as i128);
            assert(0 <= side <= e) by (nonlinear_arith)
                requires
                    side as int == (e as int) / (ni as int),
                    ni >= 1,
                    e >= 1,
            ;
            dx.push(side as u64);
            i = i + 1;
        }
        let d = CartesianCuboid { min, max, dx, n_voxels, rng_seed: 0 };
        proof {
            assert(d.dx@ =~= side_lengths(d.min@, d.max@, d.n_voxels@));
            assert forall|i: int| 0 <= i < d@.dim() implies #[trigger] d@.axis_ok(i) by {
                assert(d.min@[i] < d.max@[i]);
                assert(1 <= d.n_voxels@[i] <= d.max@[i] - d.min@[i]);
            }
        }
        d
    }

    /// The lower boundary of the domain.
    pub fn get_min(&self) -> (r: Vec<i64>)
        ensures
            r@ == self@.min,
    {
        copy_coords(&self.min)
    }

    /// The upper boundary of the domain.
    pub fn get_max(&self) -> (r: Vec<i64>)
        ensures
            r@ == self@.max,
    {
        copy_coords(&self.max)
    }

    /// The side length of the voxels along each axis.
    pub fn get_dx(&self) -> (r: Vec<u64>)
        ensures
            r@ == self@.dx,
    {
        let mut r: Vec<u64> = Vec::new();
        let mut i: usize = 0;
        while i < self.dx.len()
            invariant
                i <= self.dx.len(),
                r@ == self.dx@.take(i as int),
            decreases self.dx.len() - i,
        {
            r.push(self.dx[i]);
            i = i + 1;
            proof {
                assert(r@ =~= self.dx@.take(i as int));
            }
        }
        assert(self.dx@.take(self.dx.len() as int) =~= self.dx@);
        r
    }

    /// The number of voxels along each axis.
    pub fn get_n_voxels(&self) -> (r: Vec<usize>)
        ensures
            r@ == self@.n_voxels,
    {
        copy_index(&self.n_voxels)
    }

    /// A copy of the domain.
    pub fn duplicate(&self) -> (r: Self)
        ensures
            r@ == self@,
    {
        let dx = self.get_dx();
        CartesianCuboid {
            min: copy_coords(&self.min),
            max: copy_coords(&self.max),
            dx,
            n_voxels: copy_index(&self.n_voxels),
            rng_seed: self.rng_seed,
        }
    }

    /// The number of voxels of the domain, or `None` when it exceeds `usize`.
    pub fn count_indices(&self) -> (r: Option<usize>)
        requires
            self@.wf(),
        ensures
            r is Some <==> self@.countable(),
            r matches Some(c) ==> c == self@.total(),
    {
        proof {
            assert forall|i: int| 0 <= i < self.n_voxels.len() implies self.n_voxels[i] >= 1 by {
                lemma_axis_ok(self@, i);
            }
        }
        count_voxels(&self.n_voxels)
    }

    /// The number of spatial dimensions.
    pub fn dim(&self) -> (r: usize)
        ensures
            r == self@.dim(),
    {
        self.min.len()
    }

    /// The seed from which the partitions' random generators are derived.
    pub fn get_rng_seed(&self) -> (r: u64)
        ensures
            r == self@.rng_seed,
    {
        self.rng_seed
    }

    fn axis_index(&self, p: i64, i: usize) -> (k: usize)
        requires
            self@.wf(),
            i < self@.dim(),
        ensures
            k == self@.axis_index(p, i as int),
    {
        proof {
            lemma_axis_ok(self@, i as int);
        }
        if p < self.min[i] {
            0
        } else {
            let off: u128 = (p as i128 - self.min[i] as i128) as u128;
            let k: u128 = off / (self.dx[i] as u128);
            if k >= self.n_voxels[i] as u128 {
                self.n_voxels[i] - 1
            } else {
                k as usize
            }
        }
    }

    /// The voxel that holds `pos`; positions outside the domain go to the nearest
    /// voxel along each axis.
    pub fn get_voxel_index_clamped(&self, pos: &Vec<i64>) -> (r: Vec<usize>)
        requires
            self@.wf(),
            pos.len() == self@.dim(),
        ensures
            r@ == self@.voxel_index(pos@),
            in_grid(r@, self@.n_voxels),
    {
        let mut r: Vec<usize> = Vec::new();
        let mut i: usize = 0;
        while i < pos.len()
            invariant
                self@.wf(),
                pos.len() == self@.dim(),
                i <= pos.len(),
                r@ =~= self@.voxel_index(pos@).take(i as int),
            decreases pos.len() - i,
        {
            let k = self.axis_index(pos[i], i);
            r.push(k);
            i = i + 1;
        }
        proof {
            assert(r@ =~= self@.voxel_index(pos@));
            assert forall|i: int| 0 <= i < r@.len() implies zeros(self@.n_voxels.len())[i] <= #[trigger] r@[i] < self@.n_voxels[i] by {
                lemma_axis_index_bounds(self@, pos@[i], i);
            }
        }
        r
    }

    /// The voxel that holds `pos`, which must lie within the domain's boundaries.
    pub fn get_voxel_index_of_raw(&self, pos: &Vec<i64>) -> (r: Result<Vec<usize>, BoundaryError>)
        requires
            self@.wf(),
        ensures
            r is Ok <==> self@.contains(pos@),
            r matches Ok(v) ==> v@ == self@.voxel_index(pos@) && in_grid(v@, self@.n_voxels),
            r == Err::<Vec<usize>, BoundaryError>(BoundaryError::DimensionMismatch) <==> pos.len() != self@.dim(),
            r matches Err(BoundaryError::OutOfDomain { axis }) ==> {
                &&& axis < pos.len()
                &&& !(self@.min[axis as int] <= pos[axis as int] <= self@.max[axis as int])
            },
            r matches Err(e) ==> e is DimensionMismatch || e is OutOfDomain,
    {
        if pos.len() != self.min.len() {
            return Err(BoundaryError::DimensionMismatch);
        }
        let mut i: usize = 0;
        while i < pos.len()
            invariant
                self@.wf(),
                pos.len() == self@.dim(),
                i <= pos.len(),
                forall|j: int| 0 <= j < i ==> self@.min[j] <= #[trigger] pos[j] <= self@.max[j],
            decreases pos.len() - i,
        {
            if pos[i] < self.min[i] || pos[i] > self.max[i] {
                return Err(BoundaryError::OutOfDomain { axis: i });
            }
            i = i + 1;
        }
        Ok(self.get_voxel_index_clamped(pos))
    }

    /// The number of voxels of the domain.
    pub fn get_n_indices(&self) -> (r: usize)
        requires
            self@.wf(),
            self@.countable(),
        ensures
            r == self@.total(),
    {
        proof {
            assert forall|i: int| 0 <= i < self.n_voxels.len() implies self.n_voxels[i] >= 1 by {
                lemma_axis_ok(self@, i);
            }
        }
        match count_voxels(&self.n_voxels) {
            Some(c) => c,
            None => {
                proof {
                    assert(false);
                }
                0
            },
        }
    }

    /// All voxels of the domain, numbered lexicographically with the last axis
    /// running fastest.
    pub fn get_all_voxel_indices(&self) -> (r: Vec<Vec<usize>>)
        requires
            self@.wf(),
            self@.countable(),
        ensures
            r@.len() == self@.total(),
            forall|k: int| 0 <= k < r@.len() ==> (#[trigger] r@[k])@ == grid_nth(k, self@.n_voxels),
    {
        let mut lo: Vec<usize> = Vec::new();
        let mut i: usize = 0;
        while i < self.n_voxels.len()
            invariant
                i <= self.n_voxels.len(),
                lo@ =~= zeros(self.n_voxels@.len()).take(i as int),
            decreases self.n_voxels.len() - i,
        {
            lo.push(0);
            i = i + 1;
        }
        proof {
            assert(lo@ =~= zeros(self.n_voxels@.len()));
        }
        cartesian_product(&lo, &self.n_voxels)
    }

    /// Builds the domain from its boundaries and the number of voxels along each axis.
    ///
    /// Each voxel along axis `i` has side `(max[i] - min[i]) / n_voxels[i]`, rounded
    /// down; the last voxel of the axis also covers what is left.
    pub fn from_boundaries_and_n_voxels(
        min: Vec<i64>,
        max: Vec<i64>,
        n_voxels: Vec<usize>,
    ) -> (r: Result<Self, BoundaryError>)
        ensures
            r is Ok <==> {
                &&& dims_ok(min@, max@)
                &&& n_voxels.len() == min.len()
                &&& min_below_max(min@, max@)
                &&& forall|i: int|
                    0 <= i < min.len() ==> 1 <= #[trigger] n_voxels[i] <= max[i] - min[i]
            },
            r matches Ok(d) ==> d@.wf() && d@ == (CuboidModel {
                min: min@,
                max: max@,
                dx: side_lengths(min@, max@, n_voxels@),
                n_voxels: n_voxels@,
                rng_seed: 0,
            }),
            r matches Err(BoundaryError::NoVoxels { axis }) ==> axis < n_voxels.len()
                && n_voxels[axis as int] == 0,
            r matches Err(BoundaryError::VoxelSmallerThanUnit { axis }) ==> axis < n_voxels.len()
                && n_voxels[axis as int] > max[axis as int] - min[axis as int],
            r matches Err(BoundaryError::MinNotBelowMax { axis }) ==> axis < min.len()
                && min[axis as int] >= max[axis as int],
            r matches Err(BoundaryError::DimensionMismatch) ==> !dims_ok(min@, max@)
                || n_voxels.len() != min.len(),
            r matches Err(e) ==> e is NoVoxels || e is VoxelSmallerThanUnit || e is MinNotBelowMax
                || e is DimensionMismatch,
    {
        match check_min_max(&min, &max) {
            Err(e) => {
                return Err(e);
            },
            Ok(()) => {},
        }
        if n_voxels.len() != min.len() {
            return Err(BoundaryError::DimensionMismatch);
        }
        let mut i: usize = 0;
        while i < n_voxels.len()
            invariant
                dims_ok(min@, max@),
                min_below_max(min@, max@),
                n_voxels.len() == min.len(),
                i <= n_voxels.len(),
                forall|j: int| 0 <= j < i ==> 1 <= #[trigger] n_voxels[j] <= max[j] - min[j],
            decreases n_voxels.len() - i,
        {
            if n_voxels[i] == 0 {
                return Err(BoundaryError::NoVoxels { axis: i });
            }
            if n_voxels[i] as i128 > max[i] as i128 - min[i] as i128 {
                return Err(BoundaryError::VoxelSmallerThanUnit { axis: i });
            }
            i = i + 1;
        }
        Ok(Self::build(min, max, n_voxels))
    }

    /// Builds the domain from its boundaries and the largest interaction range of
    /// the entities: along each axis as many voxels as fit with a side no shorter
    /// than `interaction_range`.
    pub fn from_boundaries_and_interaction_range(
        min: Vec<i64>,
        max: Vec<i64>,
        interaction_range: i64,
    ) -> (r: Result<Self, BoundaryError>)
        ensures
            r is Ok <==> {
                &&& dims_ok(min@, max@)
                &&& min_below_max(min@, max@)
                &&& interaction_range >= 1
                &&& forall|i: int|
                    0 <= i < min.len() ==> interaction_range <= #[trigger] max[i] - min[i]
                &&& forall|i: int|
                    0 <= i < min.len() ==> (#[trigger] max[i] - min[i]) / (interaction_range as int)
                        <= usize::MAX
            },
            r matches Ok(d) ==> {
                let n = counts_for_range(min@, max@, interaction_range as int);
                &&& d@.wf()
                &&& d@ == (CuboidModel {
                    min: min@,
                    max: max@,
                    dx: side_lengths(min@, max@, n),
                    n_voxels: n,
                    rng_seed: 0,
                })
            },
            r matches Err(BoundaryError::NonPositiveInteractionRange) ==> interaction_range <= 0,
            r matches Err(BoundaryError::VoxelLargerThanDomain { axis }) ==> axis < min.len()
                && interaction_range > max[axis as int] - min[axis as int],
            r matches Err(BoundaryError::MinNotBelowMax { axis }) ==> axis < min.len()
                && min[axis as int] >= max[axis as int],
            r matches Err(BoundaryError::DimensionMismatch) ==> !dims_ok(min@, max@),
            r matches Err(e) ==> e is NonPositiveInteractionRange || e is VoxelLargerThanDomain
                || e is MinNotBelowMax || e is DimensionMismatch || e is TooManyVoxels,
    {
        match check_min_max(&min, &max) {
            Err(e) => {
                return Err(e);
            },
            Ok(()) => {},
        }
        if interaction_range <= 0 {
            return Err(BoundaryError::NonPositiveInteractionRange);
        }
        let ghost range = interaction_range as int;
        let mut n_voxels: Vec<usize> = Vec::new();
        let mut i: usize = 0;
        while i < min.len()
            invariant
                dims_ok(min@, max@),
                min_below_max(min@, max@),
                interaction_range >= 1,
                range == interaction_range,
                i <= min.len(),
                forall|j: int| 0 <= j < i ==> interaction_range <= #[trigger] max[j] - min[j],
                forall|j: int| 0 <= j < i ==> (#[trigger] max[j] - min[j]) / range <= usize::MAX,
                n_voxels.len() == i,
                forall|j: int| 0 <= j < i ==> 1 <= #[trigger] n_voxels@[j] <= max[j] - min[j],
                n_voxels@ =~= counts_for_range(min@, max@, range).take(i as int),
            decreases min.len() - i,
        {
            let e: i128 = max[i] as i128 - min[i] as i128;
            if (interaction_range as i128) > e {
                return Err(BoundaryError::VoxelLargerThanDomain { axis: i });
            }
            let n: i128 = e / (interaction_range as i128);
            if n > usize::MAX as i128 {
                return Err(BoundaryError::TooManyVoxels);
            }
            assert(1 <= n <= e) by (nonlinear_arith)
                requires
                    n as int == (e as int) / range,
                    1 <= range <= e,
            ;
            n_voxels.push(n as usize);
            i = i + 1;
        }
        proof {
            assert(n_voxels@ =~= counts_for_range(min@, max@, range));
        }
        Ok(Self::build(min, max, n_voxels))
    }
}

} // verus!
