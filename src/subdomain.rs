//! A partition of a [`CartesianCuboid`]: a group of its voxels, their neighbors
//! and the reflective boundary of the whole domain.
use vstd::prelude::*;
use crate::cuboid::{copy_coords, copy_index, lemma_axis_ok, CartesianCuboid, CuboidModel};
use crate::errors::BoundaryError;
use crate::lattice::{
    box_bounds_ok, box_nth, box_size, cartesian_product, in_box, in_grid, lemma_box_nth,
    lemma_box_rank, zeros,
};

verus! {

/// The lowest coordinate along axis `i` among the voxels `vs`.
pub open spec fn axis_lowest(vs: Seq<Seq<usize>>, i: int) -> int
    decreases vs.len(),
{
    if vs.len() <= 1 {
        vs[0][i] as int
    } else {
        let a = axis_lowest(vs.drop_last(), i);
        let b = vs.last()[i] as int;
        if b < a { b } else { a }
    }
}

/// The highest coordinate along axis `i` among the voxels `vs`.
pub open spec fn axis_highest(vs: Seq<Seq<usize>>, i: int) -> int
    decreases vs.len(),
{
    if vs.len() <= 1 {
        vs[0][i] as int
    } else {
        let a = axis_highest(vs.drop_last(), i);
        let b = vs.last()[i] as int;
        if b > a { b } else { a }
    }
}

/// `w` is a Moore neighbor of `v` in a grid with `n[i]` voxels along axis `i`:
/// another voxel of the grid that differs by at most one along every axis.
pub open spec fn is_moore_neighbor(v: Seq<usize>, w: Seq<usize>, n: Seq<usize>) -> bool {
    &&& w.len() == v.len()
    &&& w != v
    &&& forall|i: int|
        0 <= i < v.len() ==> #[trigger] w[i] < n[i] && v[i] <= w[i] + 1 && w[i] <= v[i] + 1
}

/// Lower corner of the box around `v` clipped to the grid.
pub open spec fn neighbor_lo(v: Seq<usize>) -> Seq<usize> {
    Seq::new(v.len(), |j: int| if v[j] >= 1 { (v[j] - 1) as usize } else { 0usize })
}

/// Upper corner (exclusive) of the box around `v` clipped to a grid with `n[j]`
/// voxels along axis `j`.
pub open spec fn neighbor_hi(v: Seq<usize>, n: Seq<usize>) -> Seq<usize> {
    Seq::new(v.len(), |j: int| if v[j] + 2 <= n[j] { (v[j] + 2) as usize } else { n[j] })
}

/// Reflects one coordinate at the boundaries `lo` and `hi`.
///
/// Below `lo` the position is mirrored at `lo` and the velocity made non-negative;
/// then, above `hi`, the position is mirrored at `hi` and the velocity made
/// non-positive.
pub open spec fn reflect(p: int, v: int, lo: int, hi: int) -> (int, int) {
    let (p_in, v_in) = if p < lo {
        (2 * lo - p, if v < 0 { -v } else { v })
    } else {
        (p, v)
    };
    if p_in > hi {
        (2 * hi - p_in, if v_in > 0 { -v_in } else { v_in })
    } else {
        (p_in, v_in)
    }
}

/// The reflected coordinate lies within the boundaries and its velocity fits an `i64`.
pub open spec fn reflect_ok(p: int, v: int, lo: int, hi: int) -> bool {
    let (p_in, v_in) = reflect(p, v, lo, hi);
    lo <= p_in <= hi && v_in <= i64::MAX
}

/// The lower corner of the union of the voxels `vs` of domain `d`.
pub open spec fn bounds_lower(d: CuboidModel, vs: Seq<Seq<usize>>) -> Seq<i64> {
    Seq::new(d.min.len(), |i: int| d.voxel_lower(axis_lowest(vs, i), i) as i64)
}

/// The upper corner of the union of the voxels `vs` of domain `d`.
pub open spec fn bounds_upper(d: CuboidModel, vs: Seq<Seq<usize>>) -> Seq<i64> {
    Seq::new(d.min.len(), |i: int| d.voxel_upper(axis_highest(vs, i), i) as i64)
}

/// Reflection leaves a position within the boundaries, and its velocity, unchanged.
pub proof fn lemma_reflect_interior(sub: SubDomainModel, pos: Seq<i64>, vel: Seq<i64>)
    requires
        sub.wf(),
        sub.domain.contains(pos),
        vel.len() == pos.len(),
    ensures
        sub.reflect_all_ok(pos, vel),
        sub.reflect_all(pos, vel).0 == Seq::new(pos.len(), |i: int| pos[i] as int),
        sub.reflect_all(pos, vel).1 == Seq::new(vel.len(), |i: int| vel[i] as int),
{
    let (p, v) = sub.reflect_all(pos, vel);
    assert(p =~= Seq::new(pos.len(), |i: int| pos[i] as int));
    assert(v =~= Seq::new(vel.len(), |i: int| vel[i] as int));
}

/// A position `eps` below the lower boundary, with a velocity pointing outward,
/// comes back `eps` above the lower boundary with the opposite velocity, which
/// points inward.
pub proof fn lemma_reflect_below(lo: int, hi: int, eps: int, v: int)
    requires
        lo < hi,
        0 < eps <= hi - lo,
        v < 0,
    ensures
        reflect(lo - eps, v, lo, hi) == (lo + eps, -v),
        -v >= 0,
{
}

/// The mathematical content of a [`CartesianSubDomain`].
pub ghost struct SubDomainModel {
    pub min: Seq<i64>,
    pub max: Seq<i64>,
    pub voxels: Seq<Seq<usize>>,
    pub domain: CuboidModel,
}

impl SubDomainModel {
    pub open spec fn wf(self) -> bool {
        &&& self.domain.wf()
        &&& self.domain.countable()
        &&& self.voxels.len() >= 1
        &&& forall|k: int| 0 <= k < self.voxels.len() ==> in_grid(#[trigger] self.voxels[k], self.domain.n_voxels)
        &&& self.min == bounds_lower(self.domain, self.voxels)
        &&& self.max == bounds_upper(self.domain, self.voxels)
    }

    /// Applies [`reflect`] at the domain's boundaries to every axis.
    pub open spec fn reflect_all(self, pos: Seq<i64>, vel: Seq<i64>) -> (Seq<int>, Seq<int>) {
        (
            Seq::new(pos.len(), |i: int| reflect(pos[i] as int, vel[i] as int, self.domain.min[i] as int, self.domain.max[i] as int).0),
            Seq::new(pos.len(), |i: int| reflect(pos[i] as int, vel[i] as int, self.domain.min[i] as int, self.domain.max[i] as int).1),
        )
    }

    pub open spec fn reflect_all_ok(self, pos: Seq<i64>, vel: Seq<i64>) -> bool {
        forall|i: int| 0 <= i < pos.len() ==> #[trigger] reflect_ok(pos[i] as int, vel[i] as int, self.domain.min[i] as int, self.domain.max[i] as int)
    }
}

/// A partition of a [`CartesianCuboid`]: the voxels it owns and the box that
/// bounds them, together with the geometry of the whole domain.
#[derive(Clone, Debug)]
pub struct CartesianSubDomain {
    min: Vec<i64>,
    max: Vec<i64>,
    voxels: Vec<Vec<usize>>,
    domain: CartesianCuboid,
}

impl View for CartesianSubDomain {
    type V = SubDomainModel;

    closed spec fn view(&self) -> SubDomainModel {
        SubDomainModel {
            min: self.min@,
            max: self.max@,
            voxels: Seq::new(self.voxels@.len(), |k: int| self.voxels@[k]@),
            domain: self.domain@,
        }
    }
}

/// A box inside the grid has no more points than the grid.
proof fn lemma_sub_box_size(lo: Seq<usize>, hi: Seq<usize>, n: Seq<usize>)
    requires
        box_bounds_ok(lo, hi),
        hi.len() == n.len(),
        forall|i: int| 0 <= i < hi.len() ==> hi[i] <= #[trigger] n[i],
    ensures
        box_size(lo, hi) <= box_size(zeros(n.len()), n),
    decreases lo.len(),
{
    if lo.len() > 0 {
        let z = zeros(n.len());
        assert(z.drop_last() =~= zeros(n.drop_last().len()));
        lemma_sub_box_size(lo.drop_last(), hi.drop_last(), n.drop_last());
        crate::lattice::lemma_box_size_nonneg(lo.drop_last(), hi.drop_last());
        let a = box_size(lo.drop_last(), hi.drop_last());
        let b = box_size(z.drop_last(), n.drop_last());
        let x = hi.last() - lo.last();
        let y = n.last() - z.last();
        assert(a * x <= b * y) by (nonlinear_arith)
            requires
                0 <= a <= b,
                0 <= x <= y,
        ;
    }
}

/// The two voxel indices are equal.
pub fn same_index(a: &Vec<usize>, b: &Vec<usize>) -> (r: bool)
    ensures
        r == (a@ == b@),
{
    if a.len() != b.len() {
        return false;
    }
    let mut i: usize = 0;
    while i < a.len()
        invariant
            a.len() == b.len(),
            i <= a.len(),
            forall|j: int| 0 <= j < i ==> a@[j] == b@[j],
        decreases a.len() - i,
    {
        if a[i] != b[i] {
            return false;
        }
        i = i + 1;
    }
    assert(a@ =~= b@);
    true
}

proof fn lemma_lower_fits(d: CuboidModel, k: int, i: int)
    requires
        d.wf(),
        0 <= i < d.dim(),
        0 <= k < d.n_voxels[i],
    ensures
        d.min[i] <= d.voxel_lower(k, i) < d.max[i],
        d.min[i] < d.voxel_upper(k, i) <= d.max[i],
{
    lemma_axis_ok(d, i);
    let q = d.dx[i] as int;
    let n = d.n_voxels[i] as int;
    assert(0 <= k * q && k * q + q <= n * q && (k + 1) * q == k * q + q) by (nonlinear_arith)
        requires
            0 <= k < n,
            q >= 1,
    ;
}

impl CartesianSubDomain {
    /// Groups `voxels` of `domain` into a partition bounded by the box around them.
    pub fn new(domain: &CartesianCuboid, voxels: Vec<Vec<usize>>) -> (r: Self)
        requires
            domain@.wf(),
            domain@.countable(),
            voxels.len() >= 1,
            forall|k: int| 0 <= k < voxels.len() ==> in_grid((#[trigger] voxels@[k])@, domain@.n_voxels),
        ensures
            r@.wf(),
            r@.domain == domain@,
            r@.voxels == Seq::new(voxels@.len(), |k: int| voxels@[k]@),
    {
        let ghost vs = Seq::new(voxels@.len(), |k: int| voxels@[k]@);
        let dim = domain.dim();
        let dmin = domain.get_min();
        let dmax = domain.get_max();
        let dx = domain.get_dx();
        let nv = domain.get_n_voxels();
        let mut min: Vec<i64> = Vec::new();
        let mut max: Vec<i64> = Vec::new();
        let mut i: usize = 0;
        while i < dim
            invariant
                domain@.wf(),
                dim == domain@.dim(),
                dmin@ == domain@.min,
                dmax@ == domain@.max,
                dx@ == domain@.dx,
                nv@ == domain@.n_voxels,
                voxels.len() >= 1,
                vs == Seq::new(voxels@.len(), |k: int| voxels@[k]@),
                forall|k: int| 0 <= k < voxels.len() ==> in_grid((#[trigger] voxels@[k])@, domain@.n_voxels),
                i <= dim,
                min@ =~= bounds_lower(domain@, vs).take(i as int),
                max@ =~= bounds_upper(domain@, vs).take(i as int),
            decreases dim - i,
        {
            proof {
                assert(in_grid(voxels@[0]@, domain@.n_voxels));
            }
            let mut lowest: usize = voxels[0][i];
            let mut highest: usize = voxels[0][i];
            let mut t: usize = 1;
            while t < voxels.len()
                invariant
                    i < dim,
                    dim == domain@.dim(),
                    domain@.wf(),
                    voxels.len() >= 1,
                    vs == Seq::new(voxels@.len(), |k: int| voxels@[k]@),
                    forall|k: int| 0 <= k < voxels.len() ==> in_grid((#[trigger] voxels@[k])@, domain@.n_voxels),
                    1 <= t <= voxels.len(),
                    lowest == axis_lowest(vs.take(t as int), i as int),
                    highest == axis_highest(vs.take(t as int), i as int),
                    lowest < domain@.n_voxels[i as int],
                    highest < domain@.n_voxels[i as int],
                    min@ =~= bounds_lower(domain@, vs).take(i as int),
                    max@ =~= bounds_upper(domain@, vs).take(i as int),
                    dmin@ == domain@.min,
                    dmax@ == domain@.max,
                    dx@ == domain@.dx,
                    nv@ == domain@.n_voxels,
                decreases voxels.len() - t,
            {
                proof {
                    assert(in_grid(voxels@[t as int]@, domain@.n_voxels));
                    assert(vs.take(t as int + 1).drop_last() =~= vs.take(t as int));
                }
                let c = voxels[t][i];
                if c < lowest {
                    lowest = c;
                }
                if c > highest {
                    highest = c;
                }
                t = t + 1;
            }
            proof {
                assert(vs.take(voxels.len() as int) =~= vs);
                lemma_lower_fits(domain@, lowest as int, i as int);
                lemma_lower_fits(domain@, highest as int, i as int);
            }
            let lower: i128 = dmin[i] as i128 + (lowest as i128) * (dx[i] as i128);
            let upper: i128 = if highest + 1 >= nv[i] {
                dmax[i] as i128
            } else {
                dmin[i] as i128 + (highest as i128 + 1) * (dx[i] as i128)
            };
            min.push(lower as i64);
            max.push(upper as i64);
            i = i + 1;
        }
        proof {
            assert(min@ =~= bounds_lower(domain@, vs));
            assert(max@ =~= bounds_upper(domain@, vs));
        }
        let r = CartesianSubDomain { min, max, voxels, domain: domain.duplicate() };
        proof {
            assert(r@.voxels =~= vs);
            assert forall|k: int| 0 <= k < r@.voxels.len() implies in_grid(#[trigger] r@.voxels[k], r@.domain.n_voxels) by {
                assert(in_grid(r.voxels@[k]@, domain@.n_voxels));
            }
        }
        r
    }

    /// The lower corner of the box around this partition's voxels.
    pub fn get_min(&self) -> (r: Vec<i64>)
        ensures
            r@ == self@.min,
    {
        copy_coords(&self.min)
    }

    /// The upper corner of the box around this partition's voxels.
    pub fn get_max(&self) -> (r: Vec<i64>)
        ensures
            r@ == self@.max,
    {
        copy_coords(&self.max)
    }

    /// The side length of the voxels along each axis.
    pub fn get_dx(&self) -> (r: Vec<u64>)
        ensures
            r@ == self@.domain.dx,
    {
        self.domain.get_dx()
    }

    /// The voxels of this partition.
    pub fn get_voxels(&self) -> (r: Vec<Vec<usize>>)
        ensures
            r@.len() == self@.voxels.len(),
            forall|k: int| 0 <= k < r@.len() ==> (#[trigger] r@[k])@ == self@.voxels[k],
    {
        let mut r: Vec<Vec<usize>> = Vec::new();
        let mut k: usize = 0;
        while k < self.voxels.len()
            invariant
                k <= self.voxels.len(),
                r@.len() == k,
                forall|j: int| 0 <= j < k ==> (#[trigger] r@[j])@ == self@.voxels[j],
            decreases self.voxels.len() - k,
        {
            r.push(copy_index(&self.voxels[k]));
            k = k + 1;
        }
        r
    }

    /// The lower boundary of the whole domain.
    pub fn get_domain_min(&self) -> (r: Vec<i64>)
        ensures
            r@ == self@.domain.min,
    {
        self.domain.get_min()
    }

    /// The upper boundary of the whole domain.
    pub fn get_domain_max(&self) -> (r: Vec<i64>)
        ensures
            r@ == self@.domain.max,
    {
        self.domain.get_max()
    }

    /// The number of voxels of the whole domain along each axis.
    pub fn get_domain_n_voxels(&self) -> (r: Vec<usize>)
        ensures
            r@ == self@.domain.n_voxels,
    {
        self.domain.get_n_voxels()
    }

    /// The voxel of the whole domain that holds `pos`, which must lie within the
    /// domain's boundaries.
    pub fn get_index_of(&self, pos: &Vec<i64>) -> (r: Result<Vec<usize>, BoundaryError>)
        requires
            self@.wf(),
        ensures
            r is Ok <==> self@.domain.contains(pos@),
            r matches Ok(v) ==> v@ == self@.domain.voxel_index(pos@),
    {
        self.domain.get_voxel_index_of_raw(pos)
    }

    /// The Moore neighbors of voxel `v`: every other voxel of the whole domain that
    /// differs from `v` by at most one along each axis, each once, in lexicographic
    /// order.
    pub fn get_neighbor_voxel_indices(&self, v: &Vec<usize>) -> (r: Vec<Vec<usize>>)
        requires
            self@.wf(),
            in_grid(v@, self@.domain.n_voxels),
        ensures
            forall|j: int| 0 <= j < r@.len() ==> is_moore_neighbor(v@, (#[trigger] r@[j])@, self@.domain.n_voxels),
            forall|w: Seq<usize>| is_moore_neighbor(v@, w, self@.domain.n_voxels) ==>
                exists|j: int| 0 <= j < r@.len() && (#[trigger] r@[j])@ == w,
            forall|j1: int, j2: int| 0 <= j1 < j2 < r@.len() ==> (#[trigger] r@[j1])@ != (#[trigger] r@[j2])@,
    {
        let ghost n = self@.domain.n_voxels;
        let nv = self.domain.get_n_voxels();
        let mut lo: Vec<usize> = Vec::new();
        let mut hi: Vec<usize> = Vec::new();
        let mut i: usize = 0;
        while i < v.len()
            invariant
                self@.wf(),
                n == self@.domain.n_voxels,
                nv@ == n,
                in_grid(v@, n),
                i <= v.len(),
                lo@ =~= neighbor_lo(v@).take(i as int),
                hi@ =~= neighbor_hi(v@, n).take(i as int),
            decreases v.len() - i,
        {
            proof {
                assert(zeros(n.len())[i as int] <= v@[i as int] < n[i as int]);
            }
            let l: usize = if v[i] >= 1 { v[i] - 1 } else { 0 };
            let h: usize = if v[i] + 1 < nv[i] { v[i] + 2 } else { nv[i] };
            lo.push(l);
            hi.push(h);
            i = i + 1;
        }
        proof {
            assert(lo@ =~= neighbor_lo(v@));
            assert(hi@ =~= neighbor_hi(v@, n));
            assert(box_bounds_ok(lo@, hi@)) by {
                assert forall|j: int| 0 <= j < lo@.len() implies lo@[j] <= hi@[j] by {
                    assert(zeros(n.len())[j] <= v@[j] < n[j]);
                }
            }
            lemma_axis_ok(self@.domain, 0);
            lemma_sub_box_size(lo@, hi@, n);
        }
        let all = cartesian_product(&lo, &hi);
        let mut r: Vec<Vec<usize>> = Vec::new();
        let ghost mut idx: Seq<int> = Seq::empty();
        let mut k: usize = 0;
        while k < all.len()
            invariant
                self@.wf(),
                n == self@.domain.n_voxels,
                in_grid(v@, n),
                box_bounds_ok(lo@, hi@),
                lo@ == neighbor_lo(v@),
                hi@ == neighbor_hi(v@, n),
                all@.len() == box_size(lo@, hi@),
                forall|q: int| 0 <= q < all@.len() ==> (#[trigger] all@[q])@ == box_nth(q, lo@, hi@),
                k <= all.len(),
                idx.len() == r@.len(),
                forall|j: int| 0 <= j < idx.len() ==> 0 <= #[trigger] idx[j] < k,
                forall|j1: int, j2: int| 0 <= j1 < j2 < idx.len() ==> #[trigger] idx[j1] < #[trigger] idx[j2],
                forall|j: int| 0 <= j < r@.len() ==> (#[trigger] r@[j])@ == box_nth(idx[j], lo@, hi@),
                forall|j: int| 0 <= j < r@.len() ==> (#[trigger] r@[j])@ != v@,
                forall|q: int| 0 <= q < k && box_nth(q, lo@, hi@) != v@ ==>
                    exists|j: int| 0 <= j < idx.len() && #[trigger] idx[j] == q,
            decreases all.len() - k,
        {
            let ghost old_idx = idx;
            if !same_index(&all[k], v) {
                r.push(copy_index(&all[k]));
                proof {
                    idx = idx.push(k as int);
                }
            }
            k = k + 1;
            proof {
                let kk = k as int - 1;
                assert forall|q: int| 0 <= q < k && box_nth(q, lo@, hi@) != v@ implies
                    exists|j: int| 0 <= j < idx.len() && #[trigger] idx[j] == q by {
                    if q < kk {
                        let j0 = choose|j: int| 0 <= j < old_idx.len() && #[trigger] old_idx[j] == q;
                        assert(idx[j0] == old_idx[j0]);
                    } else {
                        assert(idx[idx.len() - 1] == kk);
                    }
                }
            }
        }
        proof {
            assert forall|j: int| 0 <= j < r@.len() implies is_moore_neighbor(v@, (#[trigger] r@[j])@, n) by {
                lemma_box_nth(idx[j], lo@, hi@);
                let w = r@[j]@;
                assert forall|i: int| 0 <= i < v@.len() implies #[trigger] w[i] < n[i] && v@[i] <= w[i] + 1 && w[i] <= v@[i] + 1 by {
                    assert(lo@[i] <= w[i] < hi@[i]);
                }
            }
            assert forall|w: Seq<usize>| is_moore_neighbor(v@, w, n) implies
                exists|j: int| 0 <= j < r@.len() && (#[trigger] r@[j])@ == w by {
                assert(in_box(w, lo@, hi@)) by {
                    assert forall|i: int| 0 <= i < w.len() implies lo@[i] <= #[trigger] w[i] < hi@[i] by {
                        assert(w[i] < n[i] && v@[i] <= w[i] + 1 && w[i] <= v@[i] + 1);
                    }
                }
                lemma_box_rank(w, lo@, hi@);
                let q = crate::lattice::box_rank(w, lo@, hi@);
                let j = choose|j: int| 0 <= j < idx.len() && #[trigger] idx[j] == q;
                assert(r@[j]@ == w);
            }
            assert forall|j1: int, j2: int| 0 <= j1 < j2 < r@.len() implies (#[trigger] r@[j1])@ != (#[trigger] r@[j2])@ by {
                if r@[j1]@ == r@[j2]@ {
                    crate::lattice::lemma_box_nth_injective(idx[j1], idx[j2], lo@, hi@);
                }
            }
        }
        r
    }

    /// Applies the reflective boundary of the whole domain to a position and velocity.
    ///
    /// Along each axis a position below the lower boundary is mirrored at it and its
    /// velocity made non-negative; then a position above the upper boundary is
    /// mirrored at it and its velocity made non-positive. When a position is still
    /// outside afterwards, or a velocity no longer fits, nothing is changed and the
    /// first such axis is reported.
    pub fn apply_boundary(&self, pos: &mut Vec<i64>, vel: &mut Vec<i64>) -> (r: Result<(), BoundaryError>)
        requires
            self@.wf(),
        ensures
            r is Ok <==> {
                &&& old(pos).len() == self@.domain.dim()
                &&& old(vel).len() == self@.domain.dim()
                &&& self@.reflect_all_ok(old(pos)@, old(vel)@)
            },
            r is Ok ==> {
                let (p, v) = self@.reflect_all(old(pos)@, old(vel)@);
                &&& final(pos)@.len() == p.len()
                &&& final(vel)@.len() == v.len()
                &&& forall|i: int| 0 <= i < p.len() ==> #[trigger] final(pos)@[i] as int == p[i] && final(vel)@[i] as int == v[i]
            },
            r is Err ==> *final(pos) == *old(pos) && *final(vel) == *old(vel),
            self@.domain.contains(old(pos)@) && old(vel)@.len() == old(pos)@.len() ==> {
                &&& r is Ok
                &&& final(pos)@ == old(pos)@
                &&& final(vel)@ == old(vel)@
            },
            r matches Err(e) ==> e == BoundaryError::DimensionMismatch || e matches BoundaryError::OutOfDomain { axis },
    {
        let dim = self.domain.dim();
        if pos.len() != dim || vel.len() != dim {
            return Err(BoundaryError::DimensionMismatch);
        }
        let dmin = self.domain.get_min();
        let dmax = self.domain.get_max();
        let mut new_pos: Vec<i64> = Vec::new();
        let mut new_vel: Vec<i64> = Vec::new();
        let mut i: usize = 0;
        while i < dim
            invariant
                self@.wf(),
                dim == self@.domain.dim(),
                pos.len() == dim,
                vel.len() == dim,
                dmin@ == self@.domain.min,
                dmax@ == self@.domain.max,
                i <= dim,
                new_pos.len() == i,
                new_vel.len() == i,
                forall|j: int| 0 <= j < i ==> #[trigger] reflect_ok(pos@[j] as int, vel@[j] as int, dmin@[j] as int, dmax@[j] as int),
                forall|j: int| 0 <= j < i ==> #[trigger] new_pos@[j] as int == reflect(pos@[j] as int, vel@[j] as int, dmin@[j] as int, dmax@[j] as int).0,
                forall|j: int| 0 <= j < i ==> #[trigger] new_vel@[j] as int == reflect(pos@[j] as int, vel@[j] as int, dmin@[j] as int, dmax@[j] as int).1,
            decreases dim - i,
        {
            let lo: i128 = dmin[i] as i128;
            let hi: i128 = dmax[i] as i128;
            let mut p: i128 = pos[i] as i128;
            let mut v: i128 = vel[i] as i128;
            if p < lo {
                p = 2 * lo - p;
                if v < 0 {
                    v = -v;
                }
            }
            if p > hi {
                p = 2 * hi - p;
                if v > 0 {
                    v = -v;
                }
            }
            assert((p as int, v as int) == reflect(pos@[i as int] as int, vel@[i as int] as int, dmin@[i as int] as int, dmax@[i as int] as int));
            if p < lo || p > hi || v > i64::MAX as i128 {
                assert(!reflect_ok(pos@[i as int] as int, vel@[i as int] as int, self@.domain.min[i as int] as int, self@.domain.max[i as int] as int));
                return Err(BoundaryError::OutOfDomain { axis: i });
            }
            let ghost old_p = new_pos@;
            let ghost old_v = new_vel@;
            new_pos.push(p as i64);
            new_vel.push(v as i64);
            proof {
                assert forall|j: int| 0 <= j < i + 1 implies #[trigger] new_pos@[j] as int == reflect(pos@[j] as int, vel@[j] as int, dmin@[j] as int, dmax@[j] as int).0 by {
                    if j < i {
                        assert(new_pos@[j] == old_p[j]);
                    }
                }
                assert forall|j: int| 0 <= j < i + 1 implies #[trigger] new_vel@[j] as int == reflect(pos@[j] as int, vel@[j] as int, dmin@[j] as int, dmax@[j] as int).1 by {
                    if j < i {
                        assert(new_vel@[j] == old_v[j]);
                    }
                }
            }
            i = i + 1;
        }
        let ghost pos_start = pos@;
        let ghost vel_start = vel@;
        proof {
            assert(self@.reflect_all_ok(pos@, vel@));
        }
        *pos = new_pos;
        *vel = new_vel;
        proof {
            if self@.domain.contains(pos_start) && vel_start.len() == pos_start.len() {
                lemma_reflect_interior(self@, pos_start, vel_start);
                assert forall|i: int| 0 <= i < pos_start.len() implies pos@[i] == pos_start[i] && vel@[i] == vel_start[i] by {
                    assert(new_pos@[i] as int == reflect(pos_start[i] as int, vel_start[i] as int, dmin@[i] as int, dmax@[i] as int).0);
                    assert(new_vel@[i] as int == reflect(pos_start[i] as int, vel_start[i] as int, dmin@[i] as int, dmax@[i] as int).1);
                    assert(self@.reflect_all(pos_start, vel_start).0[i] == pos_start[i] as int);
                    assert(self@.reflect_all(pos_start, vel_start).1[i] == vel_start[i] as int);
                }
                assert(pos@ =~= pos_start);
                assert(vel@ =~= vel_start);
            }
            let (pp, vv) = self@.reflect_all(pos_start, vel_start);
            assert forall|i: int| 0 <= i < pp.len() implies #[trigger] pos@[i] as int == pp[i] && vel@[i] as int == vv[i] by {
                assert(new_pos@[i] as int == reflect(pos_start[i] as int, vel_start[i] as int, dmin@[i] as int, dmax@[i] as int).0);
                assert(new_vel@[i] as int == reflect(pos_start[i] as int, vel_start[i] as int, dmin@[i] as int, dmax@[i] as int).1);
            }
        }
        Ok(())
    }
}

} // verus!
