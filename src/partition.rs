//! Contiguous runs of voxels that make up the partitions of a domain.
//!
//! The voxels are numbered lexicographically. With `(n, m, avg)` from
//! [`get_decomp_res`], the first `n` partitions take `avg` consecutive voxels each
//! and the following `m` partitions `avg - 1` each; empty partitions are not made.
use vstd::prelude::*;
use crate::cuboid::{copy_index, CartesianCuboid, CuboidModel};
use crate::decomposition::{ceil_div, get_decomp_res, is_decomposition};
use crate::errors::DecomposeError;
use crate::lattice::{grid_nth, grid_rank, in_grid, lemma_box_nth, lemma_box_rank, lemma_zeros_bounds};
use crate::subdomain::CartesianSubDomain;

verus! {

/// Chunks of `avg` voxels in a split of `t` voxels into `r` chunks.
pub open spec fn decomp_avg(t: int, r: int) -> int {
    ceil_div(t, r)
}

/// Number of short chunks (of `avg - 1` voxels).
pub open spec fn decomp_m(t: int, r: int) -> int {
    ceil_div(t, r) * r - t
}

/// Number of full chunks (of `avg` voxels).
pub open spec fn decomp_n(t: int, r: int) -> int {
    r - decomp_m(t, r)
}

/// Where chunk `j` starts in the numbering of the voxels.
pub open spec fn chunk_start(j: int, n: int, avg: int) -> int {
    if j <= n {
        j * avg
    } else {
        n * avg + (j - n) * (avg - 1)
    }
}

/// How many voxels chunk `j` holds.
pub open spec fn chunk_len(j: int, n: int, avg: int) -> int {
    if j < n {
        avg
    } else {
        avg - 1
    }
}

/// How many non-empty chunks there are.
pub open spec fn chunk_count(n: int, m: int, avg: int) -> int {
    if avg > 1 {
        n + m
    } else {
        n
    }
}

/// The sum of a sequence of counts.
pub open spec fn sum_counts(c: Seq<int>) -> int
    decreases c.len(),
{
    if c.len() == 0 {
        0
    } else {
        sum_counts(c.drop_last()) + c.last()
    }
}

/// Views of voxel indices.
pub open spec fn index_views(vs: Seq<Vec<usize>>) -> Seq<Seq<usize>> {
    Seq::new(vs.len(), |k: int| vs[k]@)
}

impl CuboidModel {
    /// The number of partitions made when `r` are requested.
    pub open spec fn n_partitions(self, r: int) -> int {
        let t = self.total();
        chunk_count(decomp_n(t, r), decomp_m(t, r), decomp_avg(t, r))
    }

    /// The voxels of partition `j` when `r` partitions are requested.
    pub open spec fn partition_voxels(self, r: int, j: int) -> Seq<Seq<usize>> {
        let t = self.total();
        let n = decomp_n(t, r);
        let avg = decomp_avg(t, r);
        Seq::new(chunk_len(j, n, avg) as nat, |q: int| grid_nth(chunk_start(j, n, avg) + q, self.n_voxels))
    }
}

/// Chunk `j + 1` starts where chunk `j` ends.
pub proof fn lemma_chunk_step(j: int, n: int, avg: int)
    requires
        0 <= j,
        0 <= n,
        avg >= 1,
    ensures
        chunk_start(j + 1, n, avg) == chunk_start(j, n, avg) + chunk_len(j, n, avg),
        chunk_start(j, n, avg) >= 0,
{
    if j + 1 <= n {
        assert((j + 1) * avg == j * avg + avg) by (nonlinear_arith);
    } else if j == n {
        assert(j * avg == n * avg);
        assert((j + 1 - n) * (avg - 1) == avg - 1) by (nonlinear_arith)
            requires
                j == n,
        ;
    } else {
        assert((j + 1 - n) * (avg - 1) == (j - n) * (avg - 1) + (avg - 1)) by (nonlinear_arith);
    }
    assert(chunk_start(j, n, avg) >= 0) by (nonlinear_arith)
        requires
            0 <= j,
            0 <= n,
            avg >= 1,
            chunk_start(j, n, avg) == if j <= n { j * avg } else { n * avg + (j - n) * (avg - 1) },
    ;
}

/// Later chunks start no earlier.
pub proof fn lemma_chunk_mono(j1: int, j2: int, n: int, avg: int)
    requires
        0 <= j1 <= j2,
        0 <= n,
        avg >= 1,
    ensures
        chunk_start(j1, n, avg) <= chunk_start(j2, n, avg),
    decreases j2 - j1,
{
    if j1 < j2 {
        lemma_chunk_mono(j1, j2 - 1, n, avg);
        lemma_chunk_step(j2 - 1, n, avg);
    }
}

/// The chunks taken together hold every voxel: their sizes add up to `t`.
pub proof fn lemma_chunk_total(t: int, r: int)
    requires
        t >= 1,
        r >= 1,
    ensures
        decomp_avg(t, r) >= 1,
        decomp_n(t, r) >= 0,
        decomp_m(t, r) >= 0,
        is_decomposition(t, r, decomp_n(t, r), decomp_m(t, r), decomp_avg(t, r)),
        chunk_start(chunk_count(decomp_n(t, r), decomp_m(t, r), decomp_avg(t, r)), decomp_n(t, r), decomp_avg(t, r)) == t,
{
    let avg = decomp_avg(t, r);
    let m = decomp_m(t, r);
    let n = decomp_n(t, r);
    lemma_ceil_facts(t, r);
    assert(n * avg + m * (avg - 1) == avg * r - m) by (nonlinear_arith)
        requires
            n + m == r,
    ;
    assert(avg * r - m == t);
    if avg > 1 {
        if m == 0 {
            assert(m * (avg - 1) == 0) by (nonlinear_arith) requires m == 0;
        }
        assert(chunk_start(n + m, n, avg) == n * avg + m * (avg - 1));
    } else {
        assert(avg == 1);
        assert(n * avg == n && m * (avg - 1) == 0) by (nonlinear_arith)
            requires
                avg == 1,
        ;
    }
}

/// Bounds on the chunk length and the number of short chunks.
pub proof fn lemma_ceil_facts(t: int, r: int)
    requires
        t >= 1,
        r >= 1,
    ensures
        1 <= decomp_avg(t, r) <= t,
        0 <= decomp_m(t, r) < r,
{
    let q = ceil_div(t, r);
    vstd::arithmetic::div_mod::lemma_fundamental_div_mod(t + r - 1, r);
    vstd::arithmetic::div_mod::lemma_mod_pos_bound(t + r - 1, r);
    assert(r * q == q * r) by (nonlinear_arith);
    assert(q >= 1) by (nonlinear_arith)
        requires
            q * r >= t,
            r >= 1,
            t >= 1,
    ;
    assert(q <= t) by (nonlinear_arith)
        requires
            q * r <= t + r - 1,
            r >= 1,
            t >= 1,
    ;
}

/// The chunk that holds number `k`.
pub open spec fn chunk_of(k: int, t: int, r: int) -> int {
    let n = decomp_n(t, r);
    let avg = decomp_avg(t, r);
    if k < n * avg {
        k / avg
    } else {
        n + (k - n * avg) / (avg - 1)
    }
}

/// Each number below `t` falls in exactly one chunk.
pub proof fn lemma_chunk_of(k: int, t: int, r: int) -> (j: int)
    requires
        t >= 1,
        r >= 1,
        0 <= k < t,
    ensures
        j == chunk_of(k, t, r),
        0 <= j < chunk_count(decomp_n(t, r), decomp_m(t, r), decomp_avg(t, r)),
        chunk_start(j, decomp_n(t, r), decomp_avg(t, r)) <= k < chunk_start(j + 1, decomp_n(t, r), decomp_avg(t, r)),
{
    let avg = decomp_avg(t, r);
    let m = decomp_m(t, r);
    let n = decomp_n(t, r);
    lemma_chunk_total(t, r);
    if k < n * avg {
        let j = k / avg;
        vstd::arithmetic::div_mod::lemma_fundamental_div_mod(k, avg);
        vstd::arithmetic::div_mod::lemma_mod_pos_bound(k, avg);
        assert(0 <= j < n && j * avg <= k < (j + 1) * avg) by (nonlinear_arith)
            requires
                k == avg * j + k % avg,
                0 <= k % avg < avg,
                0 <= k < n * avg,
                avg >= 1,
        ;
        assert(j + 1 <= n);
        if avg == 1 {
            assert(n * avg == n) by (nonlinear_arith) requires avg == 1;
        }
        j
    } else {
        if avg == 1 {
            assert(n * avg == n) by (nonlinear_arith) requires avg == 1;
            assert(false);
        }
        let w = avg - 1;
        let off = k - n * avg;
        let i = off / w;
        vstd::arithmetic::div_mod::lemma_fundamental_div_mod(off, w);
        vstd::arithmetic::div_mod::lemma_mod_pos_bound(off, w);
        assert(n * avg + m * w == t);
        assert(0 <= i < m && i * w <= off < (i + 1) * w) by (nonlinear_arith)
            requires
                off == w * i + off % w,
                0 <= off % w < w,
                0 <= off < m * w,
                w >= 1,
        ;
        let j = n + i;
        assert(chunk_start(j + 1, n, avg) == n * avg + (i + 1) * w);
        j
    }
}

/// The voxel counts of the partitions add up to the number of voxels of the domain,
/// whatever number of partitions is requested.
pub proof fn lemma_partition_sizes_sum(d: CuboidModel, r: int)
    requires
        d.wf(),
        r >= 1,
    ensures
        sum_counts(Seq::new(d.n_partitions(r) as nat, |j: int| d.partition_voxels(r, j).len() as int)) == d.total(),
{
    let t = d.total();
    crate::lattice::lemma_box_size_nonneg(crate::lattice::zeros(d.n_voxels.len()), d.n_voxels);
    lemma_zeros_bounds(d.n_voxels);
    lemma_total_pos(d);
    lemma_chunk_total(t, r);
    lemma_partial_sums(d, r, d.n_partitions(r));
}

/// A domain has at least one voxel.
pub proof fn lemma_total_pos(d: CuboidModel)
    requires
        d.wf(),
    ensures
        d.total() >= 1,
{
    lemma_zeros_bounds(d.n_voxels);
    let z = crate::lattice::zeros(d.n_voxels.len());
    // The first voxel of the grid exists, so the grid is not empty.
    assert(in_grid(z, d.n_voxels)) by {
        assert forall|i: int| 0 <= i < z.len() implies z[i] <= #[trigger] z[i] < d.n_voxels[i] by {
            crate::cuboid::lemma_axis_ok(d, i);
        }
    }
    lemma_box_rank(z, z, d.n_voxels);
}

proof fn lemma_partial_sums(d: CuboidModel, r: int, p: int)
    requires
        d.wf(),
        r >= 1,
        0 <= p <= d.n_partitions(r),
        d.total() >= 1,
    ensures
        sum_counts(Seq::new(p as nat, |j: int| d.partition_voxels(r, j).len() as int))
            == chunk_start(p, decomp_n(d.total(), r), decomp_avg(d.total(), r)),
    decreases p,
{
    let t = d.total();
    lemma_chunk_total(t, r);
    let s = Seq::new(p as nat, |j: int| d.partition_voxels(r, j).len() as int);
    if p > 0 {
        lemma_partial_sums(d, r, p - 1);
        assert(s.drop_last() =~= Seq::new((p - 1) as nat, |j: int| d.partition_voxels(r, j).len() as int));
        lemma_chunk_step(p - 1, decomp_n(t, r), decomp_avg(t, r));
        let len = chunk_len(p - 1, decomp_n(t, r), decomp_avg(t, r));
        assert(len >= 1);
        assert(d.partition_voxels(r, p - 1).len() == len);
    } else {
        assert(chunk_start(0, decomp_n(t, r), decomp_avg(t, r)) == 0);
    }
}

/// Every position within the domain's boundaries lies in a voxel that belongs to
/// exactly one partition, whatever number of partitions is requested.
pub proof fn lemma_position_in_one_partition(d: CuboidModel, r: int, pos: Seq<i64>) -> (j: int)
    requires
        d.wf(),
        r >= 1,
        d.contains(pos),
    ensures
        0 <= j < d.n_partitions(r),
        d.partition_voxels(r, j).contains(d.voxel_index(pos)),
        forall|j2: int| 0 <= j2 < d.n_partitions(r) && #[trigger] d.partition_voxels(r, j2).contains(d.voxel_index(pos)) ==> j2 == j,
{
    let v = d.voxel_index(pos);
    lemma_voxel_index_in_grid(d, pos);
    let j = lemma_voxel_in_one_partition(d, r, v);
    j
}

proof fn lemma_voxel_index_in_grid(d: CuboidModel, pos: Seq<i64>)
    requires
        d.wf(),
        pos.len() == d.dim(),
    ensures
        in_grid(d.voxel_index(pos), d.n_voxels),
{
    let v = d.voxel_index(pos);
    assert forall|i: int| 0 <= i < v.len() implies crate::lattice::zeros(d.n_voxels.len())[i] <= #[trigger] v[i] < d.n_voxels[i] by {
        crate::cuboid::lemma_axis_index_bounds(d, pos[i], i);
    }
}

/// Every voxel of the grid belongs to exactly one partition.
pub proof fn lemma_voxel_in_one_partition(d: CuboidModel, r: int, v: Seq<usize>) -> (j: int)
    requires
        d.wf(),
        r >= 1,
        in_grid(v, d.n_voxels),
    ensures
        0 <= j < d.n_partitions(r),
        d.partition_voxels(r, j).contains(v),
        forall|j2: int| 0 <= j2 < d.n_partitions(r) && #[trigger] d.partition_voxels(r, j2).contains(v) ==> j2 == j,
{
    let t = d.total();
    let z = crate::lattice::zeros(d.n_voxels.len());
    lemma_zeros_bounds(d.n_voxels);
    lemma_box_rank(v, z, d.n_voxels);
    let k = grid_rank(v, d.n_voxels);
    lemma_total_pos(d);
    let j = lemma_chunk_of(k, t, r);
    let n = decomp_n(t, r);
    let avg = decomp_avg(t, r);
    lemma_chunk_total(t, r);
    lemma_chunk_step(j, n, avg);
    let pv = d.partition_voxels(r, j);
    let q = k - chunk_start(j, n, avg);
    assert(pv[q] == v);
    assert forall|j2: int| 0 <= j2 < d.n_partitions(r) && #[trigger] d.partition_voxels(r, j2).contains(v) implies j2 == j by {
        let pv2 = d.partition_voxels(r, j2);
        let q2 = choose|q2: int| 0 <= q2 < pv2.len() && pv2[q2] == v;
        let k2 = chunk_start(j2, n, avg) + q2;
        lemma_chunk_step(j2, n, avg);
        lemma_chunk_mono(j2 + 1, chunk_count(n, decomp_m(t, r), avg), n, avg);
        crate::lattice::lemma_box_nth_injective(k2, k, z, d.n_voxels);
        if j2 < j {
            lemma_chunk_mono(j2 + 1, j, n, avg);
        } else if j < j2 {
            lemma_chunk_mono(j + 1, j2, n, avg);
        }
    }
    j
}

/// Copies a list of voxel indices.
pub fn copy_voxel_list(vs: &Vec<Vec<usize>>) -> (r: Vec<Vec<usize>>)
    ensures
        index_views(r@) == index_views(vs@),
{
    let mut r: Vec<Vec<usize>> = Vec::new();
    let mut k: usize = 0;
    while k < vs.len()
        invariant
            k <= vs.len(),
            r@.len() == k,
            forall|q: int| 0 <= q < k ==> (#[trigger] r@[q])@ == vs@[q]@,
        decreases vs.len() - k,
    {
        r.push(copy_index(&vs[k]));
        k = k + 1;
    }
    assert(index_views(r@) =~= index_views(vs@));
    r
}

/// The partitions of a domain, numbered from zero: each with its number, its
/// geometry and its voxels.
pub type Partitions = Vec<(usize, CartesianSubDomain, Vec<Vec<usize>>)>;

impl CartesianCuboid {
    /// Splits the domain into at most `n_subdomains` partitions of nearly equal size.
    ///
    /// The voxels, numbered lexicographically, are cut into contiguous runs by
    /// [`get_decomp_res`]; each run becomes one partition, bounded by the box around
    /// its voxels.
    pub fn create_subdomains(&self, n_subdomains: usize) -> (r: Result<Partitions, DecomposeError>)
        requires
            self@.wf(),
            n_subdomains >= 1,
        ensures
            r is Ok <==> self@.countable(),
            r matches Err(e) ==> e == DecomposeError::TooManyVoxels,
            r matches Ok(parts) ==> {
                &&& parts.len() == self@.n_partitions(n_subdomains as int)
                &&& parts.len() <= n_subdomains
                &&& forall|j: int| 0 <= j < parts.len() ==> (#[trigger] parts[j]).0 == j
                &&& forall|j: int| 0 <= j < parts.len() ==> index_views((#[trigger] parts[j]).2@) == self@.partition_voxels(n_subdomains as int, j)
                &&& forall|j: int| 0 <= j < parts.len() ==> (#[trigger] parts[j]).1@.voxels == self@.partition_voxels(n_subdomains as int, j)
                &&& forall|j: int| 0 <= j < parts.len() ==> (#[trigger] parts[j]).1@.wf() && parts[j].1@.domain == self@
                &&& sum_counts(Seq::new(parts.len() as nat, |j: int| parts[j].2.len() as int)) == self@.total()
            },
    {
        let ghost r_req = n_subdomains as int;
        if self.count_indices().is_none() {
            return Err(DecomposeError::TooManyVoxels);
        }
        let indices = self.get_all_voxel_indices();
        let total = indices.len();
        let ghost t = self@.total();
        proof {
            lemma_total_pos(self@);
            lemma_chunk_total(t, r_req);
            lemma_ceil_facts(t, r_req);
        }
        let (n, m, avg) = match get_decomp_res(total, n_subdomains) {
            Some(res) => res,
            None => {
                return Err(DecomposeError::NoDecomposition);
            },
        };
        proof {
            assert(m as int == decomp_m(t, r_req)) by (nonlinear_arith)
                requires
                    n + m == r_req,
                    n * avg + m * (avg - 1) == t,
                    avg == decomp_avg(t, r_req),
                    decomp_m(t, r_req) == avg * r_req - t,
            ;
        }
        let count: usize = if avg > 1 { n + m } else { n };
        let mut res: Partitions = Vec::new();
        let mut j: usize = 0;
        let mut start: usize = 0;
        while j < count
            invariant
                self@.wf(),
                r_req == n_subdomains,
                t == self@.total(),
                t >= 1,
                total == t,
                indices@.len() == t,
                forall|k: int| 0 <= k < indices@.len() ==> (#[trigger] indices@[k])@ == grid_nth(k, self@.n_voxels),
                n == decomp_n(t, r_req),
                m == decomp_m(t, r_req),
                avg == decomp_avg(t, r_req),
                avg >= 1,
                count == chunk_count(n as int, m as int, avg as int),
                chunk_start(count as int, n as int, avg as int) == t,
                j <= count,
                start == chunk_start(j as int, n as int, avg as int),
                res.len() == j,
                forall|q: int| 0 <= q < j ==> (#[trigger] res@[q]).0 == q,
                forall|q: int| 0 <= q < j ==> index_views((#[trigger] res@[q]).2@) == self@.partition_voxels(r_req, q),
                forall|q: int| 0 <= q < j ==> (#[trigger] res@[q]).1@.voxels == self@.partition_voxels(r_req, q),
                forall|q: int| 0 <= q < j ==> (#[trigger] res@[q]).1@.wf() && res@[q].1@.domain == self@,
                sum_counts(Seq::new(j as nat, |q: int| res@[q].2.len() as int)) == start,
            decreases count - j,
        {
            proof {
                lemma_chunk_step(j as int, n as int, avg as int);
                lemma_chunk_mono(j as int + 1, count as int, n as int, avg as int);
            }
            let len: usize = if j < n { avg } else { avg - 1 };
            let mut voxels: Vec<Vec<usize>> = Vec::new();
            let mut q: usize = 0;
            while q < len
                invariant
                    q <= len,
                    start + len <= total,
                    total == t,
                    indices@.len() == t,
                    forall|k: int| 0 <= k < indices@.len() ==> (#[trigger] indices@[k])@ == grid_nth(k, self@.n_voxels),
                    voxels@.len() == q,
                    forall|p: int| 0 <= p < q ==> (#[trigger] voxels@[p])@ == grid_nth(start + p, self@.n_voxels),
                decreases len - q,
            {
                voxels.push(copy_index(&indices[start + q]));
                q = q + 1;
            }
            proof {
                assert(index_views(voxels@) =~= self@.partition_voxels(r_req, j as int));
                lemma_zeros_bounds(self@.n_voxels);
                assert forall|k: int| 0 <= k < voxels.len() implies in_grid((#[trigger] voxels@[k])@, self@.n_voxels) by {
                    lemma_box_nth(start + k, crate::lattice::zeros(self@.n_voxels.len()), self@.n_voxels);
                }
            }
            let copied = copy_voxel_list(&voxels);
            proof {
                assert forall|k: int| 0 <= k < copied.len() implies in_grid((#[trigger] copied@[k])@, self@.n_voxels) by {
                    assert(index_views(copied@)[k] == index_views(voxels@)[k]);
                    assert(in_grid(voxels@[k]@, self@.n_voxels));
                }
            }
            let sub = CartesianSubDomain::new(self, copied);
            let ghost old_res = res@;
            res.push((j, sub, voxels));
            proof {
                let c_old = Seq::new(j as nat, |q: int| old_res[q].2.len() as int);
                let c_new = Seq::new(j as nat + 1, |q: int| res@[q].2.len() as int);
                assert(c_new.drop_last() =~= c_old);
            }
            start = start + len;
            j = j + 1;
        }
        proof {
            assert(count <= n_subdomains);
        }
        Ok(res)
    }
}

} // verus!
