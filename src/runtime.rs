//! The update rules that one partition applies between the synchronisation
//! points of a step: which entities leave, where they go, where arriving entities
//! and force replies belong.
//!
//! A voxel's dense index ("plain index") is its number in the lexicographic
//! enumeration of the grid; the partition that owns a voxel is the chunk of the
//! decomposition that holds that number.
use vstd::prelude::*;
use vstd::multiset::Multiset;
use crate::cell::{CellAgentBox, Id, Mechanics};
use crate::cuboid::{lemma_grid_size_prefix_mono, lemma_grid_size_step, CartesianCuboid, CuboidModel};
use crate::decomposition::get_decomp_res;
use crate::errors::{BoundaryError, CalcError, IndexError};
use crate::integrator::AuxiliaryCellPropertyStorage;
use crate::lattice::{box_rank, grid_nth, grid_rank, grid_size, in_grid, lemma_box_nth, lemma_box_rank, lemma_zeros_bounds, zeros};
use crate::subdomain::{is_moore_neighbor, CartesianSubDomain};
use crate::partition::{chunk_count, chunk_of, chunk_start, decomp_avg, decomp_m, decomp_n, lemma_ceil_facts, lemma_chunk_of, lemma_chunk_total, lemma_total_pos};

verus! {

/// A dense index of a voxel, assigned once at decomposition.
pub type PlainIndex = u64;

/// What went wrong during a step; every kind is fatal for the run.
#[derive(Clone, Copy, Debug, PartialEq, Eq, Structural)]
pub enum SimulationError {
    Calc(CalcError),
    Boundary(BoundaryError),
    Index(IndexError),
}

#[verifier::external_type_specification]
#[verifier::external_body]
pub struct ExChaCha8Rng(rand_chacha::ChaCha8Rng);

/// Relies on rand_core's `SeedableRng::seed_from_u64` for `ChaCha8Rng`: a generator
/// whose stream is fixed by the seed.
#[verifier::external_body]
fn rng_from_seed(seed: u64) -> rand_chacha::ChaCha8Rng {
    <rand_chacha::ChaCha8Rng as rand::SeedableRng>::seed_from_u64(seed)
}

/// The dense index of the voxel that holds `pos`.
pub open spec fn plain_of(d: CuboidModel, pos: Seq<i64>) -> int {
    grid_rank(d.voxel_index(pos), d.n_voxels)
}

/// The partition that owns the voxel with dense index `k` when `r` partitions were
/// requested.
pub open spec fn owner_of(d: CuboidModel, r: int, k: int) -> int {
    chunk_of(k, d.total(), r)
}

proof fn lemma_rank_step(v: Seq<usize>, n: Seq<usize>, i: int)
    requires
        0 <= i < v.len(),
        v.len() == n.len(),
    ensures
        box_rank(v.take(i + 1), zeros((i + 1) as nat), n.take(i + 1))
            == box_rank(v.take(i), zeros(i as nat), n.take(i)) * n[i] + v[i],
{
    assert(v.take(i + 1).drop_last() =~= v.take(i));
    assert(zeros((i + 1) as nat).drop_last() =~= zeros(i as nat));
    assert(n.take(i + 1).drop_last() =~= n.take(i));
}

/// The dense index of voxel `v`.
pub fn plain_index_of(d: &CartesianCuboid, v: &Vec<usize>) -> (r: usize)
    requires
        d@.wf(),
        d@.countable(),
        in_grid(v@, d@.n_voxels),
    ensures
        r == grid_rank(v@, d@.n_voxels),
        r < d@.total(),
{
    let n = d.get_n_voxels();
    let ghost nn = d@.n_voxels;
    proof {
        assert forall|k: int| 0 <= k < nn.len() implies nn[k] >= 1 by {
            crate::cuboid::lemma_axis_ok(d@, k);
        }
        assert(nn.take(nn.len() as int) =~= nn);
    }
    let mut r: usize = 0;
    let mut i: usize = 0;
    while i < v.len()
        invariant
            d@.wf(),
            d@.countable(),
            n@ == nn,
            nn == d@.n_voxels,
            in_grid(v@, nn),
            forall|k: int| 0 <= k < nn.len() ==> nn[k] >= 1,
            nn.take(nn.len() as int) == nn,
            i <= v.len(),
            r == box_rank(v@.take(i as int), zeros(i as nat), nn.take(i as int)),
            r < grid_size(nn.take(i as int)),
        decreases v.len() - i,
    {
        proof {
            lemma_rank_step(v@, nn, i as int);
            lemma_grid_size_step(nn, i as int);
            lemma_grid_size_prefix_mono(nn, i as int + 1, nn.len() as int);
            assert(zeros(nn.len())[i as int] <= v@[i as int] < nn[i as int]);
            let s = grid_size(nn.take(i as int));
            assert(r * nn[i as int] + v@[i as int] < s * nn[i as int]) by (nonlinear_arith)
                requires
                    r < s,
                    v@[i as int] < nn[i as int],
            ;
        }
        r = r * n[i] + v[i];
        i = i + 1;
    }
    proof {
        assert(v@.take(v.len() as int) =~= v@);
        assert(zeros(v.len() as nat) =~= zeros(nn.len()));
    }
    r
}

/// The partition that owns the voxel with dense index `plain`.
pub fn owner_of_plain(d: &CartesianCuboid, n_subdomains: usize, plain: usize) -> (r: usize)
    requires
        d@.wf(),
        d@.countable(),
        n_subdomains >= 1,
        plain < d@.total(),
    ensures
        r == owner_of(d@, n_subdomains as int, plain as int),
        r < d@.n_partitions(n_subdomains as int),
        chunk_start(r as int, decomp_n(d@.total(), n_subdomains as int), decomp_avg(d@.total(), n_subdomains as int)) <= plain,
        plain < chunk_start(r as int + 1, decomp_n(d@.total(), n_subdomains as int), decomp_avg(d@.total(), n_subdomains as int)),
{
    let total = d.get_n_indices();
    let ghost t = d@.total();
    let ghost rr = n_subdomains as int;
    proof {
        lemma_total_pos(d@);
        lemma_chunk_total(t, rr);
        lemma_ceil_facts(t, rr);
        let j = lemma_chunk_of(plain as int, t, rr);
    }
    let (n, m, avg) = match get_decomp_res(total, n_subdomains) {
        Some(x) => x,
        None => {
            return 0;
        },
    };
    proof {
        assert(m as int == decomp_m(t, rr)) by (nonlinear_arith)
            requires
                n + m == rr,
                n * avg + m * (avg - 1) == t,
                avg == decomp_avg(t, rr),
                decomp_m(t, rr) == avg * rr - t,
        ;
        assert(n * avg <= t) by (nonlinear_arith)
            requires
                n * avg + m * (avg - 1) == t,
                m >= 0,
                avg >= 1,
        ;
    }
    let full: usize = n * avg;
    if plain < full {
        plain / avg
    } else {
        n + (plain - full) / (avg - 1)
    }
}

/// The elements of `v` in reverse order.
pub fn reversed<T>(v: Vec<T>) -> (r: Vec<T>)
    ensures
        r@.len() == v@.len(),
        forall|q: int| 0 <= q < v@.len() ==> #[trigger] r@[q] == v@[v@.len() - 1 - q],
{
    let ghost all = v@;
    let mut rest = v;
    let mut r: Vec<T> = Vec::new();
    while rest.len() > 0
        invariant
            rest@.len() + r@.len() == all.len(),
            rest@ == all.take(rest@.len() as int),
            forall|q: int| 0 <= q < r@.len() ==> #[trigger] r@[q] == all[all.len() - 1 - q],
        decreases rest.len(),
    {
        let x = rest.pop().unwrap();
        proof {
            assert(rest@ =~= all.take(rest@.len() as int));
        }
        r.push(x);
    }
    r
}

/// A voxel of a partition with the entities in it.
pub struct VoxelBox<C> {
    pub plain_index: PlainIndex,
    pub index: Vec<usize>,
    /// Dense indices of the voxel's Moore neighbors.
    pub neighbors: Vec<PlainIndex>,
    pub cells: Vec<(CellAgentBox<C>, AuxiliaryCellPropertyStorage)>,
    /// Entities created during this step that still await an identifier.
    pub new_cells: Vec<C>,
    /// How many entities this voxel has created or received at its construction.
    pub uuid_counter: u64,
    pub rng: rand_chacha::ChaCha8Rng,
}

impl<C> VoxelBox<C> {
    /// A voxel with dense index `plain_index` holding `cells`, each with fresh
    /// integrator storage for `dim` dimensions. Its random generator is seeded
    /// from the dense index alone, so runs repeat whatever the threads do.
    pub fn new(
        plain_index: PlainIndex,
        index: Vec<usize>,
        neighbors: Vec<PlainIndex>,
        cells: Vec<CellAgentBox<C>>,
        dim: usize,
    ) -> (r: Self)
        ensures
            r.plain_index == plain_index,
            r.index == index,
            r.neighbors == neighbors,
            r.cells@.len() == cells@.len(),
            forall|k: int| 0 <= k < cells@.len() ==> (#[trigger] r.cells@[k]).0 == cells@[k],
            forall|k: int| 0 <= k < cells@.len() ==> {
                &&& crate::cycle::fresh_storage((#[trigger] r.cells@[k]).1, dim as nat)
                &&& r.cells@[k].1.order() == crate::integrator::IntegratorOrder::Euler
            },
            r.new_cells@.len() == 0,
            r.uuid_counter == cells@.len(),
    {
        let n_cells = cells.len() as u64;
        let mut boxed: Vec<(CellAgentBox<C>, AuxiliaryCellPropertyStorage)> = Vec::new();
        let ghost all = cells@;
        let mut reversed = reversed(cells);
        while reversed.len() > 0
            invariant
                reversed@.len() + boxed@.len() == all.len(),
                forall|q: int| 0 <= q < reversed@.len() ==> #[trigger] reversed@[q] == all[all.len() - 1 - q],
                forall|q: int| 0 <= q < boxed@.len() ==> (#[trigger] boxed@[q]).0 == all[q],
                forall|q: int| 0 <= q < boxed@.len() ==> {
                    &&& crate::cycle::fresh_storage((#[trigger] boxed@[q]).1, dim as nat)
                    &&& boxed@[q].1.order() == crate::integrator::IntegratorOrder::Euler
                },
            decreases reversed.len(),
        {
            let c = reversed.pop().unwrap();
            boxed.push((c, AuxiliaryCellPropertyStorage::new(dim)));
        }
        VoxelBox {
            plain_index,
            index,
            neighbors,
            cells: boxed,
            new_cells: Vec::new(),
            uuid_counter: n_cells,
            rng: rng_from_seed(plain_index.wrapping_mul(10)),
        }
    }
}

/// The number of entities held by the voxels `vs`.
pub open spec fn cell_count<C>(vs: Seq<VoxelBox<C>>) -> int
    decreases vs.len(),
{
    if vs.len() == 0 {
        0
    } else {
        cell_count(vs.drop_last()) + vs.last().cells@.len()
    }
}

proof fn lemma_cell_count_update<C>(vs: Seq<VoxelBox<C>>, k: int, x: VoxelBox<C>)
    requires
        0 <= k < vs.len(),
    ensures
        cell_count(vs.update(k, x)) == cell_count(vs) - vs[k].cells@.len() + x.cells@.len(),
    decreases vs.len(),
{
    let u = vs.update(k, x);
    if k == vs.len() - 1 {
        assert(u.drop_last() =~= vs.drop_last());
    } else {
        lemma_cell_count_update(vs.drop_last(), k, x);
        assert(u.drop_last() =~= vs.drop_last().update(k, x));
    }
}

/// Partition `j` holds at least one voxel, and its voxels have dense indices below
/// the number of voxels.
pub proof fn lemma_partition_span(d: CuboidModel, r: int, j: int)
    requires
        d.wf(),
        r >= 1,
        0 <= j < d.n_partitions(r),
    ensures
        d.partition_voxels(r, j).len() >= 1,
        0 <= chunk_start(j, decomp_n(d.total(), r), decomp_avg(d.total(), r)),
        chunk_start(j, decomp_n(d.total(), r), decomp_avg(d.total(), r)) + d.partition_voxels(r, j).len() <= d.total(),
{
    let t = d.total();
    let n = decomp_n(t, r);
    let avg = decomp_avg(t, r);
    lemma_total_pos(d);
    lemma_chunk_total(t, r);
    crate::partition::lemma_chunk_step(j, n, avg);
    crate::partition::lemma_chunk_mono(j + 1, chunk_count(n, decomp_m(t, r), avg), n, avg);
}

/// Every entity of the voxels `vs`, voxel after voxel.
pub open spec fn all_cells<C>(vs: Seq<VoxelBox<C>>) -> Seq<(CellAgentBox<C>, AuxiliaryCellPropertyStorage)>
    decreases vs.len(),
{
    if vs.len() == 0 {
        Seq::empty()
    } else {
        all_cells(vs.drop_last()) + vs.last().cells@
    }
}

/// The entities of routed pairs.
pub open spec fn routed_cells<C>(out: Seq<(usize, (CellAgentBox<C>, AuxiliaryCellPropertyStorage))>) -> Seq<(CellAgentBox<C>, AuxiliaryCellPropertyStorage)> {
    Seq::new(out.len(), |q: int| out[q].1)
}

proof fn lemma_all_cells_update<C>(vs: Seq<VoxelBox<C>>, k: int, x: VoxelBox<C>)
    requires
        0 <= k < vs.len(),
    ensures
        all_cells(vs.update(k, x)).to_multiset().add(vs[k].cells@.to_multiset())
            =~= all_cells(vs).to_multiset().add(x.cells@.to_multiset()),
    decreases vs.len(),
{
    broadcast use vstd::multiset::group_multiset_axioms;
    let u = vs.update(k, x);
    let l = vs.last().cells@;
    let lhs = all_cells(u).to_multiset().add(vs[k].cells@.to_multiset());
    let rhs = all_cells(vs).to_multiset().add(x.cells@.to_multiset());
    if k == vs.len() - 1 {
        assert(u.drop_last() =~= vs.drop_last());
        let a = all_cells(vs.drop_last());
        assert(all_cells(u) == a + x.cells@);
        assert(all_cells(vs) == a + vs[k].cells@);
        vstd::seq_lib::lemma_multiset_commutative(a, x.cells@);
        vstd::seq_lib::lemma_multiset_commutative(a, vs[k].cells@);
        assert forall|v| #[trigger] lhs.count(v) == rhs.count(v) by {
            assert(lhs.count(v) == a.to_multiset().count(v) + x.cells@.to_multiset().count(v) + vs[k].cells@.to_multiset().count(v));
        }
    } else {
        let d = vs.drop_last();
        lemma_all_cells_update(d, k, x);
        assert(d[k] == vs[k]);
        assert(u.drop_last() =~= d.update(k, x));
        assert(u.last() == vs.last());
        assert(all_cells(u) == all_cells(d.update(k, x)) + l);
        assert(all_cells(vs) == all_cells(d) + l);
        vstd::seq_lib::lemma_multiset_commutative(all_cells(d.update(k, x)), l);
        vstd::seq_lib::lemma_multiset_commutative(all_cells(d), l);
        let ih_l = all_cells(d.update(k, x)).to_multiset().add(vs[k].cells@.to_multiset());
        let ih_r = all_cells(d).to_multiset().add(x.cells@.to_multiset());
        assert forall|v| #[trigger] lhs.count(v) == rhs.count(v) by {
            assert(ih_l.count(v) == ih_r.count(v));
        }
    }
}

/// An entity among all those of the voxels `vs` sits in one of them.
proof fn lemma_all_cells_index<C>(vs: Seq<VoxelBox<C>>, x: (CellAgentBox<C>, AuxiliaryCellPropertyStorage))
    requires
        all_cells(vs).contains(x),
    ensures
        exists|k: int, c: int| 0 <= k < vs.len() && 0 <= c < vs[k].cells@.len() && #[trigger] vs[k].cells@[c] == x,
    decreases vs.len(),
{
    let d = vs.drop_last();
    let l = vs.last().cells@;
    assert(all_cells(vs) == all_cells(d) + l);
    let i = choose|i: int| 0 <= i < all_cells(vs).len() && all_cells(vs)[i] == x;
    if i < all_cells(d).len() {
        assert(all_cells(d)[i] == x);
        lemma_all_cells_index(d, x);
        let (k, c) = choose|k: int, c: int| 0 <= k < d.len() && 0 <= c < d[k].cells@.len() && #[trigger] d[k].cells@[c] == x;
        assert(vs[k] == d[k]);
    } else {
        let c = i - all_cells(d).len();
        assert(l[c] == x);
        assert(vs[vs.len() - 1].cells@[c] == x);
    }
}

/// A sequence with no elements gives the empty multiset.
proof fn lemma_empty_to_multiset<A>(s: Seq<A>)
    requires
        s.len() == 0,
    ensures
        s.to_multiset() =~= Multiset::empty(),
{
    broadcast use vstd::multiset::group_multiset_axioms;
    broadcast use vstd::seq_lib::group_to_multiset_ensures;
    assert(s =~= Seq::empty());
    assert forall|a: A| s.to_multiset().count(a) == 0 by {
        assert(!s.contains(a));
    }
}

/// The voxels of one partition, run by one worker, and the geometry it needs to
/// route entities and messages.
pub struct MultiVoxelContainer<C> {
    pub voxels: Vec<VoxelBox<C>>,
    pub domain: CartesianCuboid,
    /// How many partitions the domain was asked to split into.
    pub n_subdomains: usize,
    /// The number of this partition.
    pub mvc_id: usize,
}

impl<C: Mechanics> MultiVoxelContainer<C> {
    /// The dense index of the first voxel of this partition.
    pub open spec fn first_plain(&self) -> int {
        let t = self.domain@.total();
        chunk_start(self.mvc_id as int, decomp_n(t, self.n_subdomains as int), decomp_avg(t, self.n_subdomains as int))
    }

    /// The voxels are those of partition `mvc_id`, in order of their dense indices.
    pub open spec fn wf(&self) -> bool {
        &&& self.domain@.wf()
        &&& self.domain@.countable()
        &&& self.n_subdomains >= 1
        &&& self.mvc_id < self.domain@.n_partitions(self.n_subdomains as int)
        &&& self.voxels@.len() == self.domain@.partition_voxels(self.n_subdomains as int, self.mvc_id as int).len()
        &&& forall|k: int| 0 <= k < self.voxels@.len() ==> (#[trigger] self.voxels@[k]).plain_index == self.first_plain() + k
        &&& forall|k: int| 0 <= k < self.voxels@.len() ==> (#[trigger] self.voxels@[k]).index@ == grid_nth(self.first_plain() + k, self.domain@.n_voxels)
    }

    /// This partition owns the voxel with dense index `plain`.
    pub open spec fn owns(&self, plain: int) -> bool {
        self.first_plain() <= plain < self.first_plain() + self.voxels@.len()
    }

    /// Every entity sits in the voxel that holds its position.
    pub open spec fn placed(&self) -> bool {
        forall|k: int, c: int| 0 <= k < self.voxels@.len() && 0 <= c < self.voxels@[k].cells@.len() ==> {
            &&& (#[trigger] self.voxels@[k].cells@[c]).0.pos_view().len() == self.domain@.dim()
            &&& plain_of(self.domain@, self.voxels@[k].cells@[c].0.pos_view()) == self.voxels@[k].plain_index
        }
    }

    /// The same voxels, each possibly with other entities.
    pub open spec fn same_voxels(&self, other: &Self) -> bool {
        &&& self.domain@ == other.domain@
        &&& self.n_subdomains == other.n_subdomains
        &&& self.mvc_id == other.mvc_id
        &&& self.voxels@.len() == other.voxels@.len()
        &&& forall|k: int| 0 <= k < self.voxels@.len() ==> (#[trigger] self.voxels@[k]).plain_index == other.voxels@[k].plain_index
        &&& forall|k: int| 0 <= k < self.voxels@.len() ==> (#[trigger] self.voxels@[k]).index == other.voxels@[k].index
        &&& forall|k: int| 0 <= k < self.voxels@.len() ==> (#[trigger] self.voxels@[k]).neighbors == other.voxels@[k].neighbors
    }

    /// The dense index of the voxel that holds `pos`.
    fn locate(&self, pos: &Vec<i64>) -> (r: usize)
        requires
            self.wf(),
            pos@.len() == self.domain@.dim(),
        ensures
            r == plain_of(self.domain@, pos@),
            r < self.domain@.total(),
    {
        let v = self.domain.get_voxel_index_clamped(pos);
        plain_index_of(&self.domain, &v)
    }

    /// Moves every entity into the voxel that holds its position.
    ///
    /// Entities whose voxel belongs to this partition stay here; the others are
    /// returned, each with the number of the partition that owns its voxel, to be
    /// sent there. Every entity keeps its integrator storage, so that a run does
    /// not depend on how the domain was split.
    pub fn sort_cells_in_voxels(&mut self) -> (r: Result<Vec<(usize, (CellAgentBox<C>, AuxiliaryCellPropertyStorage))>, SimulationError>)
        requires
            old(self).wf(),
        ensures
            final(self).wf(),
            final(self).same_voxels(old(self)),
            r matches Ok(out) ==> {
                &&& final(self).placed()
                &&& cell_count(final(self).voxels@) + out@.len() == cell_count(old(self).voxels@)
                &&& all_cells(final(self).voxels@).to_multiset().add(routed_cells(out@).to_multiset())
                    == all_cells(old(self).voxels@).to_multiset()
                &&& forall|q: int| 0 <= q < out@.len() ==> {
                    &&& (#[trigger] out@[q]).1.0.pos_view().len() == old(self).domain@.dim()
                    &&& out@[q].0 == owner_of(old(self).domain@, old(self).n_subdomains as int, plain_of(old(self).domain@, out@[q].1.0.pos_view()))
                    &&& !old(self).owns(plain_of(old(self).domain@, out@[q].1.0.pos_view()))
                }
            },
            r is Ok <==> forall|x| #[trigger] all_cells(old(self).voxels@).contains(x)
                ==> x.0.pos_view().len() == old(self).domain@.dim(),
            r matches Err(e) ==> e == SimulationError::Boundary(BoundaryError::DimensionMismatch),
    {
        let ghost start_count = cell_count(self.voxels@);
        let ghost start_cells = all_cells(self.voxels@).to_multiset();
        proof {
            broadcast use vstd::multiset::group_multiset_axioms;
            lemma_empty_to_multiset(Seq::<(CellAgentBox<C>, AuxiliaryCellPropertyStorage)>::empty());
            assert(start_cells.add(Multiset::empty()) =~= start_cells);
        }
        let dim = self.domain.dim();
        // Take every entity out of its voxel.
        let mut pending: Vec<(CellAgentBox<C>, AuxiliaryCellPropertyStorage)> = Vec::new();
        proof {
            assert(pending@ =~= Seq::<(CellAgentBox<C>, AuxiliaryCellPropertyStorage)>::empty());
        }
        let mut k: usize = 0;
        while k < self.voxels.len()
            invariant
                self.wf(),
                self.same_voxels(old(self)),
                k <= self.voxels@.len(),
                forall|q: int| 0 <= q < k ==> (#[trigger] self.voxels@[q]).cells@.len() == 0,
                cell_count(self.voxels@) + pending@.len() == start_count,
                all_cells(self.voxels@).to_multiset().add(pending@.to_multiset()) == start_cells,
                start_cells == all_cells(old(self).voxels@).to_multiset(),
            decreases self.voxels@.len() - k,
        {
            let mut taken: Vec<(CellAgentBox<C>, AuxiliaryCellPropertyStorage)> = Vec::new();
            let ghost before = self.voxels@;
            std::mem::swap(&mut taken, &mut self.voxels[k].cells);
            let ghost pending_before = pending@;
            proof {
                lemma_cell_count_update(before, k as int, self.voxels@[k as int]);
                assert(self.voxels@ == before.update(k as int, self.voxels@[k as int]));
                lemma_all_cells_update(before, k as int, self.voxels@[k as int]);
            }
            pending.append(&mut taken);
            proof {
                broadcast use vstd::multiset::group_multiset_axioms;
                broadcast use vstd::seq_lib::lemma_multiset_commutative;
                let taken_cells = before[k as int].cells@;
                assert(pending@ == pending_before + taken_cells);
                lemma_empty_to_multiset(self.voxels@[k as int].cells@);
                vstd::seq_lib::lemma_multiset_commutative(pending_before, taken_cells);
                let now = all_cells(self.voxels@).to_multiset();
                let was = all_cells(before).to_multiset();
                assert forall|v| #[trigger] now.add(pending@.to_multiset()).count(v) == start_cells.count(v) by {
                    assert(now.add(taken_cells.to_multiset()).count(v) == was.add(Multiset::empty()).count(v));
                    assert(was.add(pending_before.to_multiset()).count(v) == start_cells.count(v));
                }
                assert(all_cells(self.voxels@).to_multiset().add(pending@.to_multiset()) =~= start_cells);
            }
            k = k + 1;
        }
        proof {
            assert(self.placed());
        }
        // Put each entity where it belongs.
        let ghost pending_all = pending@;
        let mut rest = reversed(pending);
        proof {
            assert(rest@ =~= pending_all.reverse());
            pending_all.lemma_reverse_to_multiset();
        }
        let mut out: Vec<(usize, (CellAgentBox<C>, AuxiliaryCellPropertyStorage))> = Vec::new();
        proof {
            lemma_partition_span(self.domain@, self.n_subdomains as int, self.mvc_id as int);
        }
        let first: usize = self.voxels[0].plain_index as usize;
        proof {
            lemma_partition_span(self.domain@, self.n_subdomains as int, self.mvc_id as int);
        }
        proof {
            broadcast use vstd::multiset::group_multiset_axioms;
            lemma_empty_to_multiset(routed_cells(out@));
            assert(all_cells(self.voxels@).to_multiset().add(rest@.to_multiset()).add(routed_cells(out@).to_multiset()) =~= start_cells);
        }
        while rest.len() > 0
            invariant
                self.wf(),
                self.same_voxels(old(self)),
                self.placed(),
                dim == self.domain@.dim(),
                self.voxels@.len() >= 1,
                first == self.first_plain(),
                cell_count(self.voxels@) + rest@.len() + out@.len() == start_count,
                all_cells(self.voxels@).to_multiset().add(rest@.to_multiset()).add(routed_cells(out@).to_multiset()) == start_cells,
                start_cells == all_cells(old(self).voxels@).to_multiset(),
                forall|q: int| 0 <= q < out@.len() ==> {
                    &&& (#[trigger] out@[q]).1.0.pos_view().len() == old(self).domain@.dim()
                    &&& out@[q].0 == owner_of(old(self).domain@, old(self).n_subdomains as int, plain_of(old(self).domain@, out@[q].1.0.pos_view()))
                    &&& !old(self).owns(plain_of(old(self).domain@, out@[q].1.0.pos_view()))
                },
            decreases rest.len(),
        {
            let ghost rest_before = rest@;
            let ghost out_before = out@;
            let (c, aux) = rest.pop().unwrap();
            proof {
                broadcast use vstd::seq_lib::to_multiset_build;
                assert(rest_before =~= rest@.push((c, aux)));
                assert(rest_before.to_multiset() =~= rest@.to_multiset().insert((c, aux)));
            }
            let pos = c.pos();
            if pos.len() != dim {
                proof {
                    broadcast use vstd::multiset::group_multiset_axioms;
                    broadcast use vstd::seq_lib::group_to_multiset_ensures;
                    let x = (c, aux);
                    assert(rest_before.to_multiset().count(x) > 0);
                    assert(start_cells.count(x) > 0);
                    assert(all_cells(old(self).voxels@).contains(x));
                }
                return Err(SimulationError::Boundary(BoundaryError::DimensionMismatch));
            }
            let p = self.locate(&pos);
            if first <= p && p - first < self.voxels.len() {
                let ghost before = self.voxels@;
                let idx = p - first;
                self.voxels[idx].cells.push((c, aux));
                proof {
                    lemma_cell_count_update(before, idx as int, self.voxels@[idx as int]);
                    assert(self.voxels@ == before.update(idx as int, self.voxels@[idx as int]));
                    assert forall|k: int, q: int| 0 <= k < self.voxels@.len() && 0 <= q < self.voxels@[k].cells@.len() implies {
                        &&& (#[trigger] self.voxels@[k].cells@[q]).0.pos_view().len() == self.domain@.dim()
                        &&& plain_of(self.domain@, self.voxels@[k].cells@[q].0.pos_view()) == self.voxels@[k].plain_index
                    } by {
                        if k != idx || q < before[k].cells@.len() {
                            assert(self.voxels@[k].cells@[q] == before[k].cells@[q]);
                        }
                    }
                    lemma_all_cells_update(before, idx as int, self.voxels@[idx as int]);
                    broadcast use vstd::multiset::group_multiset_axioms;
                    broadcast use vstd::seq_lib::to_multiset_build;
                    let old_cells = before[idx as int].cells@;
                    assert(self.voxels@[idx as int].cells@ == old_cells.push((c, aux)));
                    assert(old_cells.push((c, aux)).to_multiset() =~= old_cells.to_multiset().insert((c, aux)));
                    let now = all_cells(self.voxels@).to_multiset();
                    let was = all_cells(before).to_multiset();
                    assert forall|v| #[trigger] now.count(v) == was.insert((c, aux)).count(v) by {
                        assert(now.add(old_cells.to_multiset()).count(v) == was.add(old_cells.push((c, aux)).to_multiset()).count(v));
                    }
                    assert(all_cells(self.voxels@).to_multiset() =~= all_cells(before).to_multiset().insert((c, aux)));
                    assert(all_cells(self.voxels@).to_multiset().add(rest@.to_multiset()).add(routed_cells(out@).to_multiset()) =~= start_cells);
                }
            } else {
                let t = owner_of_plain(&self.domain, self.n_subdomains, p);
                out.push((t, (c, aux)));
                proof {
                    broadcast use vstd::multiset::group_multiset_axioms;
                    broadcast use vstd::seq_lib::to_multiset_build;
                    assert(routed_cells(out@) =~= routed_cells(out_before).push((c, aux)));
                    assert(all_cells(self.voxels@).to_multiset().add(rest@.to_multiset()).add(routed_cells(out@).to_multiset()) =~= start_cells);
                }
            }
        }
        proof {
            broadcast use vstd::multiset::group_multiset_axioms;
            broadcast use vstd::seq_lib::group_to_multiset_ensures;
            lemma_empty_to_multiset(rest@);
            assert(all_cells(self.voxels@).to_multiset().add(routed_cells(out@).to_multiset()) =~= start_cells);
            assert forall|x| #[trigger] all_cells(old(self).voxels@).contains(x) implies x.0.pos_view().len() == old(self).domain@.dim() by {
                assert(start_cells.count(x) > 0);
                if all_cells(self.voxels@).to_multiset().count(x) > 0 {
                    assert(all_cells(self.voxels@).contains(x));
                    lemma_all_cells_index(self.voxels@, x);
                    let (k, c) = choose|k: int, c: int| 0 <= k < self.voxels@.len() && 0 <= c < self.voxels@[k].cells@.len()
                        && #[trigger] self.voxels@[k].cells@[c] == x;
                    assert(self.voxels@[k].cells@[c].0.pos_view().len() == self.domain@.dim());
                } else {
                    assert(routed_cells(out@).to_multiset().count(x) > 0);
                    assert(routed_cells(out@).contains(x));
                    let q = choose|q: int| 0 <= q < routed_cells(out@).len() && routed_cells(out@)[q] == x;
                    assert(out@[q].1 == x);
                }
            }
        }
        Ok(out)
    }

    /// Puts an entity received from another partition, with its integrator
    /// storage, into the voxel that holds its position. An entity whose voxel this
    /// partition does not own means the routing is broken: it is an error and
    /// nothing changes.
    pub fn sort_cell_in_voxel(&mut self, cell: (CellAgentBox<C>, AuxiliaryCellPropertyStorage)) -> (r: Result<(), SimulationError>)
        requires
            old(self).wf(),
            old(self).placed(),
        ensures
            final(self).wf(),
            final(self).placed(),
            final(self).same_voxels(old(self)),
            r is Ok <==> cell.0.pos_view().len() == old(self).domain@.dim()
                && old(self).owns(plain_of(old(self).domain@, cell.0.pos_view())),
            r is Ok ==> cell_count(final(self).voxels@) == cell_count(old(self).voxels@) + 1,
            r is Ok ==> {
                let k = plain_of(old(self).domain@, cell.0.pos_view()) - old(self).first_plain();
                let cells = final(self).voxels@[k].cells@;
                &&& cells.len() == old(self).voxels@[k].cells@.len() + 1
                &&& cells.last() == cell
            },
            r is Err ==> final(self).voxels@ == old(self).voxels@,
    {
        let dim = self.domain.dim();
        let pos = cell.0.pos();
        if pos.len() != dim {
            return Err(SimulationError::Boundary(BoundaryError::DimensionMismatch));
        }
        let p = self.locate(&pos);
        proof {
            lemma_partition_span(self.domain@, self.n_subdomains as int, self.mvc_id as int);
        }
        let first: usize = self.voxels[0].plain_index as usize;
        if first <= p && p - first < self.voxels.len() {
            let ghost before = self.voxels@;
            let idx = p - first;
            self.voxels[idx].cells.push(cell);
            proof {
                lemma_cell_count_update(before, idx as int, self.voxels@[idx as int]);
                assert(self.voxels@ == before.update(idx as int, self.voxels@[idx as int]));
                assert forall|k: int, q: int| 0 <= k < self.voxels@.len() && 0 <= q < self.voxels@[k].cells@.len() implies {
                    &&& (#[trigger] self.voxels@[k].cells@[q]).0.pos_view().len() == self.domain@.dim()
                    &&& plain_of(self.domain@, self.voxels@[k].cells@[q].0.pos_view()) == self.voxels@[k].plain_index
                } by {
                    if k != idx || q < before[k].cells@.len() {
                        assert(self.voxels@[k].cells@[q] == before[k].cells@[q]);
                    }
                }
            }
            Ok(())
        } else {
            Err(SimulationError::Index(IndexError::UnknownVoxel { plain_index: p as u64 }))
        }
    }
}

/// The entity at `pos` belongs to the partition numbered `owner_of` its voxel's
/// dense index: that partition's voxels hold the entity's voxel, and no other
/// partition's do.
pub proof fn lemma_migration_target(d: CuboidModel, r: int, pos: Seq<i64>)
    requires
        d.wf(),
        r >= 1,
        pos.len() == d.dim(),
    ensures
        0 <= owner_of(d, r, plain_of(d, pos)) < d.n_partitions(r),
        d.partition_voxels(r, owner_of(d, r, plain_of(d, pos))).contains(d.voxel_index(pos)),
        forall|j: int| 0 <= j < d.n_partitions(r) && #[trigger] d.partition_voxels(r, j).contains(d.voxel_index(pos))
            ==> j == owner_of(d, r, plain_of(d, pos)),
{
    let v = d.voxel_index(pos);
    let t = d.total();
    let z = zeros(d.n_voxels.len());
    assert(in_grid(v, d.n_voxels)) by {
        assert forall|i: int| 0 <= i < v.len() implies z[i] <= #[trigger] v[i] < d.n_voxels[i] by {
            crate::cuboid::lemma_axis_index_bounds(d, pos[i], i);
        }
    }
    let j = crate::partition::lemma_voxel_in_one_partition(d, r, v);
    lemma_zeros_bounds(d.n_voxels);
    lemma_box_rank(v, z, d.n_voxels);
    lemma_total_pos(d);
    let k = lemma_chunk_of(plain_of(d, pos), t, r);
    let n = decomp_n(t, r);
    let avg = decomp_avg(t, r);
    lemma_chunk_total(t, r);
    crate::partition::lemma_chunk_step(k, n, avg);
    let q = plain_of(d, pos) - chunk_start(k, n, avg);
    assert(d.partition_voxels(r, k)[q] == v);
    assert(d.partition_voxels(r, k).contains(v));
    assert(k == j);
}

/// A partition accepts an entity exactly when it is the partition the entity is
/// routed to.
pub proof fn lemma_owns_iff_owner<C: Mechanics>(m: &MultiVoxelContainer<C>, plain: int)
    requires
        m.wf(),
        0 <= plain < m.domain@.total(),
    ensures
        m.owns(plain) <==> owner_of(m.domain@, m.n_subdomains as int, plain) == m.mvc_id,
{
    let d = m.domain@;
    let r = m.n_subdomains as int;
    let t = d.total();
    let n = decomp_n(t, r);
    let avg = decomp_avg(t, r);
    lemma_total_pos(d);
    lemma_chunk_total(t, r);
    let j = lemma_chunk_of(plain, t, r);
    let i = m.mvc_id as int;
    crate::partition::lemma_chunk_step(i, n, avg);
    if j < i {
        crate::partition::lemma_chunk_mono(j + 1, i, n, avg);
    } else if i < j {
        crate::partition::lemma_chunk_mono(i + 1, j, n, avg);
    }
}

/// The neighbors of every voxel of `m` are voxels of the domain.
pub open spec fn neighbors_in_domain<C>(vs: Seq<VoxelBox<C>>, total: int) -> bool {
    forall|k: int, i: int| 0 <= k < vs.len() && 0 <= i < vs[k].neighbors@.len() ==> (#[trigger] vs[k].neighbors@[i]) < total
}

/// The voxel with dense index `p` belongs to partition `j`.
pub open spec fn in_partition(d: CuboidModel, r: int, j: int, p: int) -> bool {
    let start = chunk_start(j, decomp_n(d.total(), r), decomp_avg(d.total(), r));
    start <= p < start + d.partition_voxels(r, j).len()
}

/// The entity `c` lies in a voxel of partition `j`.
pub open spec fn fits_partition<C: Mechanics>(d: CuboidModel, r: int, j: int, c: C) -> bool {
    &&& c.pos_view().len() == d.dim()
    &&& in_partition(d, r, j, plain_of(d, c.pos_view()))
}

/// `ns` are the dense indices of the Moore neighbors of voxel `v`, each once.
pub open spec fn moore_plains(d: CuboidModel, v: Seq<usize>, ns: Seq<u64>) -> bool {
    &&& forall|i: int| 0 <= i < ns.len() ==> #[trigger] moore_rank(d, v, ns[i])
    &&& forall|w: Seq<usize>| #[trigger] is_moore_neighbor(v, w, d.n_voxels) ==> lists_rank(ns, grid_rank(w, d.n_voxels))
    &&& forall|i: int, j: int| 0 <= i < j < ns.len() ==> #[trigger] ns[i] != #[trigger] ns[j]
}

/// `p` is the dense index of a Moore neighbor of voxel `v`.
pub open spec fn moore_rank(d: CuboidModel, v: Seq<usize>, p: u64) -> bool {
    exists|w: Seq<usize>| #[trigger] is_moore_neighbor(v, w, d.n_voxels) && p as int == grid_rank(w, d.n_voxels)
}

/// `p` occurs among `ns`.
pub open spec fn lists_rank(ns: Seq<u64>, p: int) -> bool {
    exists|i: int| 0 <= i < ns.len() && #[trigger] ns[i] as int == p
}

proof fn lemma_moore_plains(d: CuboidModel, v: Seq<usize>, nbs: Seq<Vec<usize>>, ns: Seq<u64>)
    requires
        d.wf(),
        in_grid(v, d.n_voxels),
        ns.len() == nbs.len(),
        forall|j: int| 0 <= j < nbs.len() ==> is_moore_neighbor(v, (#[trigger] nbs[j])@, d.n_voxels),
        forall|w: Seq<usize>| is_moore_neighbor(v, w, d.n_voxels) ==> exists|j: int| 0 <= j < nbs.len() && (#[trigger] nbs[j])@ == w,
        forall|j1: int, j2: int| 0 <= j1 < j2 < nbs.len() ==> (#[trigger] nbs[j1])@ != (#[trigger] nbs[j2])@,
        forall|j: int| 0 <= j < nbs.len() ==> #[trigger] ns[j] as int == grid_rank(nbs[j]@, d.n_voxels),
    ensures
        moore_plains(d, v, ns),
{
    let z = zeros(d.n_voxels.len());
    lemma_zeros_bounds(d.n_voxels);
    assert forall|i: int| 0 <= i < ns.len() implies #[trigger] moore_rank(d, v, ns[i]) by {
        assert(is_moore_neighbor(v, nbs[i]@, d.n_voxels));
    }
    assert forall|w: Seq<usize>| #[trigger] is_moore_neighbor(v, w, d.n_voxels) implies lists_rank(ns, grid_rank(w, d.n_voxels)) by {
        let j = choose|j: int| 0 <= j < nbs.len() && (#[trigger] nbs[j])@ == w;
        assert(ns[j] as int == grid_rank(w, d.n_voxels));
    }
    assert forall|i: int, j: int| 0 <= i < j < ns.len() implies #[trigger] ns[i] != #[trigger] ns[j] by {
        let wi = nbs[i]@;
        let wj = nbs[j]@;
        crate::domain::lemma_neighbor_in_grid(v, wi, d.n_voxels);
        crate::domain::lemma_neighbor_in_grid(v, wj, d.n_voxels);
        lemma_box_rank(wi, z, d.n_voxels);
        lemma_box_rank(wj, z, d.n_voxels);
        if ns[i] == ns[j] {
            assert(grid_rank(wi, d.n_voxels) == grid_rank(wj, d.n_voxels));
            assert(wi == wj);
        }
    }
}

/// The dense indices of the voxels `vs`.
fn plain_indices(d: &CartesianCuboid, vs: &Vec<Vec<usize>>) -> (r: Vec<PlainIndex>)
    requires
        d@.wf(),
        d@.countable(),
        forall|k: int| 0 <= k < vs@.len() ==> in_grid((#[trigger] vs@[k])@, d@.n_voxels),
    ensures
        r@.len() == vs@.len(),
        forall|k: int| 0 <= k < vs@.len() ==> #[trigger] r@[k] as int == grid_rank(vs@[k]@, d@.n_voxels),
        forall|k: int| 0 <= k < vs@.len() ==> #[trigger] r@[k] < d@.total(),
{
    let mut r: Vec<PlainIndex> = Vec::new();
    let mut k: usize = 0;
    while k < vs.len()
        invariant
            d@.wf(),
            d@.countable(),
            forall|q: int| 0 <= q < vs@.len() ==> in_grid((#[trigger] vs@[q])@, d@.n_voxels),
            k <= vs.len(),
            r@.len() == k,
            forall|q: int| 0 <= q < k ==> #[trigger] r@[q] as int == grid_rank(vs@[q]@, d@.n_voxels),
            forall|q: int| 0 <= q < k ==> #[trigger] r@[q] < d@.total(),
        decreases vs.len() - k,
    {
        let p = plain_index_of(d, &vs[k]);
        r.push(p as u64);
        k = k + 1;
    }
    r
}

impl<C: Mechanics> MultiVoxelContainer<C> {
    /// Sets up partition `mvc_id` of `domain`, whose voxels `sub` describes, with
    /// the entities `cells`. Each entity is numbered within its voxel in the order
    /// given. An entity outside this partition is an error.
    pub fn new(
        domain: CartesianCuboid,
        n_subdomains: usize,
        mvc_id: usize,
        sub: &CartesianSubDomain,
        cells: Vec<C>,
    ) -> (r: Result<Self, SimulationError>)
        requires
            domain@.wf(),
            domain@.countable(),
            n_subdomains >= 1,
            mvc_id < domain@.n_partitions(n_subdomains as int),
            sub@.wf(),
            sub@.domain == domain@,
            sub@.voxels == domain@.partition_voxels(n_subdomains as int, mvc_id as int),
        ensures
            r is Ok <==> forall|k: int| 0 <= k < cells@.len() ==> fits_partition(domain@, n_subdomains as int, mvc_id as int, #[trigger] cells@[k]),
            r matches Ok(m) ==> {
                &&& m.wf()
                &&& m.placed()
                &&& m.domain@ == domain@
                &&& m.n_subdomains == n_subdomains
                &&& m.mvc_id == mvc_id
                &&& cell_count(m.voxels@) == cells@.len()
                &&& neighbors_in_domain(m.voxels@, domain@.total())
                &&& forall|k: int| 0 <= k < m.voxels@.len() ==> moore_plains(domain@, (#[trigger] m.voxels@[k]).index@, m.voxels@[k].neighbors@)
                &&& crate::exchange::neighbors_distinct(m.voxels@)
                &&& forall|k: int, c: int| 0 <= k < m.voxels@.len() && 0 <= c < m.voxels@[k].cells@.len() ==> {
                    &&& (#[trigger] m.voxels@[k].cells@[c]).0.id_view() == (m.voxels@[k].plain_index, c as u64)
                    &&& m.voxels@[k].cells@[c].0.parent_view() is None
                    &&& cells@.contains(m.voxels@[k].cells@[c].0.inner())
                    &&& crate::cycle::fresh_storage(m.voxels@[k].cells@[c].1, domain@.dim() as nat)
                }
            },
    {
        let ghost d = domain@;
        let ghost rr = n_subdomains as int;
        let dim = domain.dim();
        let voxels = sub.get_voxels();
        proof {
            lemma_partition_span(d, rr, mvc_id as int);
            assert forall|k: int| 0 <= k < voxels@.len() implies in_grid((#[trigger] voxels@[k])@, d.n_voxels) by {
                assert(sub@.voxels[k] == voxels@[k]@);
            }
        }
        let plains = plain_indices(&domain, &voxels);
        let n_vox = voxels.len();
        proof {
            let t = d.total();
            let n = decomp_n(t, rr);
            let avg = decomp_avg(t, rr);
            assert forall|k: int| 0 <= k < n_vox implies #[trigger] plains@[k] as int == chunk_start(mvc_id as int, n, avg) + k by {
                let pv = d.partition_voxels(rr, mvc_id as int);
                assert(voxels@[k]@ == pv[k]);
                lemma_zeros_bounds(d.n_voxels);
                lemma_box_nth(chunk_start(mvc_id as int, n, avg) + k, zeros(d.n_voxels.len()), d.n_voxels);
            }
        }
        // Sort the entities into per-voxel lists.
        let mut lists: Vec<Vec<CellAgentBox<C>>> = Vec::new();
        let mut q: usize = 0;
        while q < n_vox
            invariant
                q <= n_vox,
                lists@.len() == q,
                forall|k: int| 0 <= k < q ==> (#[trigger] lists@[k])@.len() == 0,
            decreases n_vox - q,
        {
            lists.push(Vec::new());
            q = q + 1;
        }
        proof {
            crate::domain::lemma_total_len_empty(lists@);
        }
        let first: u64 = plains[0];
        let ghost all = cells@;
        let mut rest = reversed(cells);
        while rest.len() > 0
            invariant
                d == domain@,
                d.wf(),
                d.countable(),
                dim == d.dim(),
                n_vox == plains@.len(),
                n_vox >= 1,
                first == plains@[0],
                forall|k: int| 0 <= k < n_vox ==> #[trigger] plains@[k] == first + k,
                lists@.len() == n_vox,
                rest@.len() <= all.len(),
                all == cells@,
                rr == n_subdomains,
                n_vox == d.partition_voxels(rr, mvc_id as int).len(),
                first == chunk_start(mvc_id as int, decomp_n(d.total(), rr), decomp_avg(d.total(), rr)),
                forall|k: int| 0 <= k < rest@.len() ==> #[trigger] rest@[k] == all[all.len() - 1 - k],
                forall|k: int| rest@.len() <= k < all.len() ==> {
                    &&& (#[trigger] all[all.len() - 1 - k]).pos_view().len() == dim
                    &&& in_partition(d, rr, mvc_id as int, plain_of(d, all[all.len() - 1 - k].pos_view()))
                },
                crate::domain::total_len(lists@) + rest@.len() == all.len(),
                forall|a: int, c: int| 0 <= a < n_vox && 0 <= c < lists@[a]@.len() ==> {
                    &&& (#[trigger] lists@[a]@[c]).pos_view().len() == dim
                    &&& plain_of(d, lists@[a]@[c].pos_view()) == first + (n_vox - 1 - a)
                    &&& lists@[a]@[c].id_view() == ((first + (n_vox - 1 - a)) as u64, c as u64)
                    &&& lists@[a]@[c].parent_view() is None
                    &&& all.contains(lists@[a]@[c].inner())
                },
            decreases rest.len(),
        {
            let cell = rest.pop().unwrap();
            let ghost at = all.len() - 1 - rest@.len();
            let pos = cell.pos();
            if pos.len() != dim {
                proof {
                    assert(all[at] == cell);
                    assert(!fits_partition(d, rr, mvc_id as int, cells@[at]));
                }
                return Err(SimulationError::Boundary(BoundaryError::DimensionMismatch));
            }
            let v = domain.get_voxel_index_clamped(&pos);
            let p = plain_index_of(&domain, &v) as u64;
            if p < first || p - first >= n_vox as u64 {
                proof {
                    assert(all[at] == cell);
                    assert(pos@ == cells@[at].pos_view());
                    assert(p as int == plain_of(d, pos@));
                    assert(!in_partition(d, rr, mvc_id as int, plain_of(d, cells@[at].pos_view())));
                    assert(!fits_partition(d, rr, mvc_id as int, cells@[at]));
                }
                return Err(SimulationError::Index(IndexError::UnknownVoxel { plain_index: p }));
            }
            // The lists run from the last voxel to the first.
            let idx = n_vox - 1 - (p - first) as usize;
            let n_cell = lists[idx].len() as u64;
            let boxed = CellAgentBox::new(p, n_cell, cell, None);
            let ghost before = lists@;
            lists[idx].push(boxed);
            proof {
                crate::domain::lemma_total_len_update(before, idx as int, lists@[idx as int]);
                assert(lists@ == before.update(idx as int, lists@[idx as int]));
                assert(all[at] == cell);
                assert forall|a: int, c: int| 0 <= a < n_vox && 0 <= c < lists@[a]@.len() implies {
                    &&& (#[trigger] lists@[a]@[c]).pos_view().len() == dim
                    &&& plain_of(d, lists@[a]@[c].pos_view()) == first + (n_vox - 1 - a)
                    &&& lists@[a]@[c].id_view() == ((first + (n_vox - 1 - a)) as u64, c as u64)
                    &&& lists@[a]@[c].parent_view() is None
                    &&& all.contains(lists@[a]@[c].inner())
                } by {
                    if a != idx || c < before[a]@.len() {
                        assert(lists@[a]@[c] == before[a]@[c]);
                    }
                }
                assert forall|k: int| rest@.len() <= k < all.len() implies {
                    &&& (#[trigger] all[all.len() - 1 - k]).pos_view().len() == dim
                    &&& in_partition(d, rr, mvc_id as int, plain_of(d, all[all.len() - 1 - k].pos_view()))
                } by {
                    if k == rest@.len() {
                        assert(all[all.len() - 1 - k] == cell);
                    }
                }
            }
        }
        assert(crate::domain::total_len(lists@) == all.len());
        proof {
            assert forall|k: int| 0 <= k < cells@.len() implies fits_partition(domain@, n_subdomains as int, mvc_id as int, #[trigger] cells@[k]) by {
                let k2 = all.len() - 1 - k;
                assert(all[all.len() - 1 - k2] == all[k]);
            }
        }
        // Build the voxels, taking the lists from the back.
        let ghost lists_all = lists@;
        let mut boxes: Vec<VoxelBox<C>> = Vec::new();
        let mut t: usize = 0;
        while t < n_vox
            invariant
                d == domain@,
                d.wf(),
                d.countable(),
                sub@.wf(),
                sub@.domain == d,
                dim == d.dim(),
                n_vox == plains@.len(),
                n_vox == voxels@.len(),
                forall|k: int| 0 <= k < voxels@.len() ==> in_grid((#[trigger] voxels@[k])@, d.n_voxels),
                forall|k: int| 0 <= k < voxels@.len() ==> #[trigger] voxels@[k]@ == sub@.voxels[k],
                first == plains@[0],
                forall|k: int| 0 <= k < n_vox ==> #[trigger] plains@[k] == first + k,
                forall|k: int| 0 <= k < n_vox ==> #[trigger] plains@[k] as int == grid_rank(voxels@[k]@, d.n_voxels),
                t <= n_vox,
                lists_all.len() == n_vox,
                lists@.len() == n_vox - t,
                forall|k: int| 0 <= k < lists@.len() ==> #[trigger] lists@[k] == lists_all[k],
                cell_count(boxes@) + crate::domain::total_len(lists@) == all.len(),
                forall|a: int, c: int| 0 <= a < n_vox && 0 <= c < lists_all[a]@.len() ==> {
                    &&& (#[trigger] lists_all[a]@[c]).pos_view().len() == dim
                    &&& plain_of(d, lists_all[a]@[c].pos_view()) == first + (n_vox - 1 - a)
                    &&& lists_all[a]@[c].id_view() == ((first + (n_vox - 1 - a)) as u64, c as u64)
                    &&& lists_all[a]@[c].parent_view() is None
                    &&& cells@.contains(lists_all[a]@[c].inner())
                },
                forall|k: int, c: int| 0 <= k < t && 0 <= c < boxes@[k].cells@.len() ==>
                    crate::cycle::fresh_storage((#[trigger] boxes@[k].cells@[c]).1, dim as nat),
                forall|k: int| 0 <= k < t ==> moore_plains(d, (#[trigger] boxes@[k]).index@, boxes@[k].neighbors@),
                all == cells@,
                boxes@.len() == t,
                forall|k: int| 0 <= k < t ==> (#[trigger] boxes@[k]).plain_index == first + k,
                forall|k: int| 0 <= k < t ==> (#[trigger] boxes@[k]).index@ == voxels@[k]@,
                forall|k: int| 0 <= k < t ==> (#[trigger] boxes@[k]).cells@.len() == lists_all[n_vox - 1 - k]@.len(),
                forall|k: int, c: int| 0 <= k < t && 0 <= c < boxes@[k].cells@.len() ==>
                    (#[trigger] boxes@[k].cells@[c]).0 == lists_all[n_vox - 1 - k]@[c],
                neighbors_in_domain(boxes@, d.total()),
            decreases n_vox - t,
        {
            let nbs = sub.get_neighbor_voxel_indices(&voxels[t]);
            proof {
                assert forall|k: int| 0 <= k < nbs@.len() implies in_grid((#[trigger] nbs@[k])@, d.n_voxels) by {
                    crate::domain::lemma_neighbor_in_grid(voxels@[t as int]@, nbs@[k]@, d.n_voxels);
                }
            }
            let nplains = plain_indices(&domain, &nbs);
            proof {
                lemma_moore_plains(d, voxels@[t as int]@, nbs@, nplains@);
            }
            let ghost lists_before = lists@;
            let list = lists.pop().unwrap();
            proof {
                assert(lists_before.drop_last() =~= lists@);
            }
            let vb = VoxelBox::new(plains[t], crate::cuboid::copy_index(&voxels[t]), nplains, list, dim);
            let ghost boxes_before = boxes@;
            boxes.push(vb);
            proof {
                assert(boxes@.drop_last() =~= boxes_before);
                assert forall|k: int| 0 <= k < t + 1 implies moore_plains(d, (#[trigger] boxes@[k]).index@, boxes@[k].neighbors@) by {
                    if k < t {
                        assert(boxes@[k] == boxes_before[k]);
                    }
                }
            }
            t = t + 1;
        }
        let m = MultiVoxelContainer { voxels: boxes, domain, n_subdomains, mvc_id };
        proof {
            assert(m.voxels@.len() == d.partition_voxels(rr, mvc_id as int).len());
            assert forall|k: int| 0 <= k < m.voxels@.len() implies (#[trigger] m.voxels@[k]).plain_index == m.first_plain() + k by {
                assert(plains@[0] as int == m.first_plain());
            }
            assert forall|k: int| 0 <= k < m.voxels@.len() implies (#[trigger] m.voxels@[k]).index@ == grid_nth(m.first_plain() + k, d.n_voxels) by {
                assert(voxels@[k]@ == sub@.voxels[k]);
            }
            assert forall|k: int, c: int| 0 <= k < m.voxels@.len() && 0 <= c < m.voxels@[k].cells@.len() implies {
                &&& (#[trigger] m.voxels@[k].cells@[c]).0.pos_view().len() == d.dim()
                &&& plain_of(d, m.voxels@[k].cells@[c].0.pos_view()) == m.voxels@[k].plain_index
            } by {
                let a = n_vox - 1 - k;
                assert(m.voxels@[k].cells@[c].0 == lists_all[a]@[c]);
            }
            assert forall|k: int, c: int| 0 <= k < m.voxels@.len() && 0 <= c < m.voxels@[k].cells@.len() implies {
                &&& (#[trigger] m.voxels@[k].cells@[c]).0.id_view() == (m.voxels@[k].plain_index, c as u64)
                &&& m.voxels@[k].cells@[c].0.parent_view() is None
                &&& cells@.contains(m.voxels@[k].cells@[c].0.inner())
                &&& crate::cycle::fresh_storage(m.voxels@[k].cells@[c].1, domain@.dim() as nat)
            } by {
                let a = n_vox - 1 - k;
                assert(m.voxels@[k].cells@[c].0 == lists_all[a]@[c]);
            }
            assert forall|k: int, i: int, j: int| 0 <= k < m.voxels@.len() && 0 <= i < j < m.voxels@[k].neighbors@.len()
                implies #[trigger] m.voxels@[k].neighbors@[i] != #[trigger] m.voxels@[k].neighbors@[j] by {
                assert(moore_plains(d, m.voxels@[k].index@, m.voxels@[k].neighbors@));
            }
        }
        Ok(m)
    }
}

} // verus!
