//! The capabilities a simulation domain offers the engine, and the result of
//! splitting it into partitions.
use vstd::prelude::*;
use crate::cell::Mechanics;
use crate::cuboid::{CartesianCuboid, CuboidModel};
use crate::errors::{BoundaryError, CalcError, DecomposeError};
use crate::lattice::{grid_rank, in_grid};
use crate::partition::{index_views, Partitions};
use crate::runtime::{owner_of, owner_of_plain, plain_index_of, plain_of};
use crate::subdomain::{is_moore_neighbor, CartesianSubDomain};

verus! {

/// The different kinds of boundary condition of a field on a voxel's face. `Value`
/// is the value held by the neighboring voxel.
pub enum BoundaryCondition<Conc> {
    Neumann(Conc),
    Dirichlet(Conc),
    Value(Conc),
}

/// The seed from which a domain's random numbers are drawn.
pub trait DomainRngSeed {
    fn get_rng_seed(&self) -> u64;
}

/// A domain that can be split into at most `n_subdomains` partitions.
pub trait DomainCreateSubDomains<S> {
    spec fn can_split(&self) -> bool;

    fn create_subdomains(&self, n_subdomains: usize) -> Result<Vec<(usize, S, Vec<Vec<usize>>)>, DecomposeError>
        requires
            self.can_split(),
            n_subdomains >= 1;
}

/// A partition of a domain: its voxels and their neighbors.
pub trait SubDomain {
    spec fn well_formed(&self) -> bool;

    spec fn has_voxel(&self, v: Seq<usize>) -> bool;

    /// The neighbors of voxel `v`, also those that lie in other partitions.
    fn get_neighbor_voxel_indices(&self, v: &Vec<usize>) -> Vec<Vec<usize>>
        requires
            self.well_formed(),
            self.has_voxel(v@);

    /// The voxels of this partition.
    fn get_all_indices(&self) -> Vec<Vec<usize>>;
}

/// Finds the voxel that holds an entity.
pub trait SortCells<C> {
    spec fn well_formed(&self) -> bool;

    fn get_voxel_index_of(&self, cell: &C) -> Result<Vec<usize>, BoundaryError>
        requires
            self.well_formed();
}

/// Keeps positions and velocities within the boundaries.
pub trait SubDomainMechanics {
    spec fn well_formed(&self) -> bool;

    fn apply_boundary(&self, pos: &mut Vec<i64>, vel: &mut Vec<i64>) -> Result<(), BoundaryError>
        requires
            self.well_formed();
}

/// A force that a partition itself exerts on the entities in it.
pub trait SubDomainForce {
    /// The force on an entity at `pos` moving with `vel`.
    spec fn custom_force_view(&self, pos: Seq<i64>, vel: Seq<i64>) -> Result<Seq<i64>, CalcError>;

    /// The force on an entity at `pos` moving with `vel`.
    fn calculate_custom_force(&self, pos: &Vec<i64>, vel: &Vec<i64>) -> (r: Result<Vec<i64>, CalcError>)
        ensures
            custom_force_result_view(r) == self.custom_force_view(pos@, vel@);
}

/// The view of a computed custom force.
pub open spec fn custom_force_result_view(r: Result<Vec<i64>, CalcError>) -> Result<Seq<i64>, CalcError> {
    match r {
        Ok(f) => Ok(f@),
        Err(e) => Err(e),
    }
}

/// Reactions and transport of fields in a partition.
pub trait SubDomainReactions {}

/// A domain that can be split into partitions with the entities sorted into them.
pub trait Domain<C, S>: Sized {
    spec fn can_split(&self) -> bool;

    fn decompose(self, n_subdomains: usize, cells: Vec<C>) -> Result<DecomposedDomain<S, C>, DecomposeError>
        requires
            self.can_split(),
            n_subdomains >= 1;
}

/// A domain split into partitions, each with its entities, and which partitions
/// border which.
pub struct DecomposedDomain<S, C> {
    /// How many partitions were made; at most as many as requested.
    pub n_subdomains: usize,
    /// Each partition's number, geometry and entities.
    pub index_subdomain_cells: Vec<(usize, S, Vec<C>)>,
    /// For each partition, the partitions that border it.
    pub neighbor_map: Vec<Vec<usize>>,
    /// The initial seed of the run's random numbers.
    pub rng_seed: u64,
}

impl DomainRngSeed for CartesianCuboid {
    fn get_rng_seed(&self) -> u64 {
        CartesianCuboid::get_rng_seed(self)
    }
}

impl DomainCreateSubDomains<CartesianSubDomain> for CartesianCuboid {
    open spec fn can_split(&self) -> bool {
        self@.wf()
    }

    fn create_subdomains(&self, n_subdomains: usize) -> Result<Partitions, DecomposeError> {
        CartesianCuboid::create_subdomains(self, n_subdomains)
    }
}

impl<C: Mechanics> SortCells<C> for CartesianCuboid {
    open spec fn well_formed(&self) -> bool {
        self@.wf()
    }

    fn get_voxel_index_of(&self, cell: &C) -> Result<Vec<usize>, BoundaryError> {
        let pos = cell.pos();
        self.get_voxel_index_of_raw(&pos)
    }
}

impl SubDomain for CartesianSubDomain {
    open spec fn well_formed(&self) -> bool {
        self@.wf()
    }

    open spec fn has_voxel(&self, v: Seq<usize>) -> bool {
        in_grid(v, self@.domain.n_voxels)
    }

    fn get_neighbor_voxel_indices(&self, v: &Vec<usize>) -> Vec<Vec<usize>> {
        CartesianSubDomain::get_neighbor_voxel_indices(self, v)
    }

    fn get_all_indices(&self) -> Vec<Vec<usize>> {
        self.get_voxels()
    }
}

impl<C: Mechanics> SortCells<C> for CartesianSubDomain {
    open spec fn well_formed(&self) -> bool {
        self@.wf()
    }

    fn get_voxel_index_of(&self, cell: &C) -> Result<Vec<usize>, BoundaryError> {
        let pos = cell.pos();
        self.get_index_of(&pos)
    }
}

impl SubDomainMechanics for CartesianSubDomain {
    open spec fn well_formed(&self) -> bool {
        self@.wf()
    }

    fn apply_boundary(&self, pos: &mut Vec<i64>, vel: &mut Vec<i64>) -> Result<(), BoundaryError> {
        CartesianSubDomain::apply_boundary(self, pos, vel)
    }
}

/// Partition `q` borders partition `j`: it is another partition that owns a Moore
/// neighbor of one of `j`'s voxels.
pub open spec fn partitions_border(d: CuboidModel, r: int, j: int, q: int) -> bool {
    &&& q != j
    &&& exists|v: Seq<usize>, w: Seq<usize>|
        #[trigger] d.partition_voxels(r, j).contains(v) && #[trigger] is_moore_neighbor(v, w, d.n_voxels)
            && owner_of(d, r, grid_rank(w, d.n_voxels)) == q
}

/// The number `q` occurs in `list`.
pub open spec fn holds(list: Seq<usize>, q: int) -> bool {
    exists|a: int| 0 <= a < list.len() && list[a] as int == q
}

/// `x` occurs in `v`.
pub fn contains_usize(v: &Vec<usize>, x: usize) -> (r: bool)
    ensures
        r == v@.contains(x),
{
    let mut i: usize = 0;
    while i < v.len()
        invariant
            i <= v.len(),
            forall|j: int| 0 <= j < i ==> v@[j] != x,
        decreases v.len() - i,
    {
        if v[i] == x {
            return true;
        }
        i = i + 1;
    }
    false
}

/// A Moore neighbor lies in the grid.
pub proof fn lemma_neighbor_in_grid(v: Seq<usize>, w: Seq<usize>, n: Seq<usize>)
    requires
        is_moore_neighbor(v, w, n),
        v.len() == n.len(),
    ensures
        in_grid(w, n),
{
    assert forall|i: int| 0 <= i < w.len() implies crate::lattice::zeros(n.len())[i] <= #[trigger] w[i] < n[i] by {
        assert(w[i] < n[i] && v[i] <= w[i] + 1 && w[i] <= v[i] + 1);
    }
}

impl CartesianCuboid {
    /// The partitions that border partition `j`, each once.
    fn bordering_partitions(&self, n_subdomains: usize, j: usize, sub: &CartesianSubDomain, voxels: &Vec<Vec<usize>>) -> (r: Vec<usize>)
        requires
            self@.wf(),
            self@.countable(),
            n_subdomains >= 1,
            sub@.wf(),
            sub@.domain == self@,
            j < self@.n_partitions(n_subdomains as int),
            index_views(voxels@) == self@.partition_voxels(n_subdomains as int, j as int),
        ensures
            forall|q: int| holds(r@, q) <==> partitions_border(self@, n_subdomains as int, j as int, q),
            forall|a: int, b: int| 0 <= a < b < r@.len() ==> r@[a] != r@[b],
    {
        let ghost d = self@;
        let ghost rr = n_subdomains as int;
        let ghost pv = d.partition_voxels(rr, j as int);
        let mut list: Vec<usize> = Vec::new();
        let mut t: usize = 0;
        while t < voxels.len()
            invariant
                d == self@,
                d.wf(),
                d.countable(),
                rr == n_subdomains,
                n_subdomains >= 1,
                sub@.wf(),
                sub@.domain == d,
                pv == d.partition_voxels(rr, j as int),
                j < d.n_partitions(rr),
                index_views(voxels@) == pv,
                t <= voxels.len(),
                forall|a: int| 0 <= a < list@.len() ==> partitions_border(d, rr, j as int, #[trigger] list@[a] as int),
                forall|a: int, b: int| 0 <= a < b < list@.len() ==> list@[a] != list@[b],
                forall|t2: int, w: Seq<usize>| 0 <= t2 < t && #[trigger] is_moore_neighbor(pv[t2], w, d.n_voxels) ==>
                    owner_of(d, rr, grid_rank(w, d.n_voxels)) == j || holds(list@, owner_of(d, rr, grid_rank(w, d.n_voxels))),
            decreases voxels.len() - t,
        {
            proof {
                assert(pv[t as int] == voxels@[t as int]@);
                assert(pv.contains(voxels@[t as int]@));
                assert(in_grid(voxels@[t as int]@, d.n_voxels)) by {
                    lemma_voxel_in_grid(d, rr, j as int, t as int);
                }
            }
            let nbs = sub.get_neighbor_voxel_indices(&voxels[t]);
            let mut u: usize = 0;
            while u < nbs.len()
                invariant
                    d == self@,
                    d.wf(),
                    d.countable(),
                    rr == n_subdomains,
                    n_subdomains >= 1,
                    pv == d.partition_voxels(rr, j as int),
                    index_views(voxels@) == pv,
                    t < voxels.len(),
                    pv.contains(voxels@[t as int]@),
                    in_grid(voxels@[t as int]@, d.n_voxels),
                    forall|k: int| 0 <= k < nbs@.len() ==> is_moore_neighbor(voxels@[t as int]@, (#[trigger] nbs@[k])@, d.n_voxels),
                    u <= nbs.len(),
                    forall|a: int| 0 <= a < list@.len() ==> partitions_border(d, rr, j as int, #[trigger] list@[a] as int),
                    forall|a: int, b: int| 0 <= a < b < list@.len() ==> list@[a] != list@[b],
                    forall|t2: int, w: Seq<usize>| 0 <= t2 < t && #[trigger] is_moore_neighbor(pv[t2], w, d.n_voxels) ==>
                        owner_of(d, rr, grid_rank(w, d.n_voxels)) == j || holds(list@, owner_of(d, rr, grid_rank(w, d.n_voxels))),
                    forall|k: int| 0 <= k < u ==> owner_of(d, rr, grid_rank((#[trigger] nbs@[k])@, d.n_voxels)) == j
                        || holds(list@, owner_of(d, rr, grid_rank(nbs@[k]@, d.n_voxels))),
                decreases nbs.len() - u,
            {
                proof {
                    lemma_neighbor_in_grid(voxels@[t as int]@, nbs@[u as int]@, d.n_voxels);
                }
                let p = plain_index_of(self, &nbs[u]);
                let q = owner_of_plain(self, n_subdomains, p);
                let ghost old_list = list@;
                let ghost qq = owner_of(d, rr, grid_rank(nbs@[u as int]@, d.n_voxels));
                let already = contains_usize(&list, q);
                if q != j && !already {
                    list.push(q);
                    proof {
                        let v = voxels@[t as int]@;
                        let w = nbs@[u as int]@;
                        assert(pv.contains(v) && is_moore_neighbor(v, w, d.n_voxels));
                        assert(partitions_border(d, rr, j as int, q as int));
                        assert forall|a: int| 0 <= a < list@.len() implies partitions_border(d, rr, j as int, #[trigger] list@[a] as int) by {
                            if a < old_list.len() {
                                assert(list@[a] == old_list[a]);
                            }
                        }
                    }
                }
                proof {
                    assert forall|x: int| holds(old_list, x) implies holds(list@, x) by {
                        let a = choose|a: int| 0 <= a < old_list.len() && old_list[a] as int == x;
                        assert(list@[a] == old_list[a]);
                    }
                    assert(q as int == qq);
                    if q != j {
                        if already {
                            let a = choose|a: int| 0 <= a < list@.len() && list@[a] == q;
                            assert(list@[a] as int == qq);
                        } else {
                            assert(list@[list@.len() - 1] as int == qq);
                        }
                        assert(holds(list@, qq));
                    }
                    assert forall|k: int| 0 <= k < u + 1 implies owner_of(d, rr, grid_rank((#[trigger] nbs@[k])@, d.n_voxels)) == j
                        || holds(list@, owner_of(d, rr, grid_rank(nbs@[k]@, d.n_voxels))) by {
                        if k < u {
                            let x = owner_of(d, rr, grid_rank(nbs@[k]@, d.n_voxels));
                            if x != j {
                                assert(holds(old_list, x));
                            }
                        }
                    }
                    assert forall|t2: int, w: Seq<usize>| 0 <= t2 < t && #[trigger] is_moore_neighbor(pv[t2], w, d.n_voxels) implies
                        owner_of(d, rr, grid_rank(w, d.n_voxels)) == j || holds(list@, owner_of(d, rr, grid_rank(w, d.n_voxels))) by {
                        let x = owner_of(d, rr, grid_rank(w, d.n_voxels));
                        if x != j {
                            assert(holds(old_list, x));
                        }
                    }
                }
                u = u + 1;
            }
            proof {
                assert forall|t2: int, w: Seq<usize>| 0 <= t2 < t + 1 && #[trigger] is_moore_neighbor(pv[t2], w, d.n_voxels) implies
                    owner_of(d, rr, grid_rank(w, d.n_voxels)) == j || holds(list@, owner_of(d, rr, grid_rank(w, d.n_voxels))) by {
                    if t2 == t {
                        assert(pv[t2] == voxels@[t as int]@);
                        let k = choose|k: int| 0 <= k < nbs@.len() && (#[trigger] nbs@[k])@ == w;
                        assert(nbs@[k]@ == w);
                    }
                }
            }
            t = t + 1;
        }
        proof {
            assert forall|q: int| partitions_border(d, rr, j as int, q) implies holds(list@, q) by {
                let (v, w) = choose|v: Seq<usize>, w: Seq<usize>|
                    #[trigger] d.partition_voxels(rr, j as int).contains(v) && #[trigger] is_moore_neighbor(v, w, d.n_voxels)
                        && owner_of(d, rr, grid_rank(w, d.n_voxels)) == q;
                let t2 = choose|t2: int| 0 <= t2 < pv.len() && pv[t2] == v;
                assert(is_moore_neighbor(pv[t2], w, d.n_voxels));
            }
            assert forall|q: int| holds(list@, q) implies partitions_border(d, rr, j as int, q) by {
                let a = choose|a: int| 0 <= a < list@.len() && list@[a] as int == q;
                assert(partitions_border(d, rr, j as int, list@[a] as int));
            }
        }
        list
    }
}

/// The voxels of a partition lie in the grid.
proof fn lemma_voxel_in_grid(d: CuboidModel, r: int, j: int, t: int)
    requires
        d.wf(),
        r >= 1,
        0 <= j < d.n_partitions(r),
        0 <= t < d.partition_voxels(r, j).len(),
    ensures
        in_grid(d.partition_voxels(r, j)[t], d.n_voxels),
{
    let total = d.total();
    crate::runtime::lemma_partition_span(d, r, j);
    crate::lattice::lemma_zeros_bounds(d.n_voxels);
    let k = crate::partition::chunk_start(j, crate::partition::decomp_n(total, r), crate::partition::decomp_avg(total, r)) + t;
    crate::lattice::lemma_box_nth(k, crate::lattice::zeros(d.n_voxels.len()), d.n_voxels);
}

/// The total length of the lists `ls`.
pub open spec fn total_len<C>(ls: Seq<Vec<C>>) -> int
    decreases ls.len(),
{
    if ls.len() == 0 {
        0
    } else {
        total_len(ls.drop_last()) + ls.last()@.len()
    }
}

/// Replacing one list changes the total length by the difference.
pub proof fn lemma_total_len_update<C>(ls: Seq<Vec<C>>, k: int, x: Vec<C>)
    requires
        0 <= k < ls.len(),
    ensures
        total_len(ls.update(k, x)) == total_len(ls) - ls[k]@.len() + x@.len(),
    decreases ls.len(),
{
    let u = ls.update(k, x);
    if k == ls.len() - 1 {
        assert(u.drop_last() =~= ls.drop_last());
    } else {
        lemma_total_len_update(ls.drop_last(), k, x);
        assert(u.drop_last() =~= ls.drop_last().update(k, x));
    }
}

/// Empty lists have total length zero.
/// Every element of the lists `ls`, list after list.
pub open spec fn all_elements<C>(ls: Seq<Vec<C>>) -> Seq<C>
    decreases ls.len(),
{
    if ls.len() == 0 {
        Seq::empty()
    } else {
        all_elements(ls.drop_last()) + ls.last()@
    }
}

proof fn lemma_all_elements_update<C>(ls: Seq<Vec<C>>, k: int, x: Vec<C>)
    requires
        0 <= k < ls.len(),
    ensures
        all_elements(ls.update(k, x)).to_multiset().add(ls[k]@.to_multiset())
            =~= all_elements(ls).to_multiset().add(x@.to_multiset()),
    decreases ls.len(),
{
    broadcast use vstd::multiset::group_multiset_axioms;
    let u = ls.update(k, x);
    let l = ls.last()@;
    let lhs = all_elements(u).to_multiset().add(ls[k]@.to_multiset());
    let rhs = all_elements(ls).to_multiset().add(x@.to_multiset());
    if k == ls.len() - 1 {
        assert(u.drop_last() =~= ls.drop_last());
        let a = all_elements(ls.drop_last());
        assert(all_elements(u) == a + x@);
        assert(all_elements(ls) == a + ls[k]@);
        vstd::seq_lib::lemma_multiset_commutative(a, x@);
        vstd::seq_lib::lemma_multiset_commutative(a, ls[k]@);
        assert forall|v| #[trigger] lhs.count(v) == rhs.count(v) by {}
    } else {
        let d = ls.drop_last();
        lemma_all_elements_update(d, k, x);
        assert(d[k] == ls[k]);
        assert(u.drop_last() =~= d.update(k, x));
        assert(u.last() == ls.last());
        assert(all_elements(u) == all_elements(d.update(k, x)) + l);
        assert(all_elements(ls) == all_elements(d) + l);
        vstd::seq_lib::lemma_multiset_commutative(all_elements(d.update(k, x)), l);
        vstd::seq_lib::lemma_multiset_commutative(all_elements(d), l);
        let ih_l = all_elements(d.update(k, x)).to_multiset().add(ls[k]@.to_multiset());
        let ih_r = all_elements(d).to_multiset().add(x@.to_multiset());
        assert forall|v| #[trigger] lhs.count(v) == rhs.count(v) by {
            assert(ih_l.count(v) == ih_r.count(v));
        }
    }
}

proof fn lemma_all_elements_empty<C>(ls: Seq<Vec<C>>)
    requires
        forall|k: int| 0 <= k < ls.len() ==> (#[trigger] ls[k])@.len() == 0,
    ensures
        all_elements(ls) =~= Seq::<C>::empty(),
    decreases ls.len(),
{
    if ls.len() > 0 {
        lemma_all_elements_empty(ls.drop_last());
        assert(ls.last()@ =~= Seq::<C>::empty());
    }
}

pub proof fn lemma_total_len_empty<C>(ls: Seq<Vec<C>>)
    requires
        forall|k: int| 0 <= k < ls.len() ==> (#[trigger] ls[k])@.len() == 0,
    ensures
        total_len(ls) == 0,
    decreases ls.len(),
{
    if ls.len() > 0 {
        lemma_total_len_empty(ls.drop_last());
    }
}

impl CartesianCuboid {
    /// Splits the domain into at most `n_subdomains` partitions, finds which
    /// partitions border which, and hands each entity to the partition that owns
    /// the voxel holding its position. An entity outside the domain is an error.
    pub fn decompose<C: Mechanics>(self, n_subdomains: usize, cells: Vec<C>) -> (r: Result<DecomposedDomain<CartesianSubDomain, C>, DecomposeError>)
        requires
            self@.wf(),
            n_subdomains >= 1,
        ensures
            r is Ok <==> self@.countable() && forall|k: int| 0 <= k < cells@.len() ==> self@.contains(#[trigger] cells@[k].pos_view()),
            r matches Err(e) ==> e matches DecomposeError::Boundary(_) || e == DecomposeError::TooManyVoxels,
            r matches Err(DecomposeError::TooManyVoxels) ==> !self@.countable(),
            r matches Ok(dd) ==> {
                let np = self@.n_partitions(n_subdomains as int);
                &&& dd.n_subdomains == np
                &&& dd.rng_seed == self@.rng_seed
                &&& dd.index_subdomain_cells@.len() == np
                &&& dd.neighbor_map@.len() == np
                &&& forall|j: int| 0 <= j < np ==> (#[trigger] dd.index_subdomain_cells@[j]).0 == j
                &&& forall|j: int| 0 <= j < np ==> (#[trigger] dd.index_subdomain_cells@[j]).1@.wf()
                    && dd.index_subdomain_cells@[j].1@.domain == self@
                    && dd.index_subdomain_cells@[j].1@.voxels == self@.partition_voxels(n_subdomains as int, j)
                &&& forall|j: int, c: int| 0 <= j < np && 0 <= c < dd.index_subdomain_cells@[j].2@.len() ==> {
                    &&& self@.contains((#[trigger] dd.index_subdomain_cells@[j].2@[c]).pos_view())
                    &&& owner_of(self@, n_subdomains as int, plain_of(self@, dd.index_subdomain_cells@[j].2@[c].pos_view())) == j
                }
                &&& total_len(Seq::new(np as nat, |j: int| dd.index_subdomain_cells@[j].2)) == cells@.len()
                &&& all_elements(Seq::new(np as nat, |j: int| dd.index_subdomain_cells@[j].2)).to_multiset() == cells@.to_multiset()
                &&& forall|j: int, q: int| 0 <= j < np ==> (#[trigger] holds(dd.neighbor_map@[j]@, q)
                    <==> partitions_border(self@, n_subdomains as int, j, q))
                &&& forall|j: int, a: int, b: int| 0 <= j < np && 0 <= a < b < dd.neighbor_map@[j]@.len()
                    ==> #[trigger] dd.neighbor_map@[j]@[a] != #[trigger] dd.neighbor_map@[j]@[b]
            },
    {
        let ghost d = self@;
        let ghost rr = n_subdomains as int;
        let parts = match self.create_subdomains(n_subdomains) {
            Ok(p) => p,
            Err(e) => {
                return Err(e);
            },
        };
        let np = parts.len();
        // Which partitions border which.
        let mut neighbor_map: Vec<Vec<usize>> = Vec::new();
        let mut j: usize = 0;
        while j < np
            invariant
                d == self@,
                d.wf(),
                d.countable(),
                rr == n_subdomains,
                n_subdomains >= 1,
                np == parts@.len(),
                np == d.n_partitions(rr),
                forall|q: int| 0 <= q < np ==> (#[trigger] parts@[q]).1@.wf() && parts@[q].1@.domain == d,
                forall|q: int| 0 <= q < np ==> index_views((#[trigger] parts@[q]).2@) == d.partition_voxels(rr, q),
                j <= np,
                neighbor_map@.len() == j,
                forall|a: int, q: int| 0 <= a < j ==> (#[trigger] holds(neighbor_map@[a]@, q) <==> partitions_border(d, rr, a, q)),
                forall|j2: int, a: int, b: int| 0 <= j2 < j && 0 <= a < b < neighbor_map@[j2]@.len()
                    ==> #[trigger] neighbor_map@[j2]@[a] != #[trigger] neighbor_map@[j2]@[b],
            decreases np - j,
        {
            let b = self.bordering_partitions(n_subdomains, j, &parts[j].1, &parts[j].2);
            neighbor_map.push(b);
            j = j + 1;
        }
        // Hand each entity to its partition.
        let mut lists: Vec<Vec<C>> = Vec::new();
        let mut q: usize = 0;
        while q < np
            invariant
                q <= np,
                lists@.len() == q,
                forall|k: int| 0 <= k < q ==> (#[trigger] lists@[k])@.len() == 0,
            decreases np - q,
        {
            lists.push(Vec::new());
            q = q + 1;
        }
        proof {
            lemma_total_len_empty(lists@);
        }
        let ghost all = cells@;
        let mut rest = crate::runtime::reversed(cells);
        proof {
            broadcast use vstd::multiset::group_multiset_axioms;
            assert(rest@ =~= all.reverse());
            all.lemma_reverse_to_multiset();
            lemma_all_elements_empty(lists@);
            assert(Seq::<C>::empty().to_multiset() =~= vstd::multiset::Multiset::empty()) by {
                broadcast use vstd::seq_lib::group_to_multiset_ensures;
                assert forall|a: C| Seq::<C>::empty().to_multiset().count(a) == 0 by {
                    assert(!Seq::<C>::empty().contains(a));
                }
            }
            assert(all_elements(lists@).to_multiset().add(rest@.to_multiset()) =~= all.to_multiset());
        }
        while rest.len() > 0
            invariant
                all_elements(lists@).to_multiset().add(rest@.to_multiset()) == all.to_multiset(),
                d == self@,
                d.wf(),
                d.countable(),
                rr == n_subdomains,
                n_subdomains >= 1,
                np == d.n_partitions(rr),
                lists@.len() == np,
                all == cells@,
                rest@.len() <= all.len(),
                forall|k: int| 0 <= k < rest@.len() ==> #[trigger] rest@[k] == all[all.len() - 1 - k],
                forall|k: int| rest@.len() <= k < all.len() ==> d.contains((#[trigger] all[all.len() - 1 - k]).pos_view()),
                total_len(lists@) + rest@.len() == all.len(),
                forall|a: int, c: int| 0 <= a < np && 0 <= c < lists@[a]@.len() ==> {
                    &&& d.contains((#[trigger] lists@[a]@[c]).pos_view())
                    &&& owner_of(d, rr, plain_of(d, lists@[a]@[c].pos_view())) == a
                },
            decreases rest.len(),
        {
            let ghost rest_before = rest@;
            let cell = rest.pop().unwrap();
            proof {
                broadcast use vstd::seq_lib::to_multiset_build;
                assert(rest_before =~= rest@.push(cell));
                assert(rest_before.to_multiset() =~= rest@.to_multiset().insert(cell));
            }
            let pos = cell.pos();
            let v = match self.get_voxel_index_of_raw(&pos) {
                Ok(v) => v,
                Err(e) => {
                    proof {
                        let k = all.len() - 1 - rest@.len();
                        assert(all[k] == cell);
                        assert(pos@ == cell.pos_view());
                        assert(!d.contains(all[k].pos_view()));
                        assert(!d.contains(cells@[k].pos_view()));
                    }
                    return Err(DecomposeError::Boundary(e));
                },
            };
            let p = plain_index_of(&self, &v);
            let owner = owner_of_plain(&self, n_subdomains, p);
            let ghost before = lists@;
            lists[owner].push(cell);
            proof {
                broadcast use vstd::multiset::group_multiset_axioms;
                broadcast use vstd::seq_lib::to_multiset_build;
                lemma_all_elements_update(before, owner as int, lists@[owner as int]);
                let old_list = before[owner as int]@;
                assert(lists@[owner as int]@ == old_list.push(cell));
                assert(old_list.push(cell).to_multiset() =~= old_list.to_multiset().insert(cell));
                let now = all_elements(lists@).to_multiset();
                let was = all_elements(before).to_multiset();
                assert forall|x| #[trigger] now.add(rest@.to_multiset()).count(x) == all.to_multiset().count(x) by {
                    assert(now.add(old_list.to_multiset()).count(x) == was.add(old_list.push(cell).to_multiset()).count(x));
                    assert(was.add(rest_before.to_multiset()).count(x) == all.to_multiset().count(x));
                }
                assert(all_elements(lists@).to_multiset().add(rest@.to_multiset()) =~= all.to_multiset());
                lemma_total_len_update(before, owner as int, lists@[owner as int]);
                assert(lists@ == before.update(owner as int, lists@[owner as int]));
                assert forall|a: int, c: int| 0 <= a < np && 0 <= c < lists@[a]@.len() implies {
                    &&& d.contains((#[trigger] lists@[a]@[c]).pos_view())
                    &&& owner_of(d, rr, plain_of(d, lists@[a]@[c].pos_view())) == a
                } by {
                    if a != owner || c < before[a]@.len() {
                        assert(lists@[a]@[c] == before[a]@[c]);
                    }
                }
                assert forall|k: int| rest@.len() <= k < all.len() implies d.contains((#[trigger] all[all.len() - 1 - k]).pos_view()) by {
                    if k == rest@.len() {
                        assert(all[all.len() - 1 - k] == cell);
                    }
                }
            }
        }
        proof {
            assert forall|k: int| 0 <= k < all.len() implies d.contains(#[trigger] all[k].pos_view()) by {
                let k2 = all.len() - 1 - k;
                assert(all[all.len() - 1 - k2] == all[k]);
            }
        }
        // Pair each partition with its entities.
        let mut parts_rev = crate::runtime::reversed(parts);
        let mut lists_rev = crate::runtime::reversed(lists);
        let ghost parts_all = parts_rev@;
        let ghost lists_all = lists_rev@;
        let mut isc: Vec<(usize, CartesianSubDomain, Vec<C>)> = Vec::new();
        while parts_rev.len() > 0
            invariant
                d == self@,
                np == d.n_partitions(rr),
                parts_rev@.len() == lists_rev@.len(),
                parts_rev@.len() + isc@.len() == np,
                parts_all.len() == np,
                lists_all.len() == np,
                forall|k: int| 0 <= k < parts_rev@.len() ==> #[trigger] parts_rev@[k] == parts_all[k],
                forall|k: int| 0 <= k < lists_rev@.len() ==> #[trigger] lists_rev@[k] == lists_all[k],
                forall|k: int| 0 <= k < isc@.len() ==> (#[trigger] isc@[k]).1 == parts_all[np - 1 - k].1
                    && isc@[k].0 == parts_all[np - 1 - k].0 && isc@[k].2 == lists_all[np - 1 - k],
            decreases parts_rev.len(),
        {
            let (idx, sub, _voxels) = parts_rev.pop().unwrap();
            let list = lists_rev.pop().unwrap();
            isc.push((idx, sub, list));
        }
        proof {
            assert(Seq::new(np as nat, |j: int| isc@[j].2) =~= lists@);
            broadcast use vstd::multiset::group_multiset_axioms;
            broadcast use vstd::seq_lib::group_to_multiset_ensures;
            assert(rest@.len() == 0);
            assert forall|x| rest@.to_multiset().count(x) == 0 by {
                assert(!rest@.contains(x));
            }
            assert(all_elements(lists@).to_multiset() =~= all.to_multiset());
        }
        Ok(DecomposedDomain {
            n_subdomains: np,
            index_subdomain_cells: isc,
            neighbor_map,
            rng_seed: self.get_rng_seed(),
        })
    }
}

impl<C: Mechanics> Domain<C, CartesianSubDomain> for CartesianCuboid {
    open spec fn can_split(&self) -> bool {
        self@.wf()
    }

    fn decompose(self, n_subdomains: usize, cells: Vec<C>) -> Result<DecomposedDomain<CartesianSubDomain, C>, DecomposeError> {
        CartesianCuboid::decompose(self, n_subdomains, cells)
    }
}

} // verus!
