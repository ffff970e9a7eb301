//! Lattice points of axis-aligned boxes, enumerated in lexicographic order.
//!
//! A box is given per axis by a lower bound `lo[i]` (inclusive) and an upper bound
//! `hi[i]` (exclusive). Its points are numbered with the last axis running fastest,
//! so the numbering is a mixed-radix encoding of the point.
use vstd::prelude::*;
use vstd::arithmetic::div_mod::{
    lemma_fundamental_div_mod, lemma_fundamental_div_mod_converse_div,
    lemma_fundamental_div_mod_converse_mod, lemma_mod_pos_bound,
};
use itertools::Itertools;

verus! {

/// Bounds that describe a box: as many lower as upper bounds, none above its partner.
pub open spec fn box_bounds_ok(lo: Seq<usize>, hi: Seq<usize>) -> bool {
    &&& lo.len() == hi.len()
    &&& forall|i: int| 0 <= i < lo.len() ==> lo[i] <= hi[i]
}

/// The number of lattice points in the box.
pub open spec fn box_size(lo: Seq<usize>, hi: Seq<usize>) -> int
    decreases lo.len(),
{
    if lo.len() == 0 {
        1
    } else {
        box_size(lo.drop_last(), hi.drop_last()) * (hi.last() - lo.last())
    }
}

/// The point `v` lies in the box.
pub open spec fn in_box(v: Seq<usize>, lo: Seq<usize>, hi: Seq<usize>) -> bool {
    &&& v.len() == lo.len()
    &&& forall|i: int| 0 <= i < v.len() ==> lo[i] <= #[trigger] v[i] < hi[i]
}

/// The point with number `k` in the box.
pub open spec fn box_nth(k: int, lo: Seq<usize>, hi: Seq<usize>) -> Seq<usize>
    decreases lo.len(),
{
    if lo.len() == 0 {
        Seq::empty()
    } else {
        let w = hi.last() - lo.last();
        box_nth(k / w, lo.drop_last(), hi.drop_last()).push((lo.last() + k % w) as usize)
    }
}

/// The number of the point `v` in the box.
pub open spec fn box_rank(v: Seq<usize>, lo: Seq<usize>, hi: Seq<usize>) -> int
    decreases lo.len(),
{
    if lo.len() == 0 {
        0
    } else {
        let w = hi.last() - lo.last();
        box_rank(v.drop_last(), lo.drop_last(), hi.drop_last()) * w + (v.last() - lo.last())
    }
}

/// `n` zeros: the lower corner of a grid.
pub open spec fn zeros(n: nat) -> Seq<usize> {
    Seq::new(n, |i: int| 0usize)
}

/// Number of voxels of a grid with `n[i]` voxels along axis `i`.
pub open spec fn grid_size(n: Seq<usize>) -> int {
    box_size(zeros(n.len()), n)
}

/// The voxel with number `k` in the grid.
pub open spec fn grid_nth(k: int, n: Seq<usize>) -> Seq<usize> {
    box_nth(k, zeros(n.len()), n)
}

/// The number of voxel `v` in the grid.
pub open spec fn grid_rank(v: Seq<usize>, n: Seq<usize>) -> int {
    box_rank(v, zeros(n.len()), n)
}

/// `v` is a voxel of the grid.
pub open spec fn in_grid(v: Seq<usize>, n: Seq<usize>) -> bool {
    in_box(v, zeros(n.len()), n)
}

/// A box has a non-negative number of points.
pub proof fn lemma_box_size_nonneg(lo: Seq<usize>, hi: Seq<usize>)
    requires
        box_bounds_ok(lo, hi),
    ensures
        box_size(lo, hi) >= 0,
    decreases lo.len(),
{
    if lo.len() > 0 {
        lemma_box_size_nonneg(lo.drop_last(), hi.drop_last());
        let s = box_size(lo.drop_last(), hi.drop_last());
        let w = hi.last() - lo.last();
        assert(s * w >= 0) by (nonlinear_arith)
            requires
                s >= 0,
                w >= 0,
        ;
    }
}

/// Every number below the size names a point of the box, and that point's number
/// is the number again.
pub proof fn lemma_box_nth(k: int, lo: Seq<usize>, hi: Seq<usize>)
    requires
        box_bounds_ok(lo, hi),
        0 <= k < box_size(lo, hi),
    ensures
        in_box(box_nth(k, lo, hi), lo, hi),
        box_rank(box_nth(k, lo, hi), lo, hi) == k,
    decreases lo.len(),
{
    if lo.len() > 0 {
        let plo = lo.drop_last();
        let phi = hi.drop_last();
        let w = hi.last() - lo.last();
        let s = box_size(plo, phi);
        lemma_box_size_nonneg(plo, phi);
        assert(w > 0 && s > 0) by (nonlinear_arith)
            requires
                0 <= k < s * w,
                s >= 0,
                w >= 0,
        ;
        lemma_fundamental_div_mod(k, w);
        lemma_mod_pos_bound(k, w);
        let q = k / w;
        assert(0 <= q < s) by (nonlinear_arith)
            requires
                k == w * q + k % w,
                0 <= k % w < w,
                0 <= k < s * w,
        ;
        lemma_box_nth(q, plo, phi);
        let p = box_nth(q, plo, phi);
        let v = box_nth(k, lo, hi);
        assert(v == p.push((lo.last() + k % w) as usize));
        assert(v.drop_last() =~= p);
        assert forall|i: int| 0 <= i < v.len() implies lo[i] <= #[trigger] v[i] < hi[i] by {
            if i < v.len() - 1 {
                assert(v[i] == p[i]);
                assert(plo[i] == lo[i] && phi[i] == hi[i]);
            }
        }
        assert(w * q == q * w) by (nonlinear_arith);
    }
}

/// The number of a point of the box is below the size and names that point.
pub proof fn lemma_box_rank(v: Seq<usize>, lo: Seq<usize>, hi: Seq<usize>)
    requires
        box_bounds_ok(lo, hi),
        in_box(v, lo, hi),
    ensures
        0 <= box_rank(v, lo, hi) < box_size(lo, hi),
        box_nth(box_rank(v, lo, hi), lo, hi) == v,
    decreases lo.len(),
{
    if lo.len() > 0 {
        let plo = lo.drop_last();
        let phi = hi.drop_last();
        let pv = v.drop_last();
        let w = hi.last() - lo.last();
        let d = v.last() - lo.last();
        assert(in_box(pv, plo, phi)) by {
            assert forall|i: int| 0 <= i < pv.len() implies plo[i] <= #[trigger] pv[i] < phi[i] by {
                assert(pv[i] == v[i]);
            }
        }
        lemma_box_rank(pv, plo, phi);
        let r0 = box_rank(pv, plo, phi);
        let s = box_size(plo, phi);
        let r = box_rank(v, lo, hi);
        assert(0 <= d < w);
        assert(r == r0 * w + d);
        assert(0 <= r < s * w) by (nonlinear_arith)
            requires
                r == r0 * w + d,
                0 <= r0 < s,
                0 <= d < w,
        ;
        lemma_fundamental_div_mod_converse_div(r, w, r0, d);
        lemma_fundamental_div_mod_converse_mod(r, w, r0, d);
        assert(box_nth(r, lo, hi) =~= pv.push(v.last()));
        assert(pv.push(v.last()) =~= v);
    }
}

/// Numbers below the size name distinct points.
pub proof fn lemma_box_nth_injective(j: int, k: int, lo: Seq<usize>, hi: Seq<usize>)
    requires
        box_bounds_ok(lo, hi),
        0 <= j < box_size(lo, hi),
        0 <= k < box_size(lo, hi),
        box_nth(j, lo, hi) == box_nth(k, lo, hi),
    ensures
        j == k,
{
    lemma_box_nth(j, lo, hi);
    lemma_box_nth(k, lo, hi);
}

/// The grid of `n` voxels per axis is a box.
pub proof fn lemma_zeros_bounds(n: Seq<usize>)
    ensures
        box_bounds_ok(zeros(n.len()), n),
{
}

/// Relies on itertools' `multi_cartesian_product`: the product of the ranges
/// `lo[i]..hi[i]`, in lexicographic order with the last range running fastest.
/// With at least one range it yields every combination once; with an empty range
/// it yields nothing.
#[verifier::external_body]
pub(crate) fn cartesian_product(lo: &Vec<usize>, hi: &Vec<usize>) -> (r: Vec<Vec<usize>>)
    requires
        box_bounds_ok(lo@, hi@),
        lo.len() >= 1,
        box_size(lo@, hi@) <= usize::MAX,
    ensures
        r@.len() == box_size(lo@, hi@),
        forall|k: int| 0 <= k < r@.len() ==> (#[trigger] r@[k])@ == box_nth(k, lo@, hi@),
{
    lo.iter().zip(hi.iter()).map(|(a, b)| *a..*b).multi_cartesian_product().collect()
}

} // verus!
