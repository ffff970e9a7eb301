//! How many voxels each partition of a domain receives.
use vstd::prelude::*;
use vstd::arithmetic::div_mod::{lemma_fundamental_div_mod, lemma_mod_pos_bound};
use vstd::arithmetic::mul::lemma_mul_inequality;

verus! {

/// The smallest integer `c` with `c * b >= a`, for `a >= 0` and `b >= 1`.
pub open spec fn ceil_div(a: int, b: int) -> int {
    (a + b - 1) / b
}

/// `n` chunks of `avg` voxels and `m` chunks of `avg - 1` voxels split `n_voxel`
/// voxels over exactly `n_regions` chunks.
pub open spec fn is_decomposition(n_voxel: int, n_regions: int, n: int, m: int, avg: int) -> bool {
    &&& n >= 0
    &&& m >= 0
    &&& avg >= 0
    &&& n + m == n_regions
    &&& n * avg + m * (avg - 1) == n_voxel
}

/// What is left over when `n` chunks of `avg` and `m` chunks of `avg - 1` voxels
/// are taken from `n_voxel` voxels.
pub open spec fn residue(n_voxel: int, n: int, m: int, avg: int) -> int {
    n_voxel - avg * n - (avg - 1) * m
}

proof fn lemma_ceil_div(a: int, b: int)
    requires
        a >= 0,
        b >= 1,
    ensures
        0 <= ceil_div(a, b) <= a,
        a >= 1 ==> ceil_div(a, b) >= 1,
        0 <= ceil_div(a, b) * b - a < b,
{
    let q = ceil_div(a, b);
    lemma_fundamental_div_mod(a + b - 1, b);
    lemma_mod_pos_bound(a + b - 1, b);
    assert(b * q == q * b) by (nonlinear_arith);
    assert(q >= 0) by (nonlinear_arith)
        requires
            q * b >= a,
            b >= 1,
            a >= 0,
    ;
    if q > a {
        lemma_mul_inequality(a + 1, q, b);
        assert(a * b >= a) by (nonlinear_arith)
            requires
                a >= 0,
                b >= 1,
        ;
        assert((a + 1) * b == a * b + b) by (nonlinear_arith);
    }
    if a >= 1 && q < 1 {
        assert(q * b == 0) by (nonlinear_arith)
            requires
                q >= 0,
                q < 1,
        ;
    }
}

fn residue_of(n_voxel: i128, n: i128, m: i128, avg: i128) -> (r: i128)
    requires
        0 <= n_voxel <= usize::MAX,
        0 <= n,
        0 <= m,
        1 <= avg,
        avg * (n + m) <= 2 * (usize::MAX as int) + 1,
    ensures
        r == residue(n_voxel as int, n as int, m as int, avg as int),
{
    assert(avg * n + avg * m == avg * (n + m)) by (nonlinear_arith);
    assert(0 <= avg * n && 0 <= avg * m) by (nonlinear_arith)
        requires
            0 <= n,
            0 <= m,
            1 <= avg,
    ;
    assert((avg - 1) * m == avg * m - m) by (nonlinear_arith);
    n_voxel - avg * n - (avg - 1) * m
}

/// Splits `n_voxel` voxels into `n_regions` chunks of nearly equal size.
///
/// The result `(n, m, average_len)` says that `n` chunks receive `average_len`
/// voxels and `m` chunks receive `average_len - 1` voxels. The search starts at
/// `average_len = ceil(n_voxel / n_regions)` with all chunks full and moves one
/// chunk at a time to the smaller size until nothing is left over. It gives up
/// (returns `None`) only when no solution turns up within `n_regions` steps,
/// which happens exactly when `n_regions` is zero.
pub fn get_decomp_res(n_voxel: usize, n_regions: usize) -> (r: Option<(usize, usize, usize)>)
    ensures
        r.is_some() <==> n_regions >= 1,
        r matches Some((n, m, avg)) ==> {
            &&& is_decomposition(n_voxel as int, n_regions as int, n as int, m as int, avg as int)
            &&& avg == ceil_div(n_voxel as int, n_regions as int)
        },
{
    if n_regions == 0 {
        return None;
    }
    let nv: i128 = n_voxel as i128;
    let regions: i128 = n_regions as i128;
    let mut average_len: i128 = (nv + regions - 1) / regions;
    proof {
        lemma_ceil_div(nv as int, regions as int);
    }
    if nv == 0 {
        // Every chunk is empty.
        assert(is_decomposition(0, regions as int, regions as int, 0, 0)) by (nonlinear_arith)
            requires regions >= 1;
        return Some((n_regions, 0, 0));
    }
    let mut n: i128 = regions;
    let mut m: i128 = 0;
    let mut step: usize = 0;
    while step < n_regions
        invariant
            nv == n_voxel,
            regions == n_regions,
            regions >= 1,
            nv >= 1,
            1 <= average_len <= nv,
            average_len == ceil_div(nv as int, regions as int),
            0 <= average_len * regions - nv < regions,
            n + m == regions,
            m == step,
            0 <= m <= average_len * regions - nv,
        decreases n_regions - step,
    {
        proof {
            assert(average_len * (n + m) == average_len * regions);
        }
        let res = residue_of(nv, n, m, average_len);
        assert(res == nv - average_len * regions + m) by (nonlinear_arith)
            requires
                res == nv - average_len * n - (average_len - 1) * m,
                n + m == regions,
        ;
        if res == 0 {
            assert(n * average_len + m * (average_len - 1) == nv) by (nonlinear_arith)
                requires
                    res == nv - average_len * n - (average_len - 1) * m,
                    res == 0,
            ;
            return Some((n as usize, m as usize, average_len as usize));
        } else if res > 0 {
            if n == regions {
                // Chunks of this length cannot hold every voxel: try longer ones.
                average_len = average_len + 1;
                n = regions;
                m = 0;
            } else {
                n = n + 1;
                m = m - 1;
            }
        } else {
            n = n - 1;
            m = m + 1;
        }
        step = step + 1;
    }
    None
}

} // verus!
