//! Axis permutations of flat row-major buffers.
//!
//! A buffer of shape `[b][m1][m2][d]` becomes `[b][m2][m1][d]`: the two middle
//! axes trade places, each innermost run of `d` elements moves as a block.
//! Matrix transposes (`b = d = 1`) and the variate/patch reorderings of the
//! mixing transformer are all of this form.
use vstd::prelude::*;
use vstd::arithmetic::div_mod::{
    lemma_fundamental_div_mod, lemma_fundamental_div_mod_converse_div,
    lemma_fundamental_div_mod_converse_mod,
};

verus! {

/// Where output element `k` of the `[b][m2][m1][d]` layout comes from in the
/// `[b][m1][m2][d]` input.
pub open spec fn swap_src(k: int, m1: int, m2: int, d: int) -> int {
    let e = k % d;
    let t = k / d;
    let i = t % m1;
    let t2 = t / m1;
    let j = t2 % m2;
    let bi = t2 / m2;
    ((bi * m1 + i) * m2 + j) * d + e
}

/// `x`, of shape `[b][m1][m2][d]`, with its two middle axes swapped.
pub open spec fn swap_axes<T>(x: Seq<T>, b: nat, m1: nat, m2: nat, d: nat) -> Seq<T> {
    Seq::new(b * m1 * m2 * d, |k: int| x[swap_src(k, m1 as int, m2 as int, d as int)])
}

/// The flat index of `[bi][j][i][e]` in a `[_][m2][m1][d]` buffer.
pub open spec fn flat4(bi: int, j: int, i: int, e: int, m2: int, m1: int, d: int) -> int {
    ((bi * m2 + j) * m1 + i) * d + e
}

/// Reading the coordinates back from a flat index.
pub(crate) proof fn lemma_flat4_coords(bi: int, j: int, i: int, e: int, m2: int, m1: int, d: int)
    requires
        0 <= bi,
        0 <= j < m2,
        0 <= i < m1,
        0 <= e < d,
    ensures
        flat4(bi, j, i, e, m2, m1, d) % d == e,
        flat4(bi, j, i, e, m2, m1, d) / d == (bi * m2 + j) * m1 + i,
        ((bi * m2 + j) * m1 + i) % m1 == i,
        ((bi * m2 + j) * m1 + i) / m1 == bi * m2 + j,
        (bi * m2 + j) % m2 == j,
        (bi * m2 + j) / m2 == bi,
{
    let k = flat4(bi, j, i, e, m2, m1, d);
    let t = (bi * m2 + j) * m1 + i;
    lemma_fundamental_div_mod_converse_mod(k, d, t, e);
    lemma_fundamental_div_mod_converse_div(k, d, t, e);
    lemma_fundamental_div_mod_converse_mod(t, m1, bi * m2 + j, i);
    lemma_fundamental_div_mod_converse_div(t, m1, bi * m2 + j, i);
    lemma_fundamental_div_mod_converse_mod(bi * m2 + j, m2, bi, j);
    lemma_fundamental_div_mod_converse_div(bi * m2 + j, m2, bi, j);
}

/// Reading the source position of a swapped element.
pub(crate) proof fn lemma_swap_src(bi: int, j: int, i: int, e: int, m1: int, m2: int, d: int)
    requires
        0 <= bi,
        0 <= j < m2,
        0 <= i < m1,
        0 <= e < d,
    ensures
        swap_src(flat4(bi, j, i, e, m2, m1, d), m1, m2, d) == flat4(bi, i, j, e, m1, m2, d),
{
    lemma_flat4_coords(bi, j, i, e, m2, m1, d);
}

/// A flat index within bounds lies within the buffer.
pub(crate) proof fn lemma_flat4_bound(bi: int, j: int, i: int, e: int, b: int, m2: int, m1: int, d: int)
    requires
        0 <= bi < b,
        0 <= j < m2,
        0 <= i < m1,
        0 <= e < d,
    ensures
        0 <= bi * m2 + j < b * m2,
        0 <= (bi * m2 + j) * m1 + i < b * m2 * m1,
        0 <= flat4(bi, j, i, e, m2, m1, d) < b * m2 * m1 * d,
        b * m2 * m1 * d == b * m1 * m2 * d,
{
    let t1 = bi * m2 + j;
    assert(0 <= t1 < b * m2) by (nonlinear_arith)
        requires
            0 <= bi < b,
            0 <= j < m2,
            t1 == bi * m2 + j,
    ;
    let t2 = t1 * m1 + i;
    assert(0 <= t2 < b * m2 * m1) by (nonlinear_arith)
        requires
            0 <= t1 < b * m2,
            0 <= i < m1,
            t2 == t1 * m1 + i,
    ;
    assert(0 <= t2 * d + e < b * m2 * m1 * d) by (nonlinear_arith)
        requires
            0 <= t2 < b * m2 * m1,
            0 <= e < d,
    ;
    assert(b * m2 * m1 * d == b * m1 * m2 * d) by (nonlinear_arith);
}

/// Every index of a `[b][m1][m2][d]` buffer has coordinates.
pub(crate) proof fn lemma_coordinates(k: int, b: int, m1: int, m2: int, d: int) -> (c: (int, int, int, int))
    requires
        0 <= b,
        0 <= m1,
        0 <= m2,
        0 <= d,
        0 <= k < b * m1 * m2 * d,
    ensures
        0 <= c.0 < b,
        0 <= c.1 < m1,
        0 <= c.2 < m2,
        0 <= c.3 < d,
        k == flat4(c.0, c.1, c.2, c.3, m1, m2, d),
{
    assert(d > 0 && m2 > 0 && m1 > 0 && b > 0) by (nonlinear_arith)
        requires
            0 <= b,
            0 <= m1,
            0 <= m2,
            0 <= d,
            0 <= k < b * m1 * m2 * d,
    ;
    let e = k % d;
    let t = k / d;
    lemma_fundamental_div_mod(k, d);
    let j = t % m2;
    let t2 = t / m2;
    lemma_fundamental_div_mod(t, m2);
    let i = t2 % m1;
    let bi = t2 / m1;
    lemma_fundamental_div_mod(t2, m1);
    assert(0 <= t) by (nonlinear_arith)
        requires
            k == d * t + e,
            0 <= e < d,
            0 <= k,
    ;
    assert(0 <= t2) by (nonlinear_arith)
        requires
            t == m2 * t2 + j,
            0 <= j < m2,
            0 <= t,
    ;
    assert(0 <= bi) by (nonlinear_arith)
        requires
            t2 == m1 * bi + i,
            0 <= i < m1,
            0 <= t2,
    ;
    assert(k == ((bi * m1 + i) * m2 + j) * d + e) by (nonlinear_arith)
        requires
            k == d * t + e,
            t == m2 * t2 + j,
            t2 == m1 * bi + i,
    ;
    assert(bi < b) by (nonlinear_arith)
        requires
            k == ((bi * m1 + i) * m2 + j) * d + e,
            k < b * m1 * m2 * d,
            0 <= i < m1,
            0 <= j < m2,
            0 <= e < d,
            0 <= bi,
    {
        if bi >= b {
            assert((bi * m1 + i) * m2 + j >= b * m1 * m2);
        }
    }
    (bi, i, j, e)
}

/// Swapping the middle axes twice gives back the buffer.
pub proof fn lemma_swap_axes_involution<T>(x: Seq<T>, b: nat, m1: nat, m2: nat, d: nat)
    requires
        x.len() == b * m1 * m2 * d,
    ensures
        swap_axes(swap_axes(x, b, m1, m2, d), b, m2, m1, d) == x,
{
    let y = swap_axes(x, b, m1, m2, d);
    let z = swap_axes(y, b, m2, m1, d);
    assert(b * m2 * m1 * d == b * m1 * m2 * d) by (nonlinear_arith);
    assert forall|k: int| 0 <= k < x.len() implies z[k] == x[k] by {
        let c = lemma_coordinates(k, b as int, m1 as int, m2 as int, d as int);
        let (bi, i, j, e) = c;
        // k sits at [bi][i][j][e] of the [b][m1][m2][d] layout.
        lemma_swap_src(bi, i, j, e, m2 as int, m1 as int, d as int);
        let k2 = flat4(bi, j, i, e, m2 as int, m1 as int, d as int);
        lemma_flat4_bound(bi, j, i, e, b as int, m2 as int, m1 as int, d as int);
        lemma_swap_src(bi, j, i, e, m1 as int, m2 as int, d as int);
        assert(y[k2] == x[k]);
    }
    assert(z =~= x);
}

/// `x`, of shape `[b][m1][m2][d]` (elements past that are ignored), with its
/// two middle axes swapped: the `[b][m2][m1][d]` buffer whose element
/// `[bi][j][i][e]` is element `[bi][i][j][e]` of `x`.
pub fn swap_middle_axes<T: Copy>(x: &[T], b: usize, m1: usize, m2: usize, d: usize) -> (out: Vec<T>)
    requires
        x@.len() >= b * m1 * m2 * d,
    ensures
        out@ == swap_axes(x@, b as nat, m1 as nat, m2 as nat, d as nat),
{
    let mut out: Vec<T> = Vec::new();
    if b == 0 || m1 == 0 || m2 == 0 || d == 0 {
        assert(b * m1 * m2 * d == 0) by (nonlinear_arith)
            requires
                b == 0 || m1 == 0 || m2 == 0 || d == 0,
        ;
        assert(out@ =~= swap_axes(x@, b as nat, m1 as nat, m2 as nat, d as nat));
        return out;
    }
    let ghost total: int = b * m1 * m2 * d;
    assert(b * m1 <= total && b * m1 * m2 <= total) by (nonlinear_arith)
        requires
            b >= 1,
            m1 >= 1,
            m2 >= 1,
            d >= 1,
            total == b * m1 * m2 * d,
    ;
    let xl = x.len();
    assert(total <= xl);
    let n: usize = b * m1 * m2 * d;
    let ghost spec = swap_axes(x@, b as nat, m1 as nat, m2 as nat, d as nat);
    let mut bi: usize = 0;
    let mut j: usize = 0;
    let mut i: usize = 0;
    let mut e: usize = 0;
    assert(flat4(0, 0, 0, 0, m2 as int, m1 as int, d as int) == 0) by (nonlinear_arith);
    while out.len() < n
        invariant
            n == b * m1 * m2 * d,
            n <= x@.len(),
            b >= 1 && m1 >= 1 && m2 >= 1 && d >= 1,
            spec == swap_axes(x@, b as nat, m1 as nat, m2 as nat, d as nat),
            j < m2,
            i < m1,
            e < d,
            out@.len() == flat4(bi as int, j as int, i as int, e as int, m2 as int, m1 as int, d as int),
            out@.len() <= n,
            b * m1 <= n,
            b * m1 * m2 <= n,
            out@.len() < n ==> bi < b,
            out@ == spec.take(out@.len() as int),
        decreases n - out@.len(),
    {
        let ghost k = out@.len() as int;
        proof {
            lemma_flat4_bound(bi as int, j as int, i as int, e as int, b as int, m2 as int, m1 as int, d as int);
            lemma_flat4_bound(bi as int, i as int, j as int, e as int, b as int, m1 as int, m2 as int, d as int);
            lemma_swap_src(bi as int, j as int, i as int, e as int, m1 as int, m2 as int, d as int);
        }
        let src = ((bi * m1 + i) * m2 + j) * d + e;
        out.push(x[src]);
        assert(out@ =~= spec.take(k + 1));
        if e + 1 < d {
            e = e + 1;
        } else {
            e = 0;
            assert((((bi * m2 + j) * m1 + i) * d + d) == ((bi * m2 + j) * m1 + i + 1) * d) by (nonlinear_arith);
            if i + 1 < m1 {
                i = i + 1;
            } else {
                i = 0;
                assert(((bi * m2 + j) * m1 + m1) * d == ((bi * m2 + j + 1) * m1) * d) by (nonlinear_arith);
                if j + 1 < m2 {
                    j = j + 1;
                } else {
                    j = 0;
                    assert(((bi * m2 + m2) * m1) * d == (((bi + 1) * m2) * m1) * d) by (nonlinear_arith);
                    assert(out@.len() < n ==> bi + 1 < b) by (nonlinear_arith)
                        requires
                            out@.len() == (((bi + 1) * m2) * m1) * d,
                            n == b * m1 * m2 * d,
                            m1 >= 1,
                            m2 >= 1,
                            d >= 1,
                    {
                        if bi + 1 >= b && out@.len() < n {
                            assert((bi + 1) * m2 * m1 * d >= b * m2 * m1 * d);
                        }
                    }
                    bi = bi + 1;
                }
            }
        }
    }
    assert(spec.len() == n);
    assert(out@ =~= spec);
    out
}

} // verus!
