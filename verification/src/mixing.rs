//! Reorderings between the sequence-attention layout `(b, v, n, d)` and the
//! variate-attention layout `(b, n, v, d)` of the mixing transformer.
use vstd::prelude::*;
use crate::layout::{lemma_swap_axes_involution, swap_axes, swap_middle_axes};
use crate::tensor::Tensor2D;

verus! {

/// `(b*v*n, d)` rows reordered to `(b*n*v, d)`, written into `out`.
pub fn transpose_bvnd_to_bnvd_into<T: Copy>(
    x: &Tensor2D<T>,
    out: &mut Tensor2D<T>,
    b: usize,
    v: usize,
    n: usize,
    d: usize,
)
    requires
        x.num_rows() == b * v * n,
        x.num_cols() == d,
        old(out).num_rows() == b * n * v,
        old(out).num_cols() == d,
    ensures
        final(out).num_rows() == old(out).num_rows(),
        final(out).num_cols() == d,
        final(out).values() == swap_axes(x.values(), b as nat, v as nat, n as nat, d as nat),
{
    let data = x.data();
    assert(b * v * n * d == b * n * v * d) by (nonlinear_arith);
    let moved = swap_middle_axes(data, b, v, n, d);
    out.overwrite(moved);
}

/// `(b*v*n, d)` rows reordered to `(b*n*v, d)`.
pub fn transpose_bvnd_to_bnvd<T: Copy>(x: &Tensor2D<T>, b: usize, v: usize, n: usize, d: usize) -> (r: Tensor2D<T>)
    requires
        x.num_rows() == b * v * n,
        x.num_cols() == d,
    ensures
        r.num_rows() == b * n * v,
        r.num_cols() == d,
        r.values() == swap_axes(x.values(), b as nat, v as nat, n as nat, d as nat),
{
    let data = x.data();
    assert(b * v * n * d == b * n * v * d) by (nonlinear_arith);
    assert(b * n * v == b * v * n) by (nonlinear_arith);
    let moved = swap_middle_axes(data, b, v, n, d);
    Tensor2D::from_exact(x.rows(), d, moved)
}

/// Inverse of [`transpose_bvnd_to_bnvd_into`]: `(b*n*v, d)` rows reordered
/// to `(b*v*n, d)`, written into `out`.
pub fn transpose_bnvd_to_bvnd_into<T: Copy>(
    x: &Tensor2D<T>,
    out: &mut Tensor2D<T>,
    b: usize,
    v: usize,
    n: usize,
    d: usize,
)
    requires
        x.num_rows() == b * n * v,
        x.num_cols() == d,
        old(out).num_rows() == b * v * n,
        old(out).num_cols() == d,
    ensures
        final(out).num_rows() == old(out).num_rows(),
        final(out).num_cols() == d,
        final(out).values() == swap_axes(x.values(), b as nat, n as nat, v as nat, d as nat),
{
    let data = x.data();
    assert(b * v * n * d == b * n * v * d) by (nonlinear_arith);
    let moved = swap_middle_axes(data, b, n, v, d);
    out.overwrite(moved);
}

/// Inverse of [`transpose_bvnd_to_bnvd`]: `(b*n*v, d)` rows reordered to
/// `(b*v*n, d)`.
pub fn transpose_bnvd_to_bvnd<T: Copy>(x: &Tensor2D<T>, b: usize, v: usize, n: usize, d: usize) -> (r: Tensor2D<T>)
    requires
        x.num_rows() == b * n * v,
        x.num_cols() == d,
    ensures
        r.num_rows() == b * v * n,
        r.num_cols() == d,
        r.values() == swap_axes(x.values(), b as nat, n as nat, v as nat, d as nat),
{
    let data = x.data();
    assert(b * v * n * d == b * n * v * d) by (nonlinear_arith);
    assert(b * n * v == b * v * n) by (nonlinear_arith);
    let moved = swap_middle_axes(data, b, n, v, d);
    Tensor2D::from_exact(x.rows(), d, moved)
}

/// Permutes a `(b, v, n)` mask to `(b, n, v)` (elements past `b*v*n` are
/// ignored).
pub fn transpose_mask_bvn_to_bnv(mask: &[bool], b: usize, v: usize, n: usize) -> (r: Vec<bool>)
    requires
        mask@.len() >= b * v * n,
    ensures
        r@ == swap_axes(mask@, b as nat, v as nat, n as nat, 1),
{
    assert(b * v * n * 1 == b * v * n) by (nonlinear_arith);
    swap_middle_axes(mask, b, v, n, 1)
}

/// The two reorderings undo each other: going to the variate layout and
/// back gives the original rows.
pub proof fn lemma_bvnd_roundtrip<T>(x: Seq<T>, b: nat, v: nat, n: nat, d: nat)
    requires
        x.len() == b * v * n * d,
    ensures
        swap_axes(swap_axes(x, b, v, n, d), b, n, v, d) == x,
        swap_axes(swap_axes(x, b, n, v, d), b, v, n, d) == x,
{
    lemma_swap_axes_involution(x, b, v, n, d);
    assert(b * n * v * d == b * v * n * d) by (nonlinear_arith);
    lemma_swap_axes_involution(x, b, n, v, d);
}

} // verus!
