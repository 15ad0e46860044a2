//! Future-covariate patches built by rolling the patched input along the
//! patch axis.
//!
//! Shapes are `(b*v, n*p)` flat: `bv` rows, each of `n` patches of `p`
//! points.
use vstd::prelude::*;
use vstd::arithmetic::div_mod::{lemma_add_mod_noop, lemma_small_mod};
use crate::layout::{flat4, lemma_flat4_bound, lemma_flat4_coords};

verus! {

/// Where element `k` of the rolled output comes from: point `j` of patch
/// `(ni + r + 1) % n` of the same row, for output `[row][ni][r][j]` of shape
/// `[bv][n][rolls][p]`.
pub open spec fn roll_src(k: int, n: int, p: int, rolls: int) -> int {
    let j = k % p;
    let t = k / p;
    let r = t % rolls;
    let t2 = t / rolls;
    let ni = t2 % n;
    let row = t2 / n;
    (row * n + (ni + r + 1) % n) * p + j
}

/// Whether element `k` of the rolled output comes from beyond the last patch
/// (`ni + 1 + r >= n`).
pub open spec fn roll_wraps(k: int, n: int, p: int, rolls: int) -> bool {
    let t = k / p;
    let r = t % rolls;
    let ni = (t / rolls) % n;
    ni + 1 + r >= n
}

/// The rolled patches of `x`, shape `[bv][n][rolls][p]`.
pub open spec fn rolled<T>(x: Seq<T>, bv: nat, n: nat, p: nat, rolls: nat) -> Seq<T> {
    Seq::new(bv * n * rolls * p, |k: int| x[roll_src(k, n as int, p as int, rolls as int)])
}

/// The wrap mask of the rolled patches.
pub open spec fn wrap_mask(bv: nat, n: nat, p: nat, rolls: nat) -> Seq<bool> {
    Seq::new(bv * n * rolls * p, |k: int| roll_wraps(k, n as int, p as int, rolls as int))
}

proof fn lemma_patch_bound(row: int, s: int, j: int, bv: int, n: int, p: int)
    requires
        0 <= row < bv,
        0 <= s < n,
        0 <= j < p,
    ensures
        0 <= row * n + s < bv * n,
        0 <= (row * n + s) * p + j < bv * n * p,
{
    assert(0 <= row * n + s < bv * n) by (nonlinear_arith)
        requires
            0 <= row < bv,
            0 <= s < n,
    ;
    assert(0 <= (row * n + s) * p + j < bv * n * p) by (nonlinear_arith)
        requires
            0 <= row * n + s < bv * n,
            0 <= j < p,
    ;
}

/// Rolls `x` (`(bv, n*p)`, elements past `bv*n*p` ignored) along the patch
/// axis: output `[row][ni][r][j]` is point `j` of patch `(ni + r + 1) % n`,
/// and the wrap mask marks the points taken from beyond the last patch.
pub fn roll_patches<T: Copy>(x: &[T], bv: usize, n: usize, p: usize, rolls: usize) -> (r: (Vec<T>, Vec<bool>))
    requires
        x@.len() >= bv * n * p,
        bv * n * rolls * p <= usize::MAX,
    ensures
        r.0@ == rolled(x@, bv as nat, n as nat, p as nat, rolls as nat),
        r.1@ == wrap_mask(bv as nat, n as nat, p as nat, rolls as nat),
{
    let mut out: Vec<T> = Vec::new();
    let mut wrap: Vec<bool> = Vec::new();
    let ghost spec = rolled(x@, bv as nat, n as nat, p as nat, rolls as nat);
    let ghost wspec = wrap_mask(bv as nat, n as nat, p as nat, rolls as nat);
    if bv == 0 || n == 0 || p == 0 || rolls == 0 {
        assert(bv * n * rolls * p == 0) by (nonlinear_arith)
            requires
                bv == 0 || n == 0 || p == 0 || rolls == 0,
        ;
        assert(out@ =~= spec);
        assert(wrap@ =~= wspec);
        return (out, wrap);
    }
    assert(bv * n <= bv * n * rolls * p && bv * n * rolls <= bv * n * rolls * p && bv * n * p
        <= bv * n * rolls * p) by (nonlinear_arith)
        requires
            bv >= 1,
            n >= 1,
            rolls >= 1,
            p >= 1,
    ;
    let total: usize = bv * n * rolls * p;
    let xl = x.len();
    let mut row: usize = 0;
    let mut ni: usize = 0;
    let mut r: usize = 0;
    let mut j: usize = 0;
    assert(flat4(0, 0, 0, 0, n as int, rolls as int, p as int) == 0) by (nonlinear_arith);
    while out.len() < total
        invariant
            total == bv * n * rolls * p,
            bv >= 1 && n >= 1 && rolls >= 1 && p >= 1,
            bv * n * p <= xl,
            xl == x@.len(),
            bv * n * p <= total,
            bv * n <= total,
            spec == rolled(x@, bv as nat, n as nat, p as nat, rolls as nat),
            wspec == wrap_mask(bv as nat, n as nat, p as nat, rolls as nat),
            ni < n,
            r < rolls,
            j < p,
            out@.len() == wrap@.len(),
            out@.len() == flat4(row as int, ni as int, r as int, j as int, n as int, rolls as int, p as int),
            out@.len() <= total,
            out@.len() < total ==> row < bv,
            out@ == spec.take(out@.len() as int),
            wrap@ == wspec.take(wrap@.len() as int),
        decreases total - out@.len(),
    {
        let ghost k = out@.len() as int;
        proof {
            lemma_flat4_bound(row as int, ni as int, r as int, j as int, bv as int, n as int, rolls as int, p as int);
            lemma_flat4_coords(row as int, ni as int, r as int, j as int, n as int, rolls as int, p as int);
            lemma_add_mod_noop(ni as int, r + 1, n as int);
            lemma_small_mod(ni as nat, n as nat);
        }
        // (ni + r + 1) % n, computed without overflow.
        let c = (r % n + 1) % n;
        proof {
            lemma_add_mod_noop(r as int, 1, n as int);
            if n == 1 {
                assert(1nat % 1nat == 0);
            }
        }
        let s = if ni >= n - c {
            ni - (n - c)
        } else {
            ni + c
        };
        proof {
            assert(c == (r + 1) % (n as int)) by {
                if n > 1 {
                    lemma_small_mod(1, n as nat);
                }
            }
            if ni + c >= n {
                assert((ni + c) % (n as int) == ni + c - n) by {
                    vstd::arithmetic::div_mod::lemma_fundamental_div_mod_converse_mod(
                        ni + c,
                        n as int,
                        1,
                        ni + c - n,
                    );
                }
            } else {
                lemma_small_mod((ni + c) as nat, n as nat);
            }
            assert(s as int == (ni + r + 1) % (n as int));
            lemma_patch_bound(row as int, s as int, j as int, bv as int, n as int, p as int);
        }
        let src = (row * n + s) * p + j;
        out.push(x[src]);
        let wraps = r >= n - 1 - ni;
        wrap.push(wraps);
        assert(out@ =~= spec.take(k + 1));
        assert(wrap@ =~= wspec.take(k + 1));
        if j + 1 < p {
            j = j + 1;
        } else {
            j = 0;
            assert((((row * n + ni) * rolls + r) * p + p) == ((row * n + ni) * rolls + r + 1) * p) by (nonlinear_arith);
            if r + 1 < rolls {
                r = r + 1;
            } else {
                r = 0;
                assert(((row * n + ni) * rolls + rolls) * p == ((row * n + ni + 1) * rolls) * p) by (nonlinear_arith);
                if ni + 1 < n {
                    ni = ni + 1;
                } else {
                    ni = 0;
                    assert(((row * n + n) * rolls) * p == (((row + 1) * n) * rolls) * p) by (nonlinear_arith);
                    assert(out@.len() < total ==> row + 1 < bv) by (nonlinear_arith)
                        requires
                            out@.len() == (((row + 1) * n) * rolls) * p,
                            total == bv * n * rolls * p,
                            n >= 1,
                            rolls >= 1,
                            p >= 1,
                    {
                        if row + 1 >= bv && out@.len() < total {
                            assert((row + 1) * n * rolls * p >= bv * n * rolls * p);
                        }
                    }
                    row = row + 1;
                }
            }
        }
    }
    assert(out@ =~= spec);
    assert(wrap@ =~= wspec);
    (out, wrap)
}

/// Creates future-covariate patches by rolling the patched input along the
/// patch axis. `x` is `(bv, n*p)` patched values; returns the rolled values
/// `(bv, n*rolls*p)` and the wrap mask of the same shape.
pub fn get_output_patch_via_roll<T: Copy>(x: &[T], bv: usize, n: usize, p: usize, rolls: usize) -> (r: (Vec<T>, Vec<bool>))
    requires
        x@.len() >= bv * n * p,
        bv * n * rolls * p <= usize::MAX,
    ensures
        r.0@ == rolled(x@, bv as nat, n as nat, p as nat, rolls as nat),
        r.1@ == wrap_mask(bv as nat, n as nat, p as nat, rolls as nat),
{
    roll_patches(x, bv, n, p, rolls)
}

/// Boolean variant of [`get_output_patch_via_roll`] for mask rolling.
pub fn get_output_patch_via_roll_bool(x: &[bool], bv: usize, n: usize, p: usize, rolls: usize) -> (r: (Vec<bool>, Vec<bool>))
    requires
        x@.len() >= bv * n * p,
        bv * n * rolls * p <= usize::MAX,
    ensures
        r.0@ == rolled(x@, bv as nat, n as nat, p as nat, rolls as nat),
        r.1@ == wrap_mask(bv as nat, n as nat, p as nat, rolls as nat),
{
    roll_patches(x, bv, n, p, rolls)
}

/// Where output `[row][ni][r][j]` comes from, in coordinates.
pub proof fn lemma_rolled_at<T>(x: Seq<T>, bv: nat, n: nat, p: nat, rolls: nat, row: int, ni: int, r: int, j: int)
    requires
        0 <= row < bv,
        0 <= ni < n,
        0 <= r < rolls,
        0 <= j < p,
    ensures
        0 <= flat4(row, ni, r, j, n as int, rolls as int, p as int) < bv * n * rolls * p,
        rolled(x, bv, n, p, rolls)[flat4(row, ni, r, j, n as int, rolls as int, p as int)]
            == x[(row * n + (ni + r + 1) % (n as int)) * p + j],
        wrap_mask(bv, n, p, rolls)[flat4(row, ni, r, j, n as int, rolls as int, p as int)]
            == (ni + 1 + r >= n),
{
    lemma_flat4_bound(row, ni, r, j, bv as int, n as int, rolls as int, p as int);
    lemma_flat4_coords(row, ni, r, j, n as int, rolls as int, p as int);
}

} // verus!
