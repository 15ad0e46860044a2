//! The shape logic of non-autoregressive decoding: argument checks, the
//! patch arithmetic of context and horizon, left padding, and the masks that
//! steer the model (which values are hidden, which variates are targets,
//! which patches are forecast positions).
use vstd::prelude::*;

verus! {

// ---------------------------------------------------------------------------
// Grids
// ---------------------------------------------------------------------------

/// The row-major `rows x cols` grid whose element `(r, c)` is `f(r, c)`.
pub fn build_grid<T, F: Fn(usize, usize) -> T>(rows: usize, cols: usize, f: F) -> (out: Vec<T>)
    requires
        rows * cols <= usize::MAX,
        forall|r: usize, c: usize| r < rows && c < cols ==> #[trigger] f.requires((r, c)),
    ensures
        out@.len() == rows * cols,
        forall|r: int, c: int|
            0 <= r < rows && 0 <= c < cols ==> f.ensures(
                (r as usize, c as usize),
                #[trigger] out@[r * cols + c],
            ),
{
    let mut out: Vec<T> = Vec::new();
    let mut r: usize = 0;
    while r < rows
        invariant
            r <= rows,
            rows * cols <= usize::MAX,
            forall|r: usize, c: usize| r < rows && c < cols ==> #[trigger] f.requires((r, c)),
            out@.len() == r * cols,
            forall|r2: int, c2: int|
                0 <= r2 < r && 0 <= c2 < cols ==> f.ensures(
                    (r2 as usize, c2 as usize),
                    #[trigger] out@[r2 * cols + c2],
                ),
        decreases rows - r,
    {
        let ghost before = out@;
        assert((r + 1) * cols <= rows * cols) by (nonlinear_arith)
            requires
                r < rows,
        ;
        assert((r + 1) * cols == r * cols + cols) by (nonlinear_arith);
        let mut c: usize = 0;
        while c < cols
            invariant
                r < rows,
                c <= cols,
                (r + 1) * cols <= rows * cols,
                (r + 1) * cols == r * cols + cols,
                rows * cols <= usize::MAX,
                forall|r: usize, c: usize| r < rows && c < cols ==> #[trigger] f.requires((r, c)),
                before.len() == r * cols,
                out@.len() == r * cols + c,
                out@.take(before.len() as int) == before,
                forall|c2: int|
                    0 <= c2 < c ==> f.ensures((r, c2 as usize), #[trigger] out@[r * cols + c2]),
            decreases cols - c,
        {
            let x = f(r, c);
            let ghost prev = out@;
            out.push(x);
            assert(out@.take(before.len() as int) =~= before) by {
                assert(prev.take(before.len() as int) == before);
            }
            c = c + 1;
        }
        assert forall|r2: int, c2: int|
            0 <= r2 < r + 1 && 0 <= c2 < cols implies f.ensures(
                (r2 as usize, c2 as usize),
                #[trigger] out@[r2 * cols + c2],
            ) by {
            if r2 < r {
                lemma_row_index(r2, c2, r as int, cols as int);
                assert(out@[r2 * cols + c2] == before[r2 * cols + c2]);
            }
        }
        r = r + 1;
    }
    out
}

// ---------------------------------------------------------------------------
// Left padding
// ---------------------------------------------------------------------------

/// Rows of width `w` moved to the right end of rows of width `wn`, the
/// first `wn - w` places of each row holding `fill`.
pub open spec fn padded_at<T>(x: Seq<T>, w: int, wn: int, fill: T, r: int, c: int) -> T {
    if c < wn - w {
        fill
    } else {
        x[r * w + c - (wn - w)]
    }
}

pub(crate) proof fn lemma_row_index(r: int, c: int, rows: int, w: int)
    requires
        0 <= r < rows,
        0 <= c < w,
    ensures
        0 <= r * w + c < rows * w,
        r * w + c + 1 == (if c + 1 < w { r * w + (c + 1) } else { (r + 1) * w }),
{
    assert(0 <= r * w + c < rows * w) by (nonlinear_arith)
        requires
            0 <= r < rows,
            0 <= c < w,
    ;
    assert((r + 1) * w == r * w + w) by (nonlinear_arith);
}

/// Left-pads each of `rows` rows of width `width` to width `width_new`
/// with `fill` (elements past `rows * width` are ignored).
pub fn pad_left<T: Copy>(data: &[T], rows: usize, width: usize, width_new: usize, fill: T) -> (out: Vec<T>)
    requires
        width <= width_new,
        data@.len() >= rows * width,
        rows * width_new <= usize::MAX,
    ensures
        out@.len() == rows * width_new,
        forall|r: int, c: int|
            0 <= r < rows && 0 <= c < width_new ==> #[trigger] out@[r * width_new + c] == padded_at(
                data@,
                width as int,
                width_new as int,
                fill,
                r,
                c,
            ),
{
    let mut out: Vec<T> = Vec::new();
    let pad = width_new - width;
    let dl = data.len();
    let mut r: usize = 0;
    while r < rows
        invariant
            r <= rows,
            width <= width_new,
            pad == width_new - width,
            data@.len() >= rows * width,
            dl == data@.len(),
            rows * width_new <= usize::MAX,
            out@.len() == r * width_new,
            forall|r2: int, c2: int|
                0 <= r2 < r && 0 <= c2 < width_new ==> #[trigger] out@[r2 * width_new + c2] == padded_at(
                    data@,
                    width as int,
                    width_new as int,
                    fill,
                    r2,
                    c2,
                ),
        decreases rows - r,
    {
        let mut c: usize = 0;
        let ghost before = out@;
        assert(r * width <= rows * width && (r + 1) * width <= rows * width && (r + 1) * width_new
            <= rows * width_new) by (nonlinear_arith)
            requires
                r < rows,
        ;
        assert((r + 1) * width == r * width + width && (r + 1) * width_new == r * width_new
            + width_new) by (nonlinear_arith);
        while c < width_new
            invariant
                r < rows,
                c <= width_new,
                width <= width_new,
                pad == width_new - width,
                data@.len() >= rows * width,
                dl == data@.len(),
                (r + 1) * width <= rows * width,
                (r + 1) * width == r * width + width,
                (r + 1) * width_new <= rows * width_new,
                (r + 1) * width_new == r * width_new + width_new,
                rows * width_new <= usize::MAX,
                before.len() == r * width_new,
                out@.len() == r * width_new + c,
                out@.take(before.len() as int) == before,
                forall|c2: int|
                    0 <= c2 < c ==> #[trigger] out@[r * width_new + c2] == padded_at(
                        data@,
                        width as int,
                        width_new as int,
                        fill,
                        r as int,
                        c2,
                    ),
            decreases width_new - c,
        {
            if c < pad {
                out.push(fill);
            } else {
                out.push(data[r * width + (c - pad)]);
            }
            c = c + 1;
        }
        assert forall|r2: int, c2: int|
            0 <= r2 < r + 1 && 0 <= c2 < width_new implies #[trigger] out@[r2 * width_new + c2]
            == padded_at(data@, width as int, width_new as int, fill, r2, c2) by {
            if r2 < r {
                lemma_row_index(r2, c2, r as int, width_new as int);
                assert(out@[r2 * width_new + c2] == before[r2 * width_new + c2]);
            }
        }
        r = r + 1;
    }
    out
}

/// Left-pads each row of a boolean mask with `true` (padding counts as
/// masked).
pub fn pad_left_bool(m: &[bool], rows: usize, width: usize, width_new: usize) -> (out: Vec<bool>)
    requires
        width <= width_new,
        m@.len() >= rows * width,
        rows * width_new <= usize::MAX,
    ensures
        out@.len() == rows * width_new,
        forall|r: int, c: int|
            0 <= r < rows && 0 <= c < width_new ==> #[trigger] out@[r * width_new + c] == padded_at(
                m@,
                width as int,
                width_new as int,
                true,
                r,
                c,
            ),
{
    pad_left(m, rows, width, width_new, true)
}

/// Left-pads past-and-future rows `(rows, context + horizon)` to
/// `(rows, ctx_padded + horizon)`: the future part keeps its place at the
/// end of each row.
pub fn pad_left_pf<T: Copy>(
    data: &[T],
    rows: usize,
    context: usize,
    ctx_padded: usize,
    horizon: usize,
    fill: T,
) -> (out: Vec<T>)
    requires
        context <= ctx_padded,
        ctx_padded + horizon <= usize::MAX,
        data@.len() >= rows * (context + horizon),
        rows * (ctx_padded + horizon) <= usize::MAX,
    ensures
        out@.len() == rows * (ctx_padded + horizon),
        forall|r: int, c: int|
            0 <= r < rows && 0 <= c < ctx_padded + horizon ==> #[trigger] out@[r * (ctx_padded
                + horizon) + c] == padded_at(
                data@,
                context + horizon,
                ctx_padded + horizon,
                fill,
                r,
                c,
            ),
{
    pad_left(data, rows, context + horizon, ctx_padded + horizon, fill)
}

/// Boolean variant of [`pad_left_pf`], padding with `true`.
pub fn pad_left_pf_bool(m: &[bool], rows: usize, context: usize, ctx_padded: usize, horizon: usize) -> (out: Vec<bool>)
    requires
        context <= ctx_padded,
        ctx_padded + horizon <= usize::MAX,
        m@.len() >= rows * (context + horizon),
        rows * (ctx_padded + horizon) <= usize::MAX,
    ensures
        out@.len() == rows * (ctx_padded + horizon),
        forall|r: int, c: int|
            0 <= r < rows && 0 <= c < ctx_padded + horizon ==> #[trigger] out@[r * (ctx_padded
                + horizon) + c] == padded_at(m@, context + horizon, ctx_padded + horizon, true, r, c),
{
    pad_left(m, rows, context + horizon, ctx_padded + horizon, true)
}

} // verus!

verus! {

// ---------------------------------------------------------------------------
// Argument checks and patch arithmetic
// ---------------------------------------------------------------------------

/// Why a decode request was refused.
#[derive(Debug, Clone, Copy, PartialEq, Eq, Structural)]
pub enum DecodeError {
    /// The horizon is zero.
    ZeroHorizon,
    /// The batch size is zero.
    ZeroBatch,
    /// The past-only covariate rows are not a multiple of the batch size.
    PastOnlyRows,
    /// The past-and-future covariate rows are not a multiple of the batch size.
    PastFutureRows,
}

/// Variates per series: targets `u`, past-only covariates, past-and-future
/// covariates, and their total.
#[derive(Debug, Clone, Copy, PartialEq, Eq, Structural)]
pub struct DecodeDims {
    pub v_po: usize,
    pub w_pf: usize,
    pub v_total: usize,
}

/// The variate counts of a decode request, or why it is refused; the
/// covariate row counts are given where the covariates are.
pub open spec fn decode_dims_spec(horizon: usize, b: usize, u: usize, po_rows: Option<usize>, pf_rows: Option<usize>) -> Result<
    DecodeDims,
    DecodeError,
> {
    if horizon == 0 {
        Err(DecodeError::ZeroHorizon)
    } else if b == 0 {
        Err(DecodeError::ZeroBatch)
    } else if po_rows matches Some(r) && r % b != 0 {
        Err(DecodeError::PastOnlyRows)
    } else if pf_rows matches Some(r) && r % b != 0 {
        Err(DecodeError::PastFutureRows)
    } else {
        let v_po = match po_rows {
            Some(r) => r / b,
            None => 0,
        };
        let w_pf = match pf_rows {
            Some(r) => r / b,
            None => 0,
        };
        Ok(DecodeDims { v_po, w_pf, v_total: (u + v_po + w_pf) as usize })
    }
}

/// Checks a decode request and counts its variates.
pub fn decode_dims(horizon: usize, b: usize, u: usize, po_rows: Option<usize>, pf_rows: Option<usize>) -> (r: Result<
    DecodeDims,
    DecodeError,
>)
    requires
        u + (match po_rows {
            Some(r) => r,
            None => 0,
        }) + (match pf_rows {
            Some(r) => r,
            None => 0,
        }) <= usize::MAX,
    ensures
        r == decode_dims_spec(horizon, b, u, po_rows, pf_rows),
{
    if horizon == 0 {
        return Err(DecodeError::ZeroHorizon);
    }
    if b == 0 {
        return Err(DecodeError::ZeroBatch);
    }
    if let Some(r) = po_rows {
        if r % b != 0 {
            return Err(DecodeError::PastOnlyRows);
        }
    }
    if let Some(r) = pf_rows {
        if r % b != 0 {
            return Err(DecodeError::PastFutureRows);
        }
    }
    let v_po = match po_rows {
        Some(r) => r / b,
        None => 0,
    };
    let w_pf = match pf_rows {
        Some(r) => r / b,
        None => 0,
    };
    Ok(DecodeDims { v_po, w_pf, v_total: u + v_po + w_pf })
}

/// `ceil(x / d)`.
pub open spec fn div_ceil(x: int, d: int) -> int {
    if x % d == 0 {
        x / d
    } else {
        x / d + 1
    }
}

/// The patch arithmetic of one decode call.
#[derive(Debug, Clone, Copy, PartialEq, Eq, Structural)]
pub struct DecodePlan {
    /// Left padding that brings the context to a multiple of the patch length.
    pub ctx_padding: usize,
    pub ctx_padded: usize,
    /// Forecast patches that are stitched (0 without stitching).
    pub num_forecast_patches: usize,
    pub num_horizon_patches: usize,
    pub padded_horizon: usize,
    /// Points taken from each forecast patch.
    pub extract_len: usize,
    pub num_context_patches: usize,
    pub num_total_patches: usize,
    pub total_len: usize,
}

/// The plan, in unbounded integers: `(ctx_padding, ctx_padded,
/// num_forecast_patches, num_horizon_patches, padded_horizon, extract_len)`.
pub open spec fn plan_parts(p: int, o: int, rolls: int, use_stitching: bool, horizon: int, context: int) -> (
    int,
    int,
    int,
    int,
    int,
    int,
) {
    let ctx_padding = (p - context % p) % p;
    let ctx_padded = context + ctx_padding;
    if use_stitching {
        let extract_len = if 2 * p <= o {
            2 * p
        } else {
            o
        };
        let overlap = extract_len - p;
        let rest = if horizon >= overlap {
            horizon - overlap
        } else {
            0
        };
        let nfp = if div_ceil(rest, p) >= 1 {
            div_ceil(rest, p)
        } else {
            1
        };
        let nhp = nfp + rolls - 1;
        (ctx_padding, ctx_padded, nfp, nhp, nhp * p, extract_len)
    } else {
        let padded_horizon = horizon + (o - horizon % o) % o;
        (ctx_padding, ctx_padded, 0, padded_horizon / p, padded_horizon, o)
    }
}

/// The plan's values fit in `usize`.
pub open spec fn plan_fits(p: int, o: int, rolls: int, use_stitching: bool, horizon: int, context: int) -> bool {
    let (ctx_padding, ctx_padded, nfp, nhp, padded_horizon, extract_len) = plan_parts(
        p,
        o,
        rolls,
        use_stitching,
        horizon,
        context,
    );
    &&& 2 * p <= usize::MAX
    &&& ctx_padded <= usize::MAX
    &&& nhp <= usize::MAX
    &&& padded_horizon <= usize::MAX
    &&& ctx_padded / p + nhp <= usize::MAX
    &&& ctx_padded + padded_horizon <= usize::MAX
}

pub open spec fn decode_plan_spec(p: int, o: int, rolls: int, use_stitching: bool, horizon: int, context: int) -> DecodePlan {
    let (ctx_padding, ctx_padded, nfp, nhp, padded_horizon, extract_len) = plan_parts(
        p,
        o,
        rolls,
        use_stitching,
        horizon,
        context,
    );
    DecodePlan {
        ctx_padding: ctx_padding as usize,
        ctx_padded: ctx_padded as usize,
        num_forecast_patches: nfp as usize,
        num_horizon_patches: nhp as usize,
        padded_horizon: padded_horizon as usize,
        extract_len: extract_len as usize,
        num_context_patches: (ctx_padded / p) as usize,
        num_total_patches: (ctx_padded / p + nhp) as usize,
        total_len: (ctx_padded + padded_horizon) as usize,
    }
}

/// The patch arithmetic of a decode call: the context is left-padded to a
/// multiple of the input patch length `p`; with stitching the horizon is
/// covered by overlapping forecast patches of `min(2p, o)` points, without
/// it the horizon is rounded up to a multiple of the output patch length `o`.
pub fn decode_plan(p: usize, o: usize, rolls: usize, use_stitching: bool, horizon: usize, context: usize) -> (r: DecodePlan)
    requires
        p > 0,
        o > 0,
        use_stitching ==> o >= p && rolls >= 1,
        plan_fits(p as int, o as int, rolls as int, use_stitching, horizon as int, context as int),
    ensures
        r == decode_plan_spec(p as int, o as int, rolls as int, use_stitching, horizon as int, context as int),
{
    let ctx_padding = (p - (context % p)) % p;
    let ctx_padded = context + ctx_padding;
    let (num_forecast_patches, num_horizon_patches, padded_horizon, extract_len) = if use_stitching {
        let extract_len = if 2 * p <= o {
            2 * p
        } else {
            o
        };
        let overlap = extract_len - p;
        let rest = if horizon >= overlap {
            horizon - overlap
        } else {
            0
        };
        let q = if rest % p == 0 {
            rest / p
        } else {
            rest / p + 1
        };
        let nfp = if q >= 1 {
            q
        } else {
            1
        };
        let nhp = nfp + (rolls - 1);
        (nfp, nhp, nhp * p, extract_len)
    } else {
        let padded_horizon = horizon + (o - (horizon % o)) % o;
        (0, padded_horizon / p, padded_horizon, o)
    };
    let num_context_patches = ctx_padded / p;
    DecodePlan {
        ctx_padding,
        ctx_padded,
        num_forecast_patches,
        num_horizon_patches,
        padded_horizon,
        extract_len,
        num_context_patches,
        num_total_patches: num_context_patches + num_horizon_patches,
        total_len: ctx_padded + padded_horizon,
    }
}

/// Whether [`decode_plan`] can be asked for these arguments: every value
/// of the plan fits in `usize` (see [`plan_fits`]).
pub fn plan_fits_exec(p: usize, o: usize, rolls: usize, use_stitching: bool, horizon: usize, context: usize) -> (r: bool)
    requires
        p > 0,
        o > 0,
        use_stitching ==> o >= p && rolls >= 1,
    ensures
        r == plan_fits(p as int, o as int, rolls as int, use_stitching, horizon as int, context as int),
{
    let max = usize::MAX as u128;
    let pw = p as u128;
    let ow = o as u128;
    let h = horizon as u128;
    let c = context as u128;
    let ctx_padded = c + (pw - c % pw) % pw;
    let (nhp, padded_horizon) = if use_stitching {
        let extract_len = if 2 * pw <= ow {
            2 * pw
        } else {
            ow
        };
        let overlap = extract_len - pw;
        let rest = if h >= overlap {
            h - overlap
        } else {
            0
        };
        let q = if rest % pw == 0 {
            rest / pw
        } else {
            rest / pw + 1
        };
        let nfp = if q >= 1 {
            q
        } else {
            1
        };
        let nhp = nfp + (rolls as u128 - 1);
        if nhp > max {
            return false;
        }
        assert(nhp * pw <= max * max) by (nonlinear_arith)
            requires
                nhp <= max,
                pw <= max,
        ;
        assert(max * max < 0x1_0000_0000_0000_0000_0000_0000_0000_0000) by (nonlinear_arith)
            requires
                max <= 0xffff_ffff_ffff_ffff,
        ;
        (nhp, nhp * pw)
    } else {
        let ph = h + (ow - h % ow) % ow;
        (ph / pw, ph)
    };
    2 * pw <= max && ctx_padded <= max && nhp <= max && padded_horizon <= max && ctx_padded / pw + nhp <= max
        && ctx_padded + padded_horizon <= max
}

} // verus!

verus! {

/// The shape facts the decode relies on: the padded context is the
/// smallest multiple of `p` that holds the context, the horizon is a whole
/// number of patches, and the patched sequence is `num_total_patches`
/// patches long.
pub proof fn lemma_plan_shape(p: int, o: int, rolls: int, use_stitching: bool, horizon: int, context: int)
    requires
        p > 0,
        o > 0,
        context >= 0,
        horizon >= 0,
        !use_stitching ==> o % p == 0,
    ensures
        ({
            let (ctx_padding, ctx_padded, nfp, nhp, padded_horizon, extract_len) = plan_parts(
                p,
                o,
                rolls,
                use_stitching,
                horizon,
                context,
            );
            &&& ctx_padded % p == 0
            &&& context <= ctx_padded < context + p
            &&& padded_horizon == nhp * p
            &&& ctx_padded + padded_horizon == (ctx_padded / p + nhp) * p
        }),
{
    let (ctx_padding, ctx_padded, nfp, nhp, padded_horizon, extract_len) = plan_parts(
        p,
        o,
        rolls,
        use_stitching,
        horizon,
        context,
    );
    vstd::arithmetic::div_mod::lemma_fundamental_div_mod(context, p);
    let m = context % p;
    if m == 0 {
        vstd::arithmetic::div_mod::lemma_mod_self_0(p);
        assert(ctx_padding == 0);
    } else {
        vstd::arithmetic::div_mod::lemma_small_mod((p - m) as nat, p as nat);
        assert(ctx_padding == p - m);
    }
    assert(ctx_padded == p * (context / p) + (if m == 0 { 0 } else { p }));
    assert(ctx_padded == p * (context / p + (if m == 0 { 0int } else { 1int }))) by (nonlinear_arith)
        requires
            ctx_padded == p * (context / p) + (if m == 0 { 0 } else { p }),
    ;
    let q = context / p + (if m == 0 { 0int } else { 1int });
    vstd::arithmetic::div_mod::lemma_mod_multiples_basic(q, p);
    vstd::arithmetic::div_mod::lemma_div_multiples_vanish(q, p);
    assert(ctx_padded == q * p) by (nonlinear_arith)
        requires
            ctx_padded == p * q,
    ;
    assert(ctx_padded % p == 0);
    assert(ctx_padded / p == q);
    if !use_stitching {
        let hm = horizon % o;
        vstd::arithmetic::div_mod::lemma_fundamental_div_mod(horizon, o);
        if hm == 0 {
            vstd::arithmetic::div_mod::lemma_mod_self_0(o);
        } else {
            vstd::arithmetic::div_mod::lemma_small_mod((o - hm) as nat, o as nat);
        }
        let k = horizon / o + (if hm == 0 { 0int } else { 1int });
        assert(padded_horizon == o * k) by (nonlinear_arith)
            requires
                horizon == o * (horizon / o) + hm,
                padded_horizon == horizon + (if hm == 0 { 0 } else { o - hm }),
                k == horizon / o + (if hm == 0 { 0int } else { 1int }),
        ;
        vstd::arithmetic::div_mod::lemma_fundamental_div_mod(o, p);
        let op = o / p;
        assert(o == p * op);
        assert(padded_horizon == (op * k) * p) by (nonlinear_arith)
            requires
                padded_horizon == o * k,
                o == p * op,
        ;
        vstd::arithmetic::div_mod::lemma_div_multiples_vanish(op * k, p);
        assert(nhp == op * k);
    }
    assert(ctx_padded + padded_horizon == (ctx_padded / p + nhp) * p) by (nonlinear_arith)
        requires
            ctx_padded == p * (ctx_padded / p),
            padded_horizon == nhp * p,
    ;
}

// ---------------------------------------------------------------------------
// Masks
// ---------------------------------------------------------------------------

/// The global context mask when none is given: `(b, ctx_padded)`, `true`
/// (masked) on the left padding.
pub fn default_context_mask(b: usize, context: usize, ctx_padded: usize) -> (m: Vec<bool>)
    requires
        context <= ctx_padded,
        b * ctx_padded <= usize::MAX,
    ensures
        m@.len() == b * ctx_padded,
        forall|bi: int, c: int|
            0 <= bi < b && 0 <= c < ctx_padded ==> #[trigger] m@[bi * ctx_padded + c] == (c
                < ctx_padded - context),
{
    let pad = ctx_padded - context;
    build_grid(
        b,
        ctx_padded,
        (|bi: usize, c: usize| -> (x: bool)
            ensures
                x == (c < pad),
            { c < pad }),
    )
}

/// Which rows of the patched input are targets (or past-only covariates),
/// `(b * v_total, num_patches)`: row `r` is variate `r % v_total`, and
/// variates below `u + v_po` are targets.
pub fn patch_is_target(b: usize, v_total: usize, u: usize, v_po: usize, num_patches: usize) -> (m: Vec<bool>)
    requires
        b * v_total <= usize::MAX,
        b * v_total * num_patches <= usize::MAX,
    ensures
        m@.len() == b * v_total * num_patches,
        forall|r: int, ni: int|
            0 <= r < b * v_total && 0 <= ni < num_patches ==> #[trigger] m@[r * num_patches + ni]
                == ((r % (v_total as int)) < u + v_po),
{
    assert(b * v_total > 0 ==> v_total > 0) by (nonlinear_arith);
    let rows = b * v_total;
    build_grid(
        rows,
        num_patches,
        (|r: usize, ni: usize| -> (x: bool)
            ensures
                v_total > 0 ==> x == (((r % v_total) as int) < u + v_po),
            {
                if v_total == 0 {
                    false
                } else {
                    ((r % v_total) as u128) < (u as u128 + v_po as u128)
                }
            }),
    )
}

} // verus!

verus! {

/// The forecast positions of the patched sequence, `(b, num_patches)`:
/// every patch from `num_context_patches` on.
pub fn horizon_cpm_mask(b: usize, num_patches: usize, num_context_patches: usize) -> (m: Vec<bool>)
    requires
        b * num_patches <= usize::MAX,
    ensures
        m@.len() == b * num_patches,
        forall|bi: int, ni: int|
            0 <= bi < b && 0 <= ni < num_patches ==> #[trigger] m@[bi * num_patches + ni] == (ni
                >= num_context_patches),
{
    build_grid(
        b,
        num_patches,
        (|bi: usize, ni: usize| -> (x: bool)
            ensures
                x == (ni >= num_context_patches),
            { ni >= num_context_patches }),
    )
}

/// The last context patch whose running statistics stay frozen over the
/// horizon, when freezing is on.
pub fn freeze_position(use_frozen_running_stats: bool, num_context_patches: usize) -> (r: Option<usize>)
    ensures
        r == (if use_frozen_running_stats {
            Some(if num_context_patches >= 1 { (num_context_patches - 1) as usize } else { 0usize })
        } else {
            None::<usize>
        }),
{
    if use_frozen_running_stats {
        Some(if num_context_patches >= 1 { num_context_patches - 1 } else { 0 })
    } else {
        None
    }
}

/// Whether `m[start..start + len]` is all `true`.
pub fn all_true(m: &[bool], start: usize, len: usize) -> (r: bool)
    requires
        start + len <= m@.len(),
    ensures
        r == (forall|k: int| 0 <= k < len ==> #[trigger] m@[start + k]),
{
    let ml = m.len();
    let mut k: usize = 0;
    while k < len
        invariant
            k <= len,
            ml == m@.len(),
            start + len <= m@.len(),
            forall|q: int| 0 <= q < k ==> #[trigger] m@[start + q],
        decreases len - k,
    {
        if !m[start + k] {
            assert(!m@[start + k as int]);
            return false;
        }
        k = k + 1;
    }
    true
}

/// The effective patch mask `(bv, n)`: a patch counts as masked while it
/// and every patch before it in its row are fully masked.
pub fn effective_patch_mask(raw: &[bool], bv: usize, n: usize) -> (m: Vec<bool>)
    requires
        raw@.len() >= bv * n,
        bv * n <= usize::MAX,
    ensures
        m@.len() == bv * n,
        forall|r: int, ni: int|
            0 <= r < bv && 0 <= ni < n ==> #[trigger] m@[r * n + ni] == (forall|k: int|
                0 <= k <= ni ==> #[trigger] raw@[r * n + k]),
{
    let mut out: Vec<bool> = Vec::new();
    let mut r: usize = 0;
    while r < bv
        invariant
            r <= bv,
            raw@.len() >= bv * n,
            bv * n <= usize::MAX,
            out@.len() == r * n,
            forall|r2: int, ni: int|
                0 <= r2 < r && 0 <= ni < n ==> #[trigger] out@[r2 * n + ni] == (forall|k: int|
                    0 <= k <= ni ==> #[trigger] raw@[r2 * n + k]),
        decreases bv - r,
    {
        let ghost before = out@;
        assert((r + 1) * n <= bv * n) by (nonlinear_arith)
            requires
                r < bv,
        ;
        assert((r + 1) * n == r * n + n) by (nonlinear_arith);
        let mut acc = true;
        let mut ni: usize = 0;
        while ni < n
            invariant
                r < bv,
                ni <= n,
                (r + 1) * n <= bv * n,
                (r + 1) * n == r * n + n,
                raw@.len() >= bv * n,
                bv * n <= usize::MAX,
                before.len() == r * n,
                out@.len() == r * n + ni,
                out@.take(before.len() as int) == before,
                acc == (forall|k: int| 0 <= k < ni ==> #[trigger] raw@[r * n + k]),
                forall|n2: int|
                    0 <= n2 < ni ==> #[trigger] out@[r * n + n2] == (forall|k: int|
                        0 <= k <= n2 ==> #[trigger] raw@[r * n + k]),
            decreases n - ni,
        {
            let ghost prev = out@;
            acc = acc && raw[r * n + ni];
            out.push(acc);
            assert(out@.take(before.len() as int) =~= before) by {
                assert(prev.take(before.len() as int) == before);
            }
            assert(acc == (forall|k: int| 0 <= k <= ni ==> #[trigger] raw@[r * n + k])) by {
                if acc {
                    assert forall|k: int| 0 <= k <= ni implies #[trigger] raw@[r * n + k] by {
                        if k < ni {
                            assert(raw@[r * n + k]);
                        }
                    }
                }
            }
            ni = ni + 1;
        }
        assert forall|r2: int, n2: int|
            0 <= r2 < r + 1 && 0 <= n2 < n implies #[trigger] out@[r2 * n + n2] == (forall|k: int|
                0 <= k <= n2 ==> #[trigger] raw@[r2 * n + k]) by {
            if r2 < r {
                lemma_row_index(r2, n2, r as int, n as int);
                assert(out@[r2 * n + n2] == before[r2 * n + n2]);
            }
        }
        r = r + 1;
    }
    out
}

/// Rows of `a` (width `wa`) followed by the same rows of `b` (width `wb`).
pub fn concat_rows<T: Copy>(a: &[T], wa: usize, b: &[T], wb: usize, rows: usize) -> (out: Vec<T>)
    requires
        a@.len() >= rows * wa,
        b@.len() >= rows * wb,
        wa + wb <= usize::MAX,
        rows * (wa + wb) <= usize::MAX,
    ensures
        out@.len() == rows * (wa + wb),
        forall|r: int, c: int|
            0 <= r < rows && 0 <= c < wa + wb ==> #[trigger] out@[r * (wa + wb) + c] == (if c < wa {
                a@[r * wa + c]
            } else {
                b@[r * wb + (c - wa)]
            }),
{
    let w = wa + wb;
    let al = a.len();
    let bl = b.len();
    build_grid(
        rows,
        w,
        (|r: usize, c: usize| -> (x: T)
            requires
                r < rows,
                c < w,
            ensures
                x == (if c < wa {
                    a@[r * wa + c]
                } else {
                    b@[r * wb + (c - wa)]
                }),
            {
                if c < wa {
                    proof {
                        lemma_row_index(r as int, c as int, rows as int, wa as int);
                    }
                    a[r * wa + c]
                } else {
                    proof {
                        lemma_row_index(r as int, (c - wa) as int, rows as int, wb as int);
                    }
                    b[r * wb + (c - wa)]
                }
            }),
    )
}

} // verus!

verus! {

/// An optional per-row mask at `i`; no mask masks nothing.
pub open spec fn opt_at(m: Option<&[bool]>, i: int) -> bool {
    match m {
        Some(s) => s@[i],
        None => false,
    }
}

/// The length an optional buffer must have.
pub open spec fn opt_len_ok<T>(m: Option<&[T]>, len: int) -> bool {
    match m {
        Some(s) => s@.len() >= len,
        None => true,
    }
}

proof fn lemma_grid3(i: int, j: int, k: int, a: int, bd: int, cd: int)
    requires
        0 <= i < a,
        0 <= j < bd,
        0 <= k < cd,
    ensures
        0 <= i * bd + j < a * bd,
        0 <= (i * bd + j) * cd + k < a * bd * cd,
        (i * bd + j) * cd <= (i * bd + j) * cd + k,
        0 <= i * bd <= i * bd + j <= (i * bd + j) * cd,
{
    assert(0 <= i * bd <= i * bd + j <= (i * bd + j) * cd) by (nonlinear_arith)
        requires
            0 <= i,
            0 <= j,
            0 <= bd,
            cd >= 1,
    ;
    assert(0 <= i * bd + j < a * bd) by (nonlinear_arith)
        requires
            0 <= i < a,
            0 <= j < bd,
    ;
    assert(0 <= (i * bd + j) * cd + k < a * bd * cd) by (nonlinear_arith)
        requires
            0 <= i * bd + j < a * bd,
            0 <= k < cd,
    ;
}

proof fn lemma_row_of(r: int, vt: int, b: int)
    requires
        0 <= r < b * vt,
        0 <= vt,
        0 <= b,
    ensures
        vt > 0,
        0 <= r / vt < b,
        0 <= r % vt < vt,
{
    assert(vt > 0) by (nonlinear_arith)
        requires
            0 <= r < b * vt,
            0 <= vt,
            0 <= b,
    ;
    vstd::arithmetic::div_mod::lemma_fundamental_div_mod(r, vt);
    assert(0 <= r / vt < b) by (nonlinear_arith)
        requires
            r == vt * (r / vt) + r % vt,
            0 <= r % vt < vt,
            0 <= r < b * vt,
            vt > 0,
    ;
}

/// Element `(r, c)` of the context masks: row `r` is variate `r % v_total`
/// of series `r / v_total`; a point is masked where the series' global mask
/// or the variate's own mask (targets, then past-only, then past-and-future
/// covariates) masks it.
pub open spec fn context_mask_at(
    global: &[bool],
    tgt_m: Option<&[bool]>,
    po_m: Option<&[bool]>,
    pf_m: Option<&[bool]>,
    u: int,
    v_po: int,
    w_pf: int,
    cp: int,
    horizon: int,
    r: int,
    c: int,
) -> bool {
    let vt = u + v_po + w_pf;
    let bi = r / vt;
    let vi = r % vt;
    global@[bi * cp + c] || (if vi < u {
        opt_at(tgt_m, (bi * u + vi) * cp + c)
    } else if vi < u + v_po {
        opt_at(po_m, (bi * v_po + (vi - u)) * cp + c)
    } else {
        opt_at(pf_m, (bi * w_pf + (vi - u - v_po)) * (cp + horizon) + c)
    })
}

/// The masks of the padded context, `(b * v_total, ctx_padded)`.
pub fn context_masks(
    global: &[bool],
    tgt_m: Option<&[bool]>,
    po_m: Option<&[bool]>,
    pf_m: Option<&[bool]>,
    b: usize,
    u: usize,
    v_po: usize,
    w_pf: usize,
    ctx_padded: usize,
    horizon: usize,
) -> (m: Vec<bool>)
    requires
        u + v_po + w_pf <= usize::MAX,
        b * (u + v_po + w_pf) <= usize::MAX,
        b * (u + v_po + w_pf) * ctx_padded <= usize::MAX,
        ctx_padded + horizon <= usize::MAX,
        global@.len() >= b * ctx_padded,
        opt_len_ok(tgt_m, b * u * ctx_padded),
        opt_len_ok(po_m, b * v_po * ctx_padded),
        opt_len_ok(pf_m, b * w_pf * (ctx_padded + horizon)),
    ensures
        m@.len() == b * (u + v_po + w_pf) * ctx_padded,
        forall|r: int, c: int|
            0 <= r < b * (u + v_po + w_pf) && 0 <= c < ctx_padded ==> #[trigger] m@[r * ctx_padded + c]
                == context_mask_at(
                global,
                tgt_m,
                po_m,
                pf_m,
                u as int,
                v_po as int,
                w_pf as int,
                ctx_padded as int,
                horizon as int,
                r,
                c,
            ),
{
    let vt = u + v_po + w_pf;
    let rows = b * vt;
    let cp = ctx_padded;
    let wf = ctx_padded + horizon;
    build_grid(
        rows,
        cp,
        (|r: usize, c: usize| -> (x: bool)
            requires
                r < rows,
                c < cp,
                rows == b * vt,
                vt == u + v_po + w_pf,
                wf == cp + horizon,
                global@.len() >= b * cp,
                opt_len_ok(tgt_m, b * u * cp),
                opt_len_ok(po_m, b * v_po * cp),
                opt_len_ok(pf_m, b * w_pf * wf),
            ensures
                x == context_mask_at(
                    global,
                    tgt_m,
                    po_m,
                    pf_m,
                    u as int,
                    v_po as int,
                    w_pf as int,
                    cp as int,
                    horizon as int,
                    r as int,
                    c as int,
                ),
            {
                proof {
                    lemma_row_of(r as int, vt as int, b as int);
                }
                let bi = r / vt;
                let vi = r % vt;
                proof {
                    lemma_grid3(bi as int, c as int, 0, b as int, cp as int, 1);
                    assert(bi * cp + c < b * cp);
                }
                let gl = global.len();
                let g = global[bi * cp + c];
                let own = if vi < u {
                    match tgt_m {
                        Some(t) => {
                            proof {
                                lemma_grid3(bi as int, vi as int, c as int, b as int, u as int, cp as int);
                            }
                            let tl = t.len();
                            t[(bi * u + vi) * cp + c]
                        },
                        None => false,
                    }
                } else if vi < u + v_po {
                    match po_m {
                        Some(t) => {
                            proof {
                                lemma_grid3(bi as int, (vi - u) as int, c as int, b as int, v_po as int, cp as int);
                            }
                            let tl = t.len();
                            t[(bi * v_po + (vi - u)) * cp + c]
                        },
                        None => false,
                    }
                } else {
                    match pf_m {
                        Some(t) => {
                            proof {
                                lemma_grid3(
                                    bi as int,
                                    (vi - u - v_po) as int,
                                    c as int,
                                    b as int,
                                    w_pf as int,
                                    wf as int,
                                );
                            }
                            let tl = t.len();
                            t[(bi * w_pf + (vi - u - v_po)) * wf + c]
                        },
                        None => false,
                    }
                };
                g || own
            }),
    )
}

/// Element `i` of an optional buffer, or `fill` where there is none.
pub open spec fn opt_val<T>(m: Option<&[T]>, i: int, fill: T) -> T {
    match m {
        Some(s) => s@[i],
        None => fill,
    }
}

/// Element `(r, c)` of the context values: row `r` is variate `r % v_total`
/// of series `r / v_total`, taken from the targets, then the past-only,
/// then the past-and-future covariates (`fill` where those are absent).
pub open spec fn context_value_at<T>(
    tgt: &[T],
    po: Option<&[T]>,
    pf: Option<&[T]>,
    u: int,
    v_po: int,
    w_pf: int,
    cp: int,
    horizon: int,
    fill: T,
    r: int,
    c: int,
) -> T {
    let vt = u + v_po + w_pf;
    let bi = r / vt;
    let vi = r % vt;
    if vi < u {
        tgt@[(bi * u + vi) * cp + c]
    } else if vi < u + v_po {
        opt_val(po, (bi * v_po + (vi - u)) * cp + c, fill)
    } else {
        opt_val(pf, (bi * w_pf + (vi - u - v_po)) * (cp + horizon) + c, fill)
    }
}

/// The values of the padded context, `(b * v_total, ctx_padded)`, from the
/// padded targets `(b * u, ctx_padded)`, past-only covariates
/// `(b * v_po, ctx_padded)` and past-and-future covariates
/// `(b * w_pf, ctx_padded + horizon)`.
pub fn context_values<T: Copy>(
    tgt: &[T],
    po: Option<&[T]>,
    pf: Option<&[T]>,
    b: usize,
    u: usize,
    v_po: usize,
    w_pf: usize,
    ctx_padded: usize,
    horizon: usize,
    fill: T,
) -> (m: Vec<T>)
    requires
        u + v_po + w_pf <= usize::MAX,
        b * (u + v_po + w_pf) <= usize::MAX,
        b * (u + v_po + w_pf) * ctx_padded <= usize::MAX,
        ctx_padded + horizon <= usize::MAX,
        tgt@.len() >= b * u * ctx_padded,
        opt_len_ok(po, b * v_po * ctx_padded),
        opt_len_ok(pf, b * w_pf * (ctx_padded + horizon)),
    ensures
        m@.len() == b * (u + v_po + w_pf) * ctx_padded,
        forall|r: int, c: int|
            0 <= r < b * (u + v_po + w_pf) && 0 <= c < ctx_padded ==> #[trigger] m@[r * ctx_padded + c]
                == context_value_at(
                tgt,
                po,
                pf,
                u as int,
                v_po as int,
                w_pf as int,
                ctx_padded as int,
                horizon as int,
                fill,
                r,
                c,
            ),
{
    let vt = u + v_po + w_pf;
    let rows = b * vt;
    let cp = ctx_padded;
    let wf = ctx_padded + horizon;
    build_grid(
        rows,
        cp,
        (|r: usize, c: usize| -> (x: T)
            requires
                r < rows,
                c < cp,
                rows == b * vt,
                vt == u + v_po + w_pf,
                wf == cp + horizon,
                tgt@.len() >= b * u * cp,
                opt_len_ok(po, b * v_po * cp),
                opt_len_ok(pf, b * w_pf * wf),
            ensures
                x == context_value_at(
                    tgt,
                    po,
                    pf,
                    u as int,
                    v_po as int,
                    w_pf as int,
                    cp as int,
                    horizon as int,
                    fill,
                    r as int,
                    c as int,
                ),
            {
                proof {
                    lemma_row_of(r as int, vt as int, b as int);
                }
                let bi = r / vt;
                let vi = r % vt;
                if vi < u {
                    proof {
                        lemma_grid3(bi as int, vi as int, c as int, b as int, u as int, cp as int);
                    }
                    let tl = tgt.len();
                    tgt[(bi * u + vi) * cp + c]
                } else if vi < u + v_po {
                    match po {
                        Some(t) => {
                            proof {
                                lemma_grid3(bi as int, (vi - u) as int, c as int, b as int, v_po as int, cp as int);
                            }
                            let tl = t.len();
                            t[(bi * v_po + (vi - u)) * cp + c]
                        },
                        None => fill,
                    }
                } else {
                    match pf {
                        Some(t) => {
                            proof {
                                lemma_grid3(
                                    bi as int,
                                    (vi - u - v_po) as int,
                                    c as int,
                                    b as int,
                                    w_pf as int,
                                    wf as int,
                                );
                            }
                            let tl = t.len();
                            t[(bi * w_pf + (vi - u - v_po)) * wf + c]
                        },
                        None => fill,
                    }
                }
            }),
    )
}

/// Element `(r, h)` of the horizon masks: the past-and-future covariate
/// rows (when given) are unmasked except where their own mask masks a
/// future point; every other row, and the padding past `horizon`, is
/// masked only where noted.
pub open spec fn horizon_mask_at(
    pf_m: Option<&[bool]>,
    has_pf: bool,
    u: int,
    v_po: int,
    w_pf: int,
    cp: int,
    horizon: int,
    r: int,
    h: int,
) -> bool {
    let vt = u + v_po + w_pf;
    let bi = r / vt;
    let vi = r % vt;
    if has_pf && vi >= u + v_po {
        h < horizon && opt_at(pf_m, (bi * w_pf + (vi - u - v_po)) * (cp + horizon) + cp + h)
    } else {
        true
    }
}

/// The masks of the padded horizon, `(b * v_total, padded_horizon)`:
/// targets and past-only covariates are masked over the whole horizon.
pub fn horizon_masks(
    pf_m: Option<&[bool]>,
    has_pf: bool,
    b: usize,
    u: usize,
    v_po: usize,
    w_pf: usize,
    ctx_padded: usize,
    horizon: usize,
    padded_horizon: usize,
) -> (m: Vec<bool>)
    requires
        u + v_po + w_pf <= usize::MAX,
        b * (u + v_po + w_pf) <= usize::MAX,
        b * (u + v_po + w_pf) * padded_horizon <= usize::MAX,
        ctx_padded + horizon <= usize::MAX,
        opt_len_ok(pf_m, b * w_pf * (ctx_padded + horizon)),
    ensures
        m@.len() == b * (u + v_po + w_pf) * padded_horizon,
        forall|r: int, h: int|
            0 <= r < b * (u + v_po + w_pf) && 0 <= h < padded_horizon ==> #[trigger] m@[r
                * padded_horizon + h] == horizon_mask_at(
                pf_m,
                has_pf,
                u as int,
                v_po as int,
                w_pf as int,
                ctx_padded as int,
                horizon as int,
                r,
                h,
            ),
{
    let vt = u + v_po + w_pf;
    let rows = b * vt;
    let cp = ctx_padded;
    let wf = ctx_padded + horizon;
    build_grid(
        rows,
        padded_horizon,
        (|r: usize, h: usize| -> (x: bool)
            requires
                r < rows,
                rows == b * vt,
                vt == u + v_po + w_pf,
                wf == cp + horizon,
                opt_len_ok(pf_m, b * w_pf * wf),
            ensures
                x == horizon_mask_at(
                    pf_m,
                    has_pf,
                    u as int,
                    v_po as int,
                    w_pf as int,
                    cp as int,
                    horizon as int,
                    r as int,
                    h as int,
                ),
            {
                proof {
                    lemma_row_of(r as int, vt as int, b as int);
                }
                let bi = r / vt;
                let vi = r % vt;
                if has_pf && vi >= u + v_po {
                    if h < horizon {
                        match pf_m {
                            Some(t) => {
                                proof {
                                    lemma_grid3(
                                        bi as int,
                                        (vi - u - v_po) as int,
                                        (cp + h) as int,
                                        b as int,
                                        w_pf as int,
                                        wf as int,
                                    );
                                }
                                let tl = t.len();
                                t[(bi * w_pf + (vi - u - v_po)) * wf + (cp + h)]
                            },
                            None => false,
                        }
                    } else {
                        false
                    }
                } else {
                    true
                }
            }),
    )
}

} // verus!

verus! {

/// The value masks after hiding the forecast positions: where a patch is a
/// forecast position of its series and belongs to a target variate, all its
/// points are masked. Rows are `(b*v*n)` patches of `p` points; patch `R` is
/// patch `R % n` of variate row `R / n`, which belongs to series
/// `(R / n) / v`.
pub open spec fn cpm_mask_at(
    masks: &[bool],
    cpm: Option<&[bool]>,
    pit: &[bool],
    v: int,
    n: int,
    p: int,
    rr: int,
    j: int,
) -> bool {
    masks@[rr * p + j] || (opt_at(cpm, ((rr / n) / v) * n + rr % n) && pit@[rr])
}

pub fn cpm_masked(masks: &[bool], cpm: Option<&[bool]>, pit: &[bool], b: usize, v: usize, n: usize, p: usize) -> (m: Vec<bool>)
    requires
        b * v <= usize::MAX,
        b * v * n <= usize::MAX,
        b * v * n * p <= usize::MAX,
        masks@.len() >= b * v * n * p,
        opt_len_ok(cpm, b * n),
        pit@.len() >= b * v * n,
    ensures
        m@.len() == b * v * n * p,
        forall|rr: int, j: int|
            0 <= rr < b * v * n && 0 <= j < p ==> #[trigger] m@[rr * p + j] == cpm_mask_at(
                masks,
                cpm,
                pit,
                v as int,
                n as int,
                p as int,
                rr,
                j,
            ),
{
    let rows = b * v * n;
    build_grid(
        rows,
        p,
        (|rr: usize, j: usize| -> (x: bool)
            requires
                rr < rows,
                j < p,
                rows == b * v * n,
                masks@.len() >= rows * p,
                opt_len_ok(cpm, b * n),
                pit@.len() >= rows,
            ensures
                x == cpm_mask_at(masks, cpm, pit, v as int, n as int, p as int, rr as int, j as int),
            {
                proof {
                    lemma_grid3(rr as int, j as int, 0, rows as int, p as int, 1);
                }
                let ml = masks.len();
                let own = masks[rr * p + j];
                let hidden = match cpm {
                    Some(c) => {
                        proof {
                            assert(rows == (b * v) * n);
                            lemma_row_of(rr as int, n as int, (b * v) as int);
                            lemma_row_of((rr / n) as int, v as int, b as int);
                            lemma_grid3(((rr / n) / v) as int, (rr % n) as int, 0, b as int, n as int, 1);
                        }
                        let cl = c.len();
                        let pl = pit.len();
                        c[((rr / n) / v) * n + rr % n] && pit[rr]
                    },
                    None => false,
                };
                own || hidden
            }),
    )
}

/// Element `(R, j)` of the future-covariate masks: masked where the rolled
/// mask is, where the point wrapped past the last patch, and everywhere in
/// rows whose first patch is a target's.
pub open spec fn fcov_mask_at(rolled: &[bool], wrap: &[bool], pit: &[bool], n: int, rp: int, rr: int, j: int) -> bool {
    rolled@[rr * rp + j] || pit@[(rr / n) * n] || wrap@[rr * rp + j]
}

pub fn fcov_masks(rolled: &[bool], wrap: &[bool], pit: &[bool], bv: usize, n: usize, p: usize, rolls: usize) -> (m: Vec<
    bool,
>)
    requires
        bv * n <= usize::MAX,
        rolls * p <= usize::MAX,
        bv * n * (rolls * p) <= usize::MAX,
        rolled@.len() >= bv * n * (rolls * p),
        wrap@.len() >= bv * n * (rolls * p),
        pit@.len() >= bv * n,
    ensures
        m@.len() == bv * n * (rolls * p),
        forall|rr: int, j: int|
            0 <= rr < bv * n && 0 <= j < rolls * p ==> #[trigger] m@[rr * (rolls * p) + j]
                == fcov_mask_at(rolled, wrap, pit, n as int, (rolls * p) as int, rr, j),
{
    let rows = bv * n;
    let rp = rolls * p;
    build_grid(
        rows,
        rp,
        (|rr: usize, j: usize| -> (x: bool)
            requires
                rr < rows,
                j < rp,
                rows == bv * n,
                rolled@.len() >= rows * rp,
                wrap@.len() >= rows * rp,
                pit@.len() >= rows,
            ensures
                x == fcov_mask_at(rolled, wrap, pit, n as int, rp as int, rr as int, j as int),
            {
                proof {
                    lemma_grid3(rr as int, j as int, 0, rows as int, rp as int, 1);
                    lemma_row_of(rr as int, n as int, bv as int);
                    lemma_grid3((rr / n) as int, 0, 0, bv as int, n as int, 1);
                }
                let rl = rolled.len();
                let wl = wrap.len();
                let pl = pit.len();
                rolled[rr * rp + j] || pit[(rr / n) * n] || wrap[rr * rp + j]
            }),
    )
}

/// Which patches are fully masked: every value point and every
/// future-covariate point of the patch is masked.
pub fn patch_fully_masked(masks: &[bool], fcov: &[bool], rows: usize, p: usize, rp: usize) -> (m: Vec<bool>)
    requires
        rows * p <= usize::MAX,
        rows * rp <= usize::MAX,
        masks@.len() >= rows * p,
        fcov@.len() >= rows * rp,
    ensures
        m@.len() == rows,
        forall|rr: int|
            0 <= rr < rows ==> #[trigger] m@[rr] == ((forall|j: int|
                0 <= j < p ==> #[trigger] masks@[rr * p + j]) && (forall|j: int|
                0 <= j < rp ==> #[trigger] fcov@[rr * rp + j])),
{
    let mut out: Vec<bool> = Vec::new();
    let mut rr: usize = 0;
    while rr < rows
        invariant
            rr <= rows,
            rows * p <= usize::MAX,
            rows * rp <= usize::MAX,
            masks@.len() >= rows * p,
            fcov@.len() >= rows * rp,
            out@.len() == rr,
            forall|r2: int|
                0 <= r2 < rr ==> #[trigger] out@[r2] == ((forall|j: int|
                    0 <= j < p ==> #[trigger] masks@[r2 * p + j]) && (forall|j: int|
                    0 <= j < rp ==> #[trigger] fcov@[r2 * rp + j])),
        decreases rows - rr,
    {
        assert((rr + 1) * p <= rows * p && (rr + 1) * rp <= rows * rp) by (nonlinear_arith)
            requires
                rr < rows,
        ;
        assert((rr + 1) * p == rr * p + p && (rr + 1) * rp == rr * rp + rp) by (nonlinear_arith);
        let a = all_true(masks, rr * p, p);
        let all = if a {
            all_true(fcov, rr * rp, rp)
        } else {
            false
        };
        out.push(all);
        rr = rr + 1;
    }
    out
}


/// The running statistics with every position after `fa` holding the value
/// at `fa`, per row of `(bv, n)` (frozen running statistics).
pub fn frozen_stats<T: Copy>(x: &[T], bv: usize, n: usize, fa: usize) -> (out: Vec<T>)
    requires
        fa < n,
        x@.len() >= bv * n,
        bv * n <= usize::MAX,
    ensures
        out@.len() == bv * n,
        forall|r: int, ni: int|
            0 <= r < bv && 0 <= ni < n ==> #[trigger] out@[r * n + ni] == x@[r * n + (if ni > fa {
                fa as int
            } else {
                ni
            })],
{
    build_grid(
        bv,
        n,
        (|r: usize, ni: usize| -> (v: T)
            requires
                r < bv,
                ni < n,
                fa < n,
                x@.len() >= bv * n,
            ensures
                v == x@[r * n + (if ni > fa {
                    fa as int
                } else {
                    ni as int
                })],
            {
                let c = if ni > fa {
                    fa
                } else {
                    ni
                };
                proof {
                    lemma_grid3(r as int, c as int, 0, bv as int, n as int, 1);
                }
                let xl = x.len();
                x[r * n + c]
            }),
    )
}

/// For each of `rows` blocks of `n` rows of width `stride`, the rows
/// `first .. first + count`, each cut to its first `width` elements:
/// `(rows, count, width)`.
pub fn forecast_patches<T: Copy>(
    x: &[T],
    rows: usize,
    n: usize,
    first: usize,
    count: usize,
    stride: usize,
    width: usize,
) -> (out: Vec<T>)
    requires
        first + count <= n,
        width <= stride,
        x@.len() >= rows * n * stride,
        rows * count <= usize::MAX,
        rows * count * width <= usize::MAX,
    ensures
        out@.len() == rows * count * width,
        forall|r: int, k: int, j: int|
            0 <= r < rows && 0 <= k < count && 0 <= j < width ==> #[trigger] out@[(r * count + k) * width
                + j] == x@[(r * n + first + k) * stride + j],
{
    let total = rows * count;
    let g = build_grid(
        total,
        width,
        (|i: usize, j: usize| -> (v: T)
            requires
                i < total,
                j < width,
                total == rows * count,
                first + count <= n,
                width <= stride,
                x@.len() >= rows * n * stride,
            ensures
                v == x@[((i / count) * n + first + i % count) * stride + j],
            {
                proof {
                    lemma_row_of(i as int, count as int, rows as int);
                }
                let r = i / count;
                let k = i % count;
                proof {
                    lemma_grid3(r as int, (first + k) as int, j as int, rows as int, n as int, stride as int);
                }
                let xl = x.len();
                x[(r * n + (first + k)) * stride + j]
            }),
    );
    assert forall|r: int, k: int, j: int|
        0 <= r < rows && 0 <= k < count && 0 <= j < width implies #[trigger] g@[(r * count + k) * width
            + j] == x@[(r * n + first + k) * stride + j] by {
        let i = r * count + k;
        lemma_grid3(r, k, 0, rows as int, count as int, 1);
        vstd::arithmetic::div_mod::lemma_fundamental_div_mod_converse(i, count as int, r, k);
        assert(0 <= i < total);
    }
    g
}

/// The horizon read patch by output patch: step `hh` of row `r` is element
/// `hh % o` of the output patch at `ncp - 1 + (hh / o) * rolls`, whose `q`
/// quantiles are `(rows * horizon, q)`.
pub fn horizon_by_chunks<T: Copy>(
    x: &[T],
    rows: usize,
    n: usize,
    ncp: usize,
    horizon: usize,
    o: usize,
    q: usize,
    rolls: usize,
) -> (out: Vec<T>)
    requires
        o > 0,
        ncp >= 1,
        horizon > 0 ==> ncp - 1 + ((horizon - 1) / (o as int)) * rolls < n,
        x@.len() >= rows * n * (o * q),
        o * q <= usize::MAX,
        rows * horizon <= usize::MAX,
        rows * horizon * q <= usize::MAX,
    ensures
        out@.len() == rows * horizon * q,
        forall|r: int, hh: int, k: int|
            0 <= r < rows && 0 <= hh < horizon && 0 <= k < q ==> #[trigger] out@[(r * horizon + hh) * q
                + k] == x@[(r * n + ncp - 1 + (hh / (o as int)) * rolls) * (o * q) + (hh % (o as int)) * q
                + k],
{
    let total = rows * horizon;
    let oq = o * q;
    let g = build_grid(
        total,
        q,
        (|i: usize, k: usize| -> (v: T)
            requires
                i < total,
                k < q,
                total == rows * horizon,
                oq == o * q,
                o > 0,
                ncp >= 1,
                horizon > 0 ==> ncp - 1 + ((horizon - 1) / (o as int)) * rolls < n,
                x@.len() >= rows * n * oq,
            ensures
                v == x@[((i / horizon) * n + ncp - 1 + ((i % horizon) / o) * rolls) * oq + ((i % horizon)
                    % o) * q + k],
            {
                proof {
                    lemma_row_of(i as int, horizon as int, rows as int);
                }
                let r = i / horizon;
                let hh = i % horizon;
                let chunk = hh / o;
                let rem = hh % o;
                proof {
                    vstd::arithmetic::div_mod::lemma_div_is_ordered(hh as int, horizon - 1, o as int);
                    assert(chunk * rolls <= ((horizon - 1) / (o as int)) * rolls) by (nonlinear_arith)
                        requires
                            chunk <= (horizon - 1) / (o as int),
                            rolls >= 0,
                    ;
                    vstd::arithmetic::div_mod::lemma_fundamental_div_mod(hh as int, o as int);
                    assert(rem * q + k < oq) by (nonlinear_arith)
                        requires
                            rem < o,
                            k < q,
                            oq == o * q,
                    ;
                    lemma_grid3(
                        r as int,
                        (ncp - 1 + chunk * rolls) as int,
                        (rem * q + k) as int,
                        rows as int,
                        n as int,
                        oq as int,
                    );
                }
                let xl = x.len();
                x[(r * n + (ncp - 1 + chunk * rolls)) * oq + (rem * q + k)]
            }),
    );
    assert forall|r: int, hh: int, k: int|
        0 <= r < rows && 0 <= hh < horizon && 0 <= k < q implies #[trigger] g@[(r * horizon + hh) * q + k]
            == x@[(r * n + ncp - 1 + (hh / (o as int)) * rolls) * (o * q) + (hh % (o as int)) * q + k] by {
        let i = r * horizon + hh;
        lemma_grid3(r, hh, 0, rows as int, horizon as int, 1);
        vstd::arithmetic::div_mod::lemma_fundamental_div_mod_converse(i, horizon as int, r, hh);
        assert(0 <= i < total);
    }
    g
}

} // verus!

verus! {

/// `div_ceil(x, d)` is the least number of `d`-sized pieces that cover `x`.
proof fn lemma_div_ceil_least(x: int, d: int)
    requires
        x >= 0,
        d > 0,
    ensures
        div_ceil(x, d) >= 0,
        div_ceil(x, d) * d >= x,
        div_ceil(x, d) > 0 ==> (div_ceil(x, d) - 1) * d < x,
{
    vstd::arithmetic::div_mod::lemma_fundamental_div_mod(x, d);
    let q = x / d;
    let m = x % d;
    assert(0 <= m < d);
    assert(q >= 0) by (nonlinear_arith)
        requires
            x == d * q + m,
            x >= 0,
            d > 0,
            m < d,
    ;
    if m == 0 {
        assert(div_ceil(x, d) * d == x) by (nonlinear_arith)
            requires
                x == d * q,
                div_ceil(x, d) == q,
        ;
        assert(div_ceil(x, d) > 0 ==> (div_ceil(x, d) - 1) * d < x) by (nonlinear_arith)
            requires
                x == d * q,
                div_ceil(x, d) == q,
                d > 0,
        ;
    } else {
        assert(div_ceil(x, d) * d >= x) by (nonlinear_arith)
            requires
                x == d * q + m,
                div_ceil(x, d) == q + 1,
                m < d,
        ;
        assert((div_ceil(x, d) - 1) * d < x) by (nonlinear_arith)
            requires
                x == d * q + m,
                div_ceil(x, d) == q + 1,
                m > 0,
        ;
    }
}

/// What a decode plan is, in terms of its arguments. The context is
/// padded on the left to the smallest multiple of `p` that holds it. With
/// stitching, forecast patches of `min(2p, o)` points are taken, of which
/// the first `extract_len - p` overlap; the number of forecast patches is
/// the least `k >= 1` with `k * p` covering the rest of the horizon, the
/// rolls add `rolls - 1` patches, and the padded horizon is those patches
/// end to end. Without stitching the horizon is padded to the smallest
/// multiple of `o` that holds it. The totals add the parts.
pub proof fn lemma_plan_meaning(p: int, o: int, rolls: int, use_stitching: bool, horizon: int, context: int)
    requires
        0 < p <= usize::MAX,
        0 < o <= usize::MAX,
        0 <= rolls <= usize::MAX,
        0 <= horizon <= usize::MAX,
        0 <= context <= usize::MAX,
        use_stitching ==> o >= p && rolls >= 1,
        plan_fits(p, o, rolls, use_stitching, horizon, context),
    ensures
        ({
            let r = decode_plan_spec(p, o, rolls, use_stitching, horizon, context);
            &&& (r.ctx_padded as int) % p == 0
            &&& context <= r.ctx_padded < context + p
            &&& r.ctx_padding + context == r.ctx_padded
            &&& r.num_context_patches * p == r.ctx_padded
            &&& r.num_total_patches == r.num_context_patches + r.num_horizon_patches
            &&& r.total_len == r.ctx_padded + r.padded_horizon
            &&& use_stitching ==> {
                let rest = horizon - (r.extract_len - p);
                &&& r.extract_len == (if 2 * p <= o { 2 * p } else { o })
                &&& r.num_forecast_patches >= 1
                &&& r.num_forecast_patches * p >= rest
                &&& r.num_forecast_patches > 1 ==> (r.num_forecast_patches - 1) * p < rest
                &&& r.num_horizon_patches == r.num_forecast_patches + rolls - 1
                &&& r.padded_horizon == r.num_horizon_patches * p
            }
            &&& !use_stitching ==> {
                &&& r.extract_len == o
                &&& r.num_forecast_patches == 0
                &&& (r.padded_horizon as int) % o == 0
                &&& horizon <= r.padded_horizon < horizon + o
                &&& r.num_horizon_patches == (r.padded_horizon as int) / p
            }
        }),
{
    let (ctx_padding, ctx_padded, nfp, nhp, padded_horizon, extract_len) = plan_parts(
        p,
        o,
        rolls,
        use_stitching,
        horizon,
        context,
    );
    // The context.
    vstd::arithmetic::div_mod::lemma_fundamental_div_mod(context, p);
    let m = context % p;
    if m == 0 {
        vstd::arithmetic::div_mod::lemma_mod_self_0(p);
    } else {
        vstd::arithmetic::div_mod::lemma_small_mod((p - m) as nat, p as nat);
    }
    let q = context / p + (if m == 0 { 0int } else { 1int });
    assert(ctx_padded == p * q) by (nonlinear_arith)
        requires
            context == p * (context / p) + m,
            ctx_padded == context + (if m == 0 { 0 } else { p - m }),
            q == context / p + (if m == 0 { 0int } else { 1int }),
    ;
    vstd::arithmetic::div_mod::lemma_mod_multiples_basic(q, p);
    vstd::arithmetic::div_mod::lemma_div_multiples_vanish(q, p);
    assert(ctx_padded == q * p) by (nonlinear_arith)
        requires
            ctx_padded == p * q,
    ;
    assert(ctx_padded / p * p == ctx_padded);
    if use_stitching {
        let rest = if horizon >= extract_len - p {
            horizon - (extract_len - p)
        } else {
            0
        };
        lemma_div_ceil_least(rest, p);
        let k = div_ceil(rest, p);
        let want = horizon - (extract_len - p);
        if k >= 1 {
            assert(nfp == k);
            assert(nfp * p >= want);
            assert((nfp - 1) * p < want);
        } else {
            assert(nfp == 1);
            assert(rest == 0) by (nonlinear_arith)
                requires
                    k * p >= rest,
                    k < 1,
                    k >= 0,
                    rest >= 0,
                    p > 0,
            ;
            assert(want <= 0);
            assert(nfp * p >= want);
        }
        assert(nfp >= 1);
        assert(nfp * p >= want);
        assert(nfp > 1 ==> (nfp - 1) * p < want);
    } else {
        let hm = horizon % o;
        vstd::arithmetic::div_mod::lemma_fundamental_div_mod(horizon, o);
        if hm == 0 {
            vstd::arithmetic::div_mod::lemma_mod_self_0(o);
        } else {
            vstd::arithmetic::div_mod::lemma_small_mod((o - hm) as nat, o as nat);
        }
        let k = horizon / o + (if hm == 0 { 0int } else { 1int });
        assert(padded_horizon == k * o) by (nonlinear_arith)
            requires
                horizon == o * (horizon / o) + hm,
                padded_horizon == horizon + (if hm == 0 { 0 } else { o - hm }),
                k == horizon / o + (if hm == 0 { 0int } else { 1int }),
        ;
        vstd::arithmetic::div_mod::lemma_mod_multiples_basic(k, o);
        assert(padded_horizon >= 0);
        vstd::arithmetic::div_mod::lemma_div_pos_is_pos(padded_horizon, p);
    }
    assert(0 <= ctx_padding < p);
    assert(0 <= ctx_padded);
    assert(nhp >= 0);
    assert(padded_horizon >= 0);
    assert(nfp >= 0);
    assert(extract_len >= 0);
    vstd::arithmetic::div_mod::lemma_div_pos_is_pos(ctx_padded, p);
    assert(ctx_padded / p <= ctx_padded) by {
        vstd::arithmetic::div_mod::lemma_div_is_ordered_by_denominator(ctx_padded, 1, p);
    }
    let r = decode_plan_spec(p, o, rolls, use_stitching, horizon, context);
    assert(r.ctx_padded == ctx_padded);
    assert(r.ctx_padding == ctx_padding);
    assert(r.padded_horizon == padded_horizon);
    assert(r.num_horizon_patches == nhp);
    assert(r.num_forecast_patches == nfp);
    assert(r.extract_len == extract_len);
    assert(r.num_context_patches == ctx_padded / p);
    assert((r.ctx_padded as int) % p == 0);
    assert(context <= r.ctx_padded < context + p);
    assert(r.ctx_padding + context == r.ctx_padded);
    assert(r.num_context_patches * p == r.ctx_padded);
    assert(r.num_total_patches == r.num_context_patches + r.num_horizon_patches);
    assert(r.total_len == r.ctx_padded + r.padded_horizon);
    if use_stitching {
        let rest = horizon - (r.extract_len - p);
        assert(r.extract_len == (if 2 * p <= o { 2 * p } else { o }));
        assert(r.num_forecast_patches >= 1);
        assert(r.num_forecast_patches * p >= rest);
        assert(r.num_forecast_patches > 1 ==> (r.num_forecast_patches - 1) * p < rest);
        assert(r.num_horizon_patches == r.num_forecast_patches + rolls - 1);
        assert(r.padded_horizon == r.num_horizon_patches * p);
    } else {
        assert(r.extract_len == o);
        assert(r.num_forecast_patches == 0);
        assert((r.padded_horizon as int) % o == 0);
        assert(horizon <= r.padded_horizon < horizon + o);
        assert(r.num_horizon_patches == (r.padded_horizon as int) / p);
    }
}

} // verus!
