//! How a forecast request is cut into model batches: argument checks,
//! the ordering of series by context length, batch boundaries, the common
//! context length of a batch, and the index arithmetic of moving rows in
//! and out of batch buffers.
use vstd::prelude::*;
use crate::decode::{build_grid, div_ceil, lemma_row_index};

verus! {

/// Maximum context length.
pub const MAX_CONTEXT_LENGTH: usize = 15360;

/// Why a forecast request was refused.
#[derive(Debug, Clone, Copy, PartialEq, Eq, Structural)]
pub enum ForecastError {
    /// The horizon is zero.
    ZeroHorizon,
    /// There are not as many shapes as series.
    DimsMismatch,
    /// Series `.0` has another number of variates than the first series.
    VariateCount(usize),
    /// Series `.0` does not hold `variates x length` values.
    ContextLength(usize),
}

/// The first error of a request with `n_series` series (their value counts
/// `lens`, their shapes `dims` as `(variates, length)`), if any.
pub open spec fn request_error(lens: Seq<usize>, dims: Seq<(usize, usize)>, horizon: usize) -> Option<ForecastError> {
    if lens.len() == 0 {
        None
    } else if horizon == 0 {
        Some(ForecastError::ZeroHorizon)
    } else if lens.len() != dims.len() {
        Some(ForecastError::DimsMismatch)
    } else {
        first_bad_series(lens, dims, 0)
    }
}

/// The first series from `i` on whose shape is refused.
pub open spec fn first_bad_series(lens: Seq<usize>, dims: Seq<(usize, usize)>, i: int) -> Option<ForecastError>
    decreases lens.len() - i,
{
    if i >= lens.len() || i < 0 {
        None
    } else if dims[i].0 != dims[0].0 {
        Some(ForecastError::VariateCount(i as usize))
    } else if lens[i] != dims[i].0 * dims[i].1 {
        Some(ForecastError::ContextLength(i as usize))
    } else {
        first_bad_series(lens, dims, i + 1)
    }
}

/// Checks the shapes of a forecast request: `lens[i]` is the number of
/// values of series `i`, `dims[i]` its `(variates, length)`. An empty
/// request passes.
pub fn check_request(lens: &[usize], dims: &[(usize, usize)], horizon: usize) -> (r: Option<ForecastError>)
    ensures
        r == request_error(lens@, dims@, horizon),
{
    if lens.len() == 0 {
        return None;
    }
    if horizon == 0 {
        return Some(ForecastError::ZeroHorizon);
    }
    if lens.len() != dims.len() {
        return Some(ForecastError::DimsMismatch);
    }
    let first = dims[0].0;
    let mut i: usize = 0;
    while i < lens.len()
        invariant
            lens@.len() == dims@.len(),
            lens@.len() > 0,
            first == dims@[0].0,
            i <= lens@.len(),
            request_error(lens@, dims@, horizon) == first_bad_series(lens@, dims@, i as int),
            horizon != 0,
        decreases lens@.len() - i,
    {
        let (v, c) = dims[i];
        if v != first {
            return Some(ForecastError::VariateCount(i));
        }
        let fits = match v.checked_mul(c) {
            Some(n) => n == lens[i],
            None => false,
        };
        if !fits {
            return Some(ForecastError::ContextLength(i));
        }
        i = i + 1;
    }
    None
}

/// The horizon rounded up to a multiple of the output patch length.
pub fn global_horizon(horizon: usize, o: usize) -> (r: usize)
    requires
        o > 0,
        div_ceil(horizon as int, o as int) * o <= usize::MAX,
    ensures
        r == div_ceil(horizon as int, o as int) * o,
{
    assert(div_ceil(horizon as int, o as int) <= usize::MAX) by (nonlinear_arith)
        requires
            o > 0,
            div_ceil(horizon as int, o as int) * o <= usize::MAX,
            div_ceil(horizon as int, o as int) >= 0,
    ;
    let q = if horizon % o == 0 {
        horizon / o
    } else {
        horizon / o + 1
    };
    assert(q * o <= usize::MAX);
    q * o
}

/// The first column (of a `v_len x c_len` grid of NaN flags) that holds a
/// value in some variate; `c_len` if there is none.
pub fn first_valid_column(is_nan: &[bool], v_len: usize, c_len: usize) -> (r: usize)
    requires
        is_nan@.len() >= v_len * c_len,
    ensures
        r <= c_len,
        forall|c: int, v: int| 0 <= c < r && 0 <= v < v_len ==> #[trigger] is_nan@[v * c_len + c],
        r < c_len ==> exists|v: int| 0 <= v < v_len && !#[trigger] is_nan@[v * c_len + r],
{
    let nl = is_nan.len();
    let mut c: usize = 0;
    while c < c_len
        invariant
            c <= c_len,
            nl == is_nan@.len(),
            is_nan@.len() >= v_len * c_len,
            forall|c2: int, v: int| 0 <= c2 < c && 0 <= v < v_len ==> #[trigger] is_nan@[v * c_len + c2],
        decreases c_len - c,
    {
        let mut v: usize = 0;
        while v < v_len
            invariant
                c < c_len,
                v <= v_len,
                nl == is_nan@.len(),
                is_nan@.len() >= v_len * c_len,
                forall|c2: int, v: int| 0 <= c2 < c && 0 <= v < v_len ==> #[trigger] is_nan@[v * c_len + c2],
                forall|v2: int| 0 <= v2 < v ==> #[trigger] is_nan@[v2 * c_len + c],
            decreases v_len - v,
        {
            proof {
                lemma_row_index(v as int, c as int, v_len as int, c_len as int);
            }
            if !is_nan[v * c_len + c] {
                return c;
            }
            v = v + 1;
        }
        c = c + 1;
    }
    c
}

// ---------------------------------------------------------------------------
// Ordering series by context length
// ---------------------------------------------------------------------------

/// Series `a` comes before series `b`: shorter context first, ties in
/// request order.
pub open spec fn before(lens: Seq<usize>, a: usize, b: usize) -> bool {
    lens[a as int] < lens[b as int] || (lens[a as int] == lens[b as int] && a < b)
}

/// `order` lists every series once, shortest context first, ties in
/// request order (a stable sort by length).
pub open spec fn sorted_by_length(lens: Seq<usize>, order: Seq<usize>) -> bool {
    &&& order.len() == lens.len()
    &&& forall|k: int| 0 <= k < order.len() ==> #[trigger] order[k] < lens.len()
    &&& forall|i: int, j: int| 0 <= i < j < order.len() ==> before(lens, #[trigger] order[i], #[trigger] order[j])
}

/// The order in which series are batched: sorted by context length (stably)
/// when `bucket` is set, else the request order.
pub fn batch_order(lens: &[usize], bucket: bool) -> (order: Vec<usize>)
    ensures
        bucket ==> sorted_by_length(lens@, order@),
        !bucket ==> order@ == Seq::new(lens@.len(), |k: int| k as usize),
{
    let n = lens.len();
    let mut order: Vec<usize> = Vec::new();
    if !bucket {
        let mut k: usize = 0;
        while k < n
            invariant
                n == lens@.len(),
                k <= n,
                order@ == Seq::new(k as nat, |q: int| q as usize),
            decreases n - k,
        {
            order.push(k);
            k = k + 1;
            assert(order@ =~= Seq::new(k as nat, |q: int| q as usize));
        }
        return order;
    }
    // Insertion sort by (length, index).
    let mut k: usize = 0;
    while k < n
        invariant
            n == lens@.len(),
            k <= n,
            order@.len() == k,
            forall|q: int| 0 <= q < order@.len() ==> #[trigger] order@[q] < k,
            forall|i: int, j: int|
                0 <= i < j < order@.len() ==> before(lens@, #[trigger] order@[i], #[trigger] order@[j]),
        decreases n - k,
    {
        // Find the insertion point: after every entry that comes before k.
        let mut pos: usize = order.len();
        while pos > 0 && !(lens[order[pos - 1]] < lens[k] || (lens[order[pos - 1]] == lens[k]
            && order[pos - 1] < k))
            invariant
                n == lens@.len(),
                k < n,
                pos <= order@.len(),
                order@.len() == k,
                forall|q: int| 0 <= q < order@.len() ==> #[trigger] order@[q] < k,
                forall|q: int| pos <= q < order@.len() ==> before(lens@, k, #[trigger] order@[q]),
            decreases pos,
        {
            pos = pos - 1;
            assert(before(lens@, k, order@[pos as int]));
        }
        let ghost old_order = order@;
        order.insert(pos, k);
        assert forall|i: int, j: int|
            0 <= i < j < order@.len() implies before(lens@, #[trigger] order@[i], #[trigger] order@[j]) by {
            if j < pos {
            } else if j == pos {
                // order@[i] is an old entry before the insertion point.
                if i < pos - 1 {
                    assert(before(lens@, old_order[i], old_order[pos - 1]));
                }
            } else if i < pos {
                if i == pos - 1 || j - 1 == pos {
                } else {
                }
                assert(order@[j] == old_order[j - 1]);
                assert(order@[i] == old_order[i]);
            } else if i == pos {
                assert(order@[j] == old_order[j - 1]);
            } else {
                assert(order@[j] == old_order[j - 1]);
                assert(order@[i] == old_order[i - 1]);
            }
        }
        k = k + 1;
    }
    order
}

/// The positions that a permutation sends each index to: `inv[order[k]] == k`.
pub fn inverse_permutation(order: &[usize]) -> (inv: Vec<usize>)
    requires
        forall|k: int| 0 <= k < order@.len() ==> #[trigger] order@[k] < order@.len(),
        forall|i: int, j: int| 0 <= i < j < order@.len() ==> #[trigger] order@[i] != #[trigger] order@[j],
    ensures
        inv@.len() == order@.len(),
        forall|k: int| 0 <= k < order@.len() ==> #[trigger] inv@[order@[k] as int] == k,
{
    let n = order.len();
    let mut inv: Vec<usize> = Vec::new();
    let mut i: usize = 0;
    while i < n
        invariant
            n == order@.len(),
            i <= n,
            inv@.len() == i,
            forall|q: int| 0 <= q < i ==> #[trigger] inv@[q] == 0,
        decreases n - i,
    {
        inv.push(0);
        i = i + 1;
    }
    let mut k: usize = 0;
    while k < n
        invariant
            n == order@.len(),
            k <= n,
            inv@.len() == n,
            forall|q: int| 0 <= q < order@.len() ==> #[trigger] order@[q] < order@.len(),
            forall|a: int, b: int| 0 <= a < b < order@.len() ==> #[trigger] order@[a] != #[trigger] order@[b],
            forall|q: int| 0 <= q < k ==> #[trigger] inv@[order@[q] as int] == q,
        decreases n - k,
    {
        inv.set(order[k], k);
        assert forall|q: int| 0 <= q < k + 1 implies #[trigger] inv@[order@[q] as int] == q by {
            if q < k {
                assert(order@[q] != order@[k as int]);
            }
        }
        k = k + 1;
    }
    inv
}

} // verus!

verus! {

// ---------------------------------------------------------------------------
// Batch boundaries and batch context
// ---------------------------------------------------------------------------

/// The first series `k` (from `k`, in strides of `step`, before `end`)
/// whose context is more than twice `limit`; `end` if there is none.
pub open spec fn cut_at(lens: Seq<usize>, k: int, end: int, step: int, limit: int) -> int
    decreases (if end > k { end - k } else { 0 }),
{
    if step <= 0 || k >= end {
        end
    } else if lens[k] > 2 * limit {
        k
    } else {
        cut_at(lens, k + step, end, step, limit)
    }
}

/// Where the batch starting at series `i` ends (exclusive): at most
/// `per_core` series (at least one); with bucketing, the batch also stops
/// before the first series (checked in strides of 2 when symmetric pairs
/// are interleaved) whose context is more than twice the first one's (or
/// than the patch length).
pub open spec fn batch_end_spec(lens: Seq<usize>, i: int, per_core: int, bucket: bool, symmetric: bool, p: int) -> int {
    let n = lens.len() as int;
    let pc = if per_core >= 1 { per_core } else { 1 };
    let end = if i + pc <= n { i + pc } else { n };
    if bucket && end > i + 1 {
        let min_len = if lens[i] >= p { lens[i] as int } else { p };
        let step = if symmetric { 2int } else { 1int };
        cut_at(lens, i + step, end, step, min_len)
    } else {
        end
    }
}

pub fn batch_end(lens: &[usize], i: usize, per_core: usize, bucket: bool, symmetric: bool, p: usize) -> (end: usize)
    requires
        i < lens@.len(),
    ensures
        end == batch_end_spec(lens@, i as int, per_core as int, bucket, symmetric, p as int),
        i < end <= lens@.len(),
{
    let n = lens.len();
    let pc = if per_core >= 1 {
        per_core
    } else {
        1
    };
    let end = if pc <= n - i {
        i + pc
    } else {
        n
    };
    if bucket && end > i + 1 {
        let min_len = if lens[i] >= p {
            lens[i]
        } else {
            p
        };
        let step: usize = if symmetric {
            2
        } else {
            1
        };
        assert(batch_end_spec(lens@, i as int, per_core as int, bucket, symmetric, p as int) == cut_at(
            lens@,
            (i + step) as int,
            end as int,
            step as int,
            min_len as int,
        ));
        if step >= end - i {
            return end;
        }
        let mut k = i + step;
        while k < end
            invariant
                n == lens@.len(),
                i < end <= n,
                i < k,
                step == 1 || step == 2,
                batch_end_spec(lens@, i as int, per_core as int, bucket, symmetric, p as int) == cut_at(
                    lens@,
                    (i + step) as int,
                    end as int,
                    step as int,
                    min_len as int,
                ),
                cut_at(lens@, (i + step) as int, end as int, step as int, min_len as int) == cut_at(
                    lens@,
                    k as int,
                    end as int,
                    step as int,
                    min_len as int,
                ),
            decreases end - k,
        {
            if lens[k] >= min_len && lens[k] - min_len > min_len {
                return k;
            }
            if step >= end - k {
                assert(cut_at(lens@, (k + step) as int, end as int, step as int, min_len as int) == end);
                return end;
            }
            k = k + step;
        }
        end
    } else {
        end
    }
}

/// The longest context among series `i..end`.
pub open spec fn max_len(lens: Seq<usize>, i: int, end: int) -> int
    decreases end - i,
{
    if i >= end {
        0
    } else {
        let rest = max_len(lens, i + 1, end);
        if lens[i] >= rest {
            lens[i] as int
        } else {
            rest
        }
    }
}

/// The context length of a batch whose longest context is `m`: rounded up
/// to a multiple of `p`, capped at the maximum context (rounded up the same
/// way), and at least `p`.
pub open spec fn batch_context_spec(m: int, p: int) -> int {
    let rounded = div_ceil(m, p) * p;
    let cap = div_ceil(MAX_CONTEXT_LENGTH as int, p) * p;
    let capped = if rounded <= cap { rounded } else { cap };
    if capped >= p { capped } else { p }
}

proof fn lemma_div_ceil_mono(a: int, b: int, p: int)
    requires
        0 <= a <= b,
        p > 0,
    ensures
        div_ceil(a, p) <= div_ceil(b, p),
        a <= div_ceil(a, p) * p,
        div_ceil(a, p) * p < a + p,
        div_ceil(a, p) >= 0,
{
    vstd::arithmetic::div_mod::lemma_fundamental_div_mod(a, p);
    vstd::arithmetic::div_mod::lemma_fundamental_div_mod(b, p);
    vstd::arithmetic::div_mod::lemma_div_is_ordered(a, b, p);
    assert(a <= div_ceil(a, p) * p < a + p && div_ceil(a, p) >= 0) by (nonlinear_arith)
        requires
            a == p * (a / p) + a % p,
            0 <= a % p < p,
            a >= 0,
            div_ceil(a, p) == (if a % p == 0 { a / p } else { a / p + 1 }),
    ;
    if div_ceil(a, p) > div_ceil(b, p) {
        assert(false) by (nonlinear_arith)
            requires
                a == p * (a / p) + a % p,
                b == p * (b / p) + b % p,
                0 <= a % p < p,
                0 <= b % p < p,
                a <= b,
                a / p <= b / p,
                div_ceil(a, p) == (if a % p == 0 { a / p } else { a / p + 1 }),
                div_ceil(b, p) == (if b % p == 0 { b / p } else { b / p + 1 }),
                div_ceil(a, p) > div_ceil(b, p),
        ;
    }
}

/// The context length of the batch `i..end`.
pub fn batch_context(lens: &[usize], i: usize, end: usize, p: usize) -> (bc: usize)
    requires
        i <= end <= lens@.len(),
        p > 0,
        p <= usize::MAX - MAX_CONTEXT_LENGTH,
    ensures
        bc == batch_context_spec(max_len(lens@, i as int, end as int), p as int),
{
    let mut m: usize = 0;
    let mut k: usize = end;
    while k > i
        invariant
            i <= k <= end <= lens@.len(),
            m == max_len(lens@, k as int, end as int),
        decreases k - i,
    {
        k = k - 1;
        if lens[k] >= m {
            m = lens[k];
        }
    }
    let ghost cap = div_ceil(MAX_CONTEXT_LENGTH as int, p as int) * p;
    proof {
        lemma_div_ceil_mono(MAX_CONTEXT_LENGTH as int, MAX_CONTEXT_LENGTH as int, p as int);
    }
    let capq = if MAX_CONTEXT_LENGTH % p == 0 {
        MAX_CONTEXT_LENGTH / p
    } else {
        MAX_CONTEXT_LENGTH / p + 1
    };
    let capped_len = capq * p;
    let capped = if m >= capped_len {
        proof {
            lemma_div_ceil_mono(capped_len as int, m as int, p as int);
            vstd::arithmetic::div_mod::lemma_div_multiples_vanish(capq as int, p as int);
            vstd::arithmetic::div_mod::lemma_mod_multiples_basic(capq as int, p as int);
            assert(div_ceil(capped_len as int, p as int) == capq);
            assert(div_ceil(m as int, p as int) * p >= capped_len) by (nonlinear_arith)
                requires
                    div_ceil(m as int, p as int) >= capq,
                    capped_len == capq * p,
                    p > 0,
            ;
        }
        capped_len
    } else {
        proof {
            lemma_div_ceil_mono(m as int, capped_len as int, p as int);
            vstd::arithmetic::div_mod::lemma_div_multiples_vanish(capq as int, p as int);
            vstd::arithmetic::div_mod::lemma_mod_multiples_basic(capq as int, p as int);
            assert(div_ceil(capped_len as int, p as int) == capq);
            assert(div_ceil(m as int, p as int) * p <= capped_len) by (nonlinear_arith)
                requires
                    div_ceil(m as int, p as int) <= capq,
                    capped_len == capq * p,
                    p > 0,
            ;
        }
        let q = if m % p == 0 {
            m / p
        } else {
            m / p + 1
        };
        q * p
    };
    if capped >= p {
        capped
    } else {
        p
    }
}

/// How a series of length `c_len` fits a batch context `bc`: the points
/// skipped at its start (a longer context keeps its last `bc` points), the
/// points kept, and the left padding.
pub fn context_fit(c_len: usize, bc: usize) -> (r: (usize, usize, usize))
    ensures
        r.0 == (if c_len > bc { c_len - bc } else { 0 }),
        r.1 == c_len - r.0,
        r.2 == bc - r.1,
        r.1 <= bc,
{
    let skip = if c_len > bc {
        c_len - bc
    } else {
        0
    };
    let kept = c_len - skip;
    (skip, kept, bc - kept)
}

/// The batch mask `(b, bc)`: row `bi` is masked on its first `pads[bi]`
/// points.
pub fn batch_mask(pads: &[usize], bc: usize) -> (m: Vec<bool>)
    requires
        pads@.len() * bc <= usize::MAX,
    ensures
        m@.len() == pads@.len() * bc,
        forall|bi: int, c: int|
            0 <= bi < pads@.len() && 0 <= c < bc ==> #[trigger] m@[bi * bc + c] == (c < pads@[bi]),
{
    let b = pads.len();
    build_grid(
        b,
        bc,
        (|bi: usize, c: usize| -> (x: bool)
            requires
                bi < b,
                b == pads@.len(),
            ensures
                x == (c < pads@[bi as int]),
            { c < pads[bi] }),
    )
}

// ---------------------------------------------------------------------------
// Moving rows in and out of batch buffers
// ---------------------------------------------------------------------------

/// Each row of width `width` without its first `skip` elements.
pub fn drop_columns<T: Copy>(x: &[T], rows: usize, width: usize, skip: usize) -> (out: Vec<T>)
    requires
        skip <= width,
        x@.len() >= rows * width,
        rows * (width - skip) <= usize::MAX,
    ensures
        out@.len() == rows * (width - skip),
        forall|r: int, c: int|
            0 <= r < rows && 0 <= c < width - skip ==> #[trigger] out@[r * (width - skip) + c]
                == x@[r * width + skip + c],
{
    let w = width - skip;
    build_grid(
        rows,
        w,
        (|r: usize, c: usize| -> (v: T)
            requires
                r < rows,
                c < w,
                w == width - skip,
                x@.len() >= rows * width,
            ensures
                v == x@[r * width + skip + c],
            {
                proof {
                    lemma_row_index(r as int, (skip + c) as int, rows as int, width as int);
                }
                let xl = x.len();
                x[r * width + (skip + c)]
            }),
    )
}

/// Each row of width `width` extended on the right to `width_new` with `fill`.
pub fn pad_right<T: Copy>(x: &[T], rows: usize, width: usize, width_new: usize, fill: T) -> (out: Vec<T>)
    requires
        width <= width_new,
        x@.len() >= rows * width,
        rows * width_new <= usize::MAX,
    ensures
        out@.len() == rows * width_new,
        forall|r: int, c: int|
            0 <= r < rows && 0 <= c < width_new ==> #[trigger] out@[r * width_new + c] == (if c
                < width {
                x@[r * width + c]
            } else {
                fill
            }),
{
    build_grid(
        rows,
        width_new,
        (|r: usize, c: usize| -> (v: T)
            requires
                r < rows,
                x@.len() >= rows * width,
            ensures
                v == (if c < width {
                    x@[r * width + c]
                } else {
                    fill
                }),
            {
                if c < width {
                    proof {
                        lemma_row_index(r as int, c as int, rows as int, width as int);
                    }
                    let xl = x.len();
                    x[r * width + c]
                } else {
                    fill
                }
            }),
    )
}

/// One quantile of each `(row, step)` of a `(rows, gh, nq)` buffer, for the
/// first `horizon` steps: `(rows, horizon)`.
pub fn select_quantile<T: Copy>(raw: &[T], rows: usize, gh: usize, horizon: usize, nq: usize, qi: usize) -> (out: Vec<T>)
    requires
        horizon <= gh,
        qi < nq,
        raw@.len() >= rows * gh * nq,
        rows * horizon <= usize::MAX,
    ensures
        out@.len() == rows * horizon,
        forall|r: int, h: int|
            0 <= r < rows && 0 <= h < horizon ==> #[trigger] out@[r * horizon + h] == raw@[(r * gh
                + h) * nq + qi],
{
    build_grid(
        rows,
        horizon,
        (|r: usize, h: usize| -> (v: T)
            requires
                r < rows,
                h < horizon,
                horizon <= gh,
                qi < nq,
                raw@.len() >= rows * gh * nq,
            ensures
                v == raw@[(r * gh + h) * nq + qi],
            {
                proof {
                    lemma_grid_bound(r as int, h as int, qi as int, rows as int, gh as int, nq as int);
                }
                let rl = raw.len();
                raw[(r * gh + h) * nq + qi]
            }),
    )
}

/// The first `horizon` steps of each row of a `(rows, gh, nq)` buffer:
/// `(rows, horizon, nq)`, row-major with `R = r * horizon + h`.
pub fn truncate_horizon<T: Copy>(raw: &[T], rows: usize, gh: usize, horizon: usize, nq: usize) -> (out: Vec<T>)
    requires
        horizon <= gh,
        raw@.len() >= rows * gh * nq,
        rows * horizon <= usize::MAX,
        rows * horizon * nq <= usize::MAX,
    ensures
        out@.len() == rows * horizon * nq,
        forall|rr: int, q: int|
            0 <= rr < rows * horizon && 0 <= q < nq ==> #[trigger] out@[rr * nq + q] == raw@[((rr
                / (horizon as int)) * gh + rr % (horizon as int)) * nq + q],
{
    let steps = rows * horizon;
    build_grid(
        steps,
        nq,
        (|rr: usize, q: usize| -> (v: T)
            requires
                rr < steps,
                q < nq,
                steps == rows * horizon,
                horizon <= gh,
                raw@.len() >= rows * gh * nq,
            ensures
                v == raw@[(((rr as int) / (horizon as int)) * gh + (rr as int) % (horizon as int)) * nq + q],
            {
                proof {
                    assert(horizon > 0) by (nonlinear_arith)
                        requires
                            rr < rows * horizon,
                    ;
                    vstd::arithmetic::div_mod::lemma_fundamental_div_mod(rr as int, horizon as int);
                    assert((rr / horizon) < rows) by (nonlinear_arith)
                        requires
                            rr == horizon * (rr / horizon) + rr % horizon,
                            0 <= rr % horizon,
                            rr < rows * horizon,
                            horizon > 0,
                    ;
                    lemma_grid_bound((rr / horizon) as int, (rr % horizon) as int, q as int, rows as int, gh as int, nq as int);
                }
                let rl = raw.len();
                raw[((rr / horizon) * gh + rr % horizon) * nq + q]
            }),
    )
}

proof fn lemma_grid_bound(i: int, j: int, k: int, a: int, bd: int, cd: int)
    requires
        0 <= i < a,
        0 <= j < bd,
        0 <= k < cd,
    ensures
        0 <= i * bd <= i * bd + j < a * bd,
        0 <= (i * bd + j) * cd <= (i * bd + j) * cd + k < a * bd * cd,
        i * bd + j <= (i * bd + j) * cd,
{
    assert(i * bd + j <= (i * bd + j) * cd) by (nonlinear_arith)
        requires
            0 <= i,
            0 <= j,
            0 <= bd,
            cd >= 1,
    ;
    assert(0 <= i * bd <= i * bd + j < a * bd) by (nonlinear_arith)
        requires
            0 <= i < a,
            0 <= j < bd,
    ;
    assert(0 <= (i * bd + j) * cd <= (i * bd + j) * cd + k < a * bd * cd) by (nonlinear_arith)
        requires
            0 <= i * bd + j < a * bd,
            0 <= k < cd,
    ;
}

} // verus!
