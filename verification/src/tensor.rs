//! Minimal row-major 2-D tensor.
//!
//! Deliberately not a generic N-d array system: the engine has one hot
//! layout (row-major matrices for GEMM) plus structured reshapes that the
//! model layers handle explicitly. The element type is a parameter so that
//! the same layout logic serves `f32` values, `f16` weights and masks.
use vstd::prelude::*;
use crate::layout::{lemma_swap_axes_involution, swap_axes, swap_middle_axes};

verus! {

/// Row-major matrix.
#[derive(Debug, PartialEq)]
pub struct Tensor2D<T> {
    rows: usize,
    cols: usize,
    data: Vec<T>,
}

/// A flat buffer whose length does not match the requested shape.
#[derive(Debug, Clone, Copy, PartialEq, Eq, Structural)]
pub struct ShapeMismatch {
    pub rows: usize,
    pub cols: usize,
    pub len: usize,
}

impl<T> Tensor2D<T> {
    #[verifier::type_invariant]
    closed spec fn wf(&self) -> bool {
        self.data@.len() == self.rows * self.cols
    }

    /// Number of rows.
    pub closed spec fn num_rows(&self) -> nat {
        self.rows as nat
    }

    /// Number of columns.
    pub closed spec fn num_cols(&self) -> nat {
        self.cols as nat
    }

    /// The elements in row-major order.
    pub closed spec fn values(&self) -> Seq<T> {
        self.data@
    }

    #[inline]
    pub fn rows(&self) -> (r: usize)
        ensures
            r == self.num_rows(),
    {
        self.rows
    }

    #[inline]
    pub fn cols(&self) -> (r: usize)
        ensures
            r == self.num_cols(),
    {
        self.cols
    }

    #[inline]
    pub fn elements(&self) -> (r: usize)
        ensures
            r == self.values().len(),
            r == self.num_rows() * self.num_cols(),
    {
        proof {
            use_type_invariant(self);
        }
        self.data.len()
    }

    #[inline]
    pub fn data(&self) -> (r: &[T])
        ensures
            r@ == self.values(),
            r@.len() == self.num_rows() * self.num_cols(),
    {
        proof {
            use_type_invariant(self);
        }
        self.data.as_slice()
    }

    /// Consumes the tensor and returns its owned data.
    pub fn into_data(self) -> (r: Vec<T>)
        ensures
            r@ == self.values(),
    {
        self.data
    }

    /// Creates a matrix from flat row-major data, checking the length.
    pub fn from_row_major(rows: usize, cols: usize, data: Vec<T>) -> (r: Result<Self, ShapeMismatch>)
        ensures
            rows * cols == data@.len() ==> (r matches Ok(t) && t.num_rows() == rows && t.num_cols()
                == cols && t.values() == data@),
            rows * cols != data@.len() ==> r == Err::<Self, ShapeMismatch>(
                ShapeMismatch { rows, cols, len: data@.len() as usize },
            ),
    {
        let len = data.len();
        match rows.checked_mul(cols) {
            Some(n) => {
                if n == len {
                    Ok(Tensor2D { rows, cols, data })
                } else {
                    Err(ShapeMismatch { rows, cols, len })
                }
            },
            None => Err(ShapeMismatch { rows, cols, len }),
        }
    }

    /// A matrix over data already known to have `rows * cols` elements.
    pub(crate) fn from_exact(rows: usize, cols: usize, data: Vec<T>) -> (t: Self)
        requires
            data@.len() == rows * cols,
        ensures
            t.num_rows() == rows,
            t.num_cols() == cols,
            t.values() == data@,
    {
        Tensor2D { rows, cols, data }
    }

    /// Replaces the elements, keeping the shape.
    pub(crate) fn overwrite(&mut self, data: Vec<T>)
        requires
            data@.len() == old(self).num_rows() * old(self).num_cols(),
        ensures
            final(self).num_rows() == old(self).num_rows(),
            final(self).num_cols() == old(self).num_cols(),
            final(self).values() == data@,
    {
        self.data = data;
    }
}

impl<T: Copy> Tensor2D<T> {
    /// A `rows x cols` matrix with every element equal to `value`.
    pub fn filled(rows: usize, cols: usize, value: T) -> (r: Self)
        requires
            rows * cols <= usize::MAX,
        ensures
            r.num_rows() == rows,
            r.num_cols() == cols,
            r.values() == Seq::new((rows * cols) as nat, |k: int| value),
    {
        let n = rows * cols;
        let mut data: Vec<T> = Vec::new();
        while data.len() < n
            invariant
                n == rows * cols,
                data.len() <= n,
                forall|k: int| 0 <= k < data@.len() ==> data@[k] == value,
            decreases n - data.len(),
        {
            data.push(value);
        }
        let t = Tensor2D { rows, cols, data };
        assert(t.values() =~= Seq::new((rows * cols) as nat, |k: int| value));
        t
    }

    /// Builds a `(rows, cols)` tensor from a flat slice (copies).
    pub fn from_slice(rows: usize, cols: usize, data: &[T]) -> (r: Result<Self, ShapeMismatch>)
        ensures
            rows * cols == data@.len() ==> (r matches Ok(t) && t.num_rows() == rows && t.num_cols()
                == cols && t.values() == data@),
            rows * cols != data@.len() ==> r == Err::<Self, ShapeMismatch>(
                ShapeMismatch { rows, cols, len: data@.len() as usize },
            ),
    {
        Self::from_row_major(rows, cols, copy_to_vec(data))
    }

    /// The element at row `r`, column `c` (stored at `r * cols + c`).
    #[inline]
    pub fn get(&self, r: usize, c: usize) -> (x: T)
        requires
            r * self.num_cols() + c < self.values().len(),
        ensures
            x == self.values()[r * self.num_cols() + c],
    {
        let len = self.data.len();
        assert(r * self.cols <= r * self.cols + c < len);
        self.data[r * self.cols + c]
    }

    /// Sets the element at row `r`, column `c` (stored at `r * cols + c`).
    #[inline]
    pub fn set(&mut self, r: usize, c: usize, x: T)
        requires
            r * old(self).num_cols() + c < old(self).values().len(),
        ensures
            final(self).num_rows() == old(self).num_rows(),
            final(self).num_cols() == old(self).num_cols(),
            final(self).values() == old(self).values().update(r * old(self).num_cols() + c, x),
    {
        let mut taken = Tensor2D { rows: 0, cols: 0, data: Vec::new() };
        std::mem::swap(self, &mut taken);
        proof {
            use_type_invariant(&taken);
        }
        let Tensor2D { rows, cols, mut data } = taken;
        let len = data.len();
        assert(r * cols <= r * cols + c < len);
        data.set(r * cols + c, x);
        *self = Tensor2D { rows, cols, data };
    }

    /// Overwrites the elements with those of `src` (the shapes must match).
    pub fn copy_from(&mut self, src: &Self)
        requires
            old(self).num_rows() == src.num_rows(),
            old(self).num_cols() == src.num_cols(),
        ensures
            final(self).num_rows() == old(self).num_rows(),
            final(self).num_cols() == old(self).num_cols(),
            final(self).values() == src.values(),
    {
        let v = copy_to_vec(src.data());
        self.overwrite(v);
    }

    /// The transpose: a `cols x rows` matrix whose element `(c, r)` is
    /// element `(r, c)` of `self`.
    pub fn transpose(&self) -> (t: Self)
        ensures
            t.num_rows() == self.num_cols(),
            t.num_cols() == self.num_rows(),
            t.values() == transposed(self.values(), self.num_rows(), self.num_cols()),
    {
        proof {
            use_type_invariant(self);
        }
        let v = transpose_flat(self.data(), self.rows, self.cols);
        proof {
            assert(self.cols * self.rows == self.rows * self.cols) by (nonlinear_arith);
        }
        Self::from_exact(self.cols, self.rows, v)
    }
}

/// The row-major `cols x rows` transpose of a row-major `rows x cols` matrix.
pub open spec fn transposed<T>(x: Seq<T>, rows: nat, cols: nat) -> Seq<T> {
    swap_axes(x, 1, rows, cols, 1)
}

/// A fresh vector holding the elements of `s`.
pub fn copy_to_vec<T: Copy>(s: &[T]) -> (r: Vec<T>)
    ensures
        r@ == s@,
{
    let mut v: Vec<T> = Vec::new();
    let mut k: usize = 0;
    while k < s.len()
        invariant
            k <= s@.len(),
            v@ == s@.take(k as int),
        decreases s@.len() - k,
    {
        v.push(s[k]);
        k = k + 1;
        assert(v@ =~= s@.take(k as int));
    }
    assert(s@.take(s@.len() as int) =~= s@);
    v
}

/// Transposes a `rows x cols` row-major buffer into a fresh `cols x rows`
/// one (elements past `rows * cols` are ignored).
pub fn transpose_flat<T: Copy>(data: &[T], rows: usize, cols: usize) -> (r: Vec<T>)
    requires
        data@.len() >= rows * cols,
    ensures
        r@ == transposed(data@, rows as nat, cols as nat),
{
    assert(1 * rows * cols * 1 == rows * cols) by (nonlinear_arith);
    swap_middle_axes(data, 1, rows, cols, 1)
}

/// Transposing twice gives back the matrix.
pub proof fn lemma_transpose_involution<T>(x: Seq<T>, rows: nat, cols: nat)
    requires
        x.len() == rows * cols,
    ensures
        transposed(transposed(x, rows, cols), cols, rows) == x,
{
    assert(1 * rows * cols * 1 == rows * cols) by (nonlinear_arith);
    lemma_swap_axes_involution(x, 1, rows, cols, 1);
}

} // verus!
