use vstd::prelude::*;
use vstd::arithmetic::div_mod::{
    lemma_div_pos_is_pos,
    lemma_fundamental_div_mod,
    lemma_fundamental_div_mod_converse,
    lemma_mod_pos_bound,
};
use crate::array::{
    lemma_offset4_bound, lemma_product2, lemma_product4, lemma_split_index, offset4,
    NdArray,
};
use crate::shape::product;

verus! {

/// Stride for convolution operations (height, width)
#[derive(Debug, Clone, Copy)]
pub struct Stride(pub usize, pub usize);

/// Padding for convolution operations (height, width)
#[derive(Debug, Clone, Copy)]
pub struct Padding(pub usize, pub usize);

/// Extent of a convolution output along one axis: how many kernel positions,
/// `stride` apart, fit into the input padded by `pad` on both sides.
pub open spec fn out_extent(size: int, pad: int, kernel: int, stride: int) -> int {
    (size + 2 * pad - kernel) / stride + 1
}

/// Extent of a convolution output along one axis of `size` cells padded by
/// `pad` on both sides, for a `kernel` moved `stride` cells at a time.
pub fn conv_out_extent(size: usize, pad: usize, kernel: usize, stride: usize) -> (r: usize)
    requires
        stride > 0,
        size + 2 * pad <= usize::MAX,
        kernel <= size + 2 * pad,
        out_extent(size as int, pad as int, kernel as int, stride as int) <= usize::MAX,
    ensures
        r == out_extent(size as int, pad as int, kernel as int, stride as int),
        r >= 1,
        (r - 1) * stride + kernel <= size + 2 * pad,
        r * stride + kernel > size + 2 * pad,
{
    proof {
        lemma_out_extent_counts_windows(size as int, pad as int, kernel as int, stride as int);
    }
    (size + 2 * pad - kernel) / stride + 1
}

/// The output extent is the number of kernel positions, `stride` apart from
/// position `0`, whose window fits in the padded input: the last one fits
/// and the next one would not.
pub proof fn lemma_out_extent_counts_windows(size: int, pad: int, kernel: int, stride: int)
    requires
        stride > 0,
        0 <= kernel <= size + 2 * pad,
    ensures
        out_extent(size, pad, kernel, stride) >= 1,
        (out_extent(size, pad, kernel, stride) - 1) * stride + kernel <= size + 2 * pad,
        out_extent(size, pad, kernel, stride) * stride + kernel > size + 2 * pad,
        forall|e: int|
            #![trigger e * stride]
            e >= 1 && (e - 1) * stride + kernel <= size + 2 * pad && e * stride + kernel > size + 2 * pad ==> e
                == out_extent(size, pad, kernel, stride),
{
    let span = size + 2 * pad - kernel;
    lemma_fundamental_div_mod(span, stride);
    lemma_mod_pos_bound(span, stride);
    lemma_div_pos_is_pos(span, stride);
    let q = span / stride;
    assert(q * stride <= span < q * stride + stride) by (nonlinear_arith)
        requires
            span == stride * q + span % stride,
            0 <= span % stride < stride,
    ;
    assert forall|e: int|
        #![trigger e * stride]
        e >= 1 && (e - 1) * stride + kernel <= size + 2 * pad && e * stride + kernel > size + 2 * pad implies e
            == out_extent(size, pad, kernel, stride) by {
        if e - 1 < q {
            assert((e - 1) * stride + stride <= q * stride) by (nonlinear_arith)
                requires
                    e - 1 < q,
                    stride > 0,
            ;
            assert(e * stride == (e - 1) * stride + stride) by (nonlinear_arith);
        } else if e - 1 > q {
            assert((e - 1) * stride >= q * stride + stride) by (nonlinear_arith)
                requires
                    e - 1 > q,
                    stride > 0,
            ;
        }
    }
    assert((q + 1) * stride == q * stride + stride) by (nonlinear_arith);
}

/// The layout of a patch extraction: a batch of `n` images with `c` channels
/// of `h` by `w` pixels, a `kh` by `kw` kernel, strides and paddings.
pub struct ConvGeometry {
    pub n: usize,
    pub c: usize,
    pub h: usize,
    pub w: usize,
    pub kh: usize,
    pub kw: usize,
    pub sh: usize,
    pub sw: usize,
    pub ph: usize,
    pub pw: usize,
}

impl ConvGeometry {
    /// Output height.
    pub open spec fn oh(self) -> int {
        out_extent(self.h as int, self.ph as int, self.kh as int, self.sh as int)
    }

    /// Output width.
    pub open spec fn ow(self) -> int {
        out_extent(self.w as int, self.pw as int, self.kw as int, self.sw as int)
    }

    /// Number of patches: one row of the column matrix each.
    pub open spec fn rows(self) -> int {
        self.n * self.oh() * self.ow()
    }

    /// Number of values in one patch: one column of the column matrix each.
    pub open spec fn cols(self) -> int {
        self.c * self.kh * self.kw
    }

    /// Strides are positive and the kernel fits in the padded input.
    pub open spec fn valid(self) -> bool {
        &&& self.sh > 0
        &&& self.sw > 0
        &&& self.h + 2 * self.ph <= usize::MAX
        &&& self.w + 2 * self.pw <= usize::MAX
        &&& self.kh <= self.h + 2 * self.ph
        &&& self.kw <= self.w + 2 * self.pw
        &&& self.oh() <= usize::MAX
        &&& self.ow() <= usize::MAX
    }

    /// The value of the zero-padded input at padded coordinates `(y, x)` of
    /// channel `ci` of image `ni`.
    pub open spec fn padded<T>(self, input: Seq<T>, zero: T, ni: int, ci: int, y: int, x: int) -> T {
        if self.ph <= y < self.h + self.ph && self.pw <= x < self.w + self.pw {
            input[offset4(self.c as int, self.h as int, self.w as int, ni, ci, y - self.ph, x - self.pw)]
        } else {
            zero
        }
    }

    /// Entry `(row, col)` of the column matrix: row `row` is the patch of
    /// image `ni` at output position `(ohi, owi)`, column `col` is kernel
    /// offset `(ki, kj)` of channel `ci`, both in row-major order.
    pub open spec fn column_entry<T>(self, input: Seq<T>, zero: T, row: int, col: int) -> T {
        let ni = row / (self.oh() * self.ow());
        let ohi = (row % (self.oh() * self.ow())) / self.ow();
        let owi = row % self.ow();
        let ci = col / (self.kh * self.kw);
        let ki = (col % (self.kh * self.kw)) / (self.kw as int);
        let kj = col % (self.kw as int);
        self.padded(input, zero, ni, ci, ohi * self.sh + ki, owi * self.sw + kj)
    }

    /// The image cell that entry `t` of the column matrix (row-major, so at
    /// row `t / cols()` and column `t % cols()`) is read from: the row-major
    /// offset over `(n, c, h, w)` of that cell, or `None` when the entry lies
    /// in the padding.
    pub open spec fn source_cell(self, t: int) -> Option<usize> {
        let row = t / self.cols();
        let col = t % self.cols();
        let ni = row / (self.oh() * self.ow());
        let ohi = (row % (self.oh() * self.ow())) / self.ow();
        let owi = row % self.ow();
        let ci = col / (self.kh * self.kw);
        let ki = (col % (self.kh * self.kw)) / (self.kw as int);
        let kj = col % (self.kw as int);
        let y = ohi * self.sh + ki;
        let x = owi * self.sw + kj;
        if self.ph <= y < self.h + self.ph && self.pw <= x < self.w + self.pw {
            Some(offset4(self.c as int, self.h as int, self.w as int, ni, ci, y - self.ph, x - self.pw) as usize)
        } else {
            None
        }
    }
}

/// The geometry of a patch extraction over an input of extents `dims`.
pub open spec fn geometry(
    dims: Seq<usize>,
    kernel_h: usize,
    kernel_w: usize,
    stride_h: usize,
    stride_w: usize,
    pad_h: usize,
    pad_w: usize,
) -> ConvGeometry {
    ConvGeometry {
        n: dims[0],
        c: dims[1],
        h: dims[2],
        w: dims[3],
        kh: kernel_h,
        kw: kernel_w,
        sh: stride_h,
        sw: stride_w,
        ph: pad_h,
        pw: pad_w,
    }
}

/// Entry `(row, col)` of the column matrix, with `row` naming patch
/// `(ni, ohi, owi)` and `col` naming kernel cell `(ci, ki, kj)`, is the padded
/// input at `(ohi * stride + ki, owi * stride + kj)`.
pub proof fn lemma_column_entry_at<T>(
    g: ConvGeometry,
    input: Seq<T>,
    zero: T,
    ni: int,
    ohi: int,
    owi: int,
    ci: int,
    ki: int,
    kj: int,
)
    requires
        g.valid(),
        0 <= ni < g.n,
        0 <= ohi < g.oh(),
        0 <= owi < g.ow(),
        0 <= ci < g.c,
        0 <= ki < g.kh,
        0 <= kj < g.kw,
    ensures
        g.column_entry(input, zero, (ni * g.oh() + ohi) * g.ow() + owi, (ci * g.kh + ki) * g.kw + kj)
            == g.padded(input, zero, ni, ci, ohi * g.sh + ki, owi * g.sw + kj),
{
    let oh = g.oh();
    let ow = g.ow();
    let kh = g.kh as int;
    let kw = g.kw as int;
    let row = (ni * oh + ohi) * ow + owi;
    let col = (ci * kh + ki) * kw + kj;
    assert(row == ni * (oh * ow) + (ohi * ow + owi)) by (nonlinear_arith)
        requires
            row == (ni * oh + ohi) * ow + owi,
    ;
    assert(0 <= ohi * ow + owi < oh * ow) by (nonlinear_arith)
        requires
            0 <= ohi < oh,
            0 <= owi < ow,
    ;
    lemma_fundamental_div_mod_converse(row, oh * ow, ni, ohi * ow + owi);
    lemma_fundamental_div_mod_converse(ohi * ow + owi, ow, ohi, owi);
    lemma_fundamental_div_mod_converse(row, ow, ni * oh + ohi, owi);
    assert(col == ci * (kh * kw) + (ki * kw + kj)) by (nonlinear_arith)
        requires
            col == (ci * kh + ki) * kw + kj,
    ;
    assert(0 <= ki * kw + kj < kh * kw) by (nonlinear_arith)
        requires
            0 <= ki < kh,
            0 <= kj < kw,
    ;
    lemma_fundamental_div_mod_converse(col, kh * kw, ci, ki * kw + kj);
    lemma_fundamental_div_mod_converse(ki * kw + kj, kw, ki, kj);
    lemma_fundamental_div_mod_converse(col, kw, ci * kh + ki, kj);
}

/// Kernel position `i` along an axis with `out_extent` outputs stays inside
/// the padded input: `i * stride + k < size + 2 * pad` for `k < kernel`.
pub proof fn lemma_window_inside(size: int, pad: int, kernel: int, stride: int, i: int, k: int)
    requires
        stride > 0,
        0 <= kernel <= size + 2 * pad,
        0 <= i < out_extent(size, pad, kernel, stride),
        0 <= k < kernel,
    ensures
        0 <= i * stride + k < size + 2 * pad,
{
    let span = size + 2 * pad - kernel;
    lemma_fundamental_div_mod(span, stride);
    lemma_mod_pos_bound(span, stride);
    lemma_div_pos_is_pos(span, stride);
    let q = span / stride;
    assert(i * stride <= q * stride) by (nonlinear_arith)
        requires
            i <= q,
            stride > 0,
    ;
    assert(q * stride <= span) by (nonlinear_arith)
        requires
            span == stride * q + span % stride,
            span % stride >= 0,
    ;
    assert(0 <= i * stride) by (nonlinear_arith)
        requires
            i >= 0,
            stride > 0,
    ;
}

/// Converts image patches to columns: row `((ni * oh) + ohi) * ow + owi` of
/// the result holds the zero-padded `kernel_h` by `kernel_w` window of image
/// `ni` whose top-left corner is at `(ohi * stride_h, owi * stride_w)`,
/// flattened over `(channel, kernel row, kernel column)`.
pub fn im2col<T: Copy>(
    input: &NdArray<T>,
    kernel_h: usize,
    kernel_w: usize,
    stride_h: usize,
    stride_w: usize,
    pad_h: usize,
    pad_w: usize,
    zero: T,
) -> (cols: NdArray<T>)
    requires
        input.well_formed(),
        input.dims().len() == 4,
        geometry(input.dims(), kernel_h, kernel_w, stride_h, stride_w, pad_h, pad_w).valid(),
        input.dims()[0] * geometry(input.dims(), kernel_h, kernel_w, stride_h, stride_w, pad_h, pad_w).oh()
            * geometry(input.dims(), kernel_h, kernel_w, stride_h, stride_w, pad_h, pad_w).ow() <= usize::MAX,
        input.dims()[1] * kernel_h <= usize::MAX,
        input.dims()[1] * kernel_h * kernel_w <= usize::MAX,
        geometry(input.dims(), kernel_h, kernel_w, stride_h, stride_w, pad_h, pad_w).rows()
            * geometry(input.dims(), kernel_h, kernel_w, stride_h, stride_w, pad_h, pad_w).cols() <= usize::MAX,
    ensures
        cols.well_formed(),
        cols.dims() == seq![
            geometry(input.dims(), kernel_h, kernel_w, stride_h, stride_w, pad_h, pad_w).rows() as usize,
            geometry(input.dims(), kernel_h, kernel_w, stride_h, stride_w, pad_h, pad_w).cols() as usize,
        ],
        forall|q: int|
            0 <= q < cols.elems().len() ==> #[trigger] cols.elems()[q] == geometry(
                input.dims(),
                kernel_h,
                kernel_w,
                stride_h,
                stride_w,
                pad_h,
                pad_w,
            ).column_entry(
                input.elems(),
                zero,
                q / geometry(input.dims(), kernel_h, kernel_w, stride_h, stride_w, pad_h, pad_w).cols(),
                q % geometry(input.dims(), kernel_h, kernel_w, stride_h, stride_w, pad_h, pad_w).cols(),
            ),
{
    let ghost g = geometry(input.dims(), kernel_h, kernel_w, stride_h, stride_w, pad_h, pad_w);
    let dims = input.shape();
    let n = dims[0];
    let c = dims[1];
    let h = dims[2];
    let w = dims[3];
    let data = input.data();
    let dlen = data.len();
    proof {
        lemma_product4(input.dims());
    }
    let oh = conv_out_extent(h, pad_h, kernel_h, stride_h);
    let ow = conv_out_extent(w, pad_w, kernel_w, stride_w);
    assert(n * oh <= n * oh * ow) by (nonlinear_arith)
        requires
            ow >= 1,
            n >= 0,
            oh >= 0,
    ;
    let rows = n * oh * ow;
    let ncols = c * kernel_h * kernel_w;
    assert(oh == g.oh() && ow == g.ow());
    assert(rows == g.rows() && ncols == g.cols());
    let mut out: Vec<T> = Vec::new();
    if rows > 0 && ncols > 0 {
        assert(oh * ow <= rows && kernel_h * kernel_w <= ncols) by (nonlinear_arith)
            requires
                rows == n * oh * ow,
                ncols == c * kernel_h * kernel_w,
                rows > 0,
                ncols > 0,
                n >= 0,
                c >= 0,
                oh >= 0,
                ow >= 0,
        ;
        let ohw = oh * ow;
        let kk = kernel_h * kernel_w;
        assert(ohw > 0 && kk > 0 && kernel_w > 0 && ow > 0) by (nonlinear_arith)
            requires
                rows == n * oh * ow,
                ncols == c * kernel_h * kernel_w,
                rows > 0,
                ncols > 0,
                n >= 0,
                c >= 0,
                ohw == oh * ow,
                kk == kernel_h * kernel_w,
        ;
        assert(ohw <= rows && kk <= ncols) by (nonlinear_arith)
            requires
                rows == n * oh * ow,
                ncols == c * kernel_h * kernel_w,
                rows > 0,
                ncols > 0,
                n >= 0,
                c >= 0,
                ohw == oh * ow,
                kk == kernel_h * kernel_w,
        ;
        let mut row: usize = 0;
        while row < rows
            invariant
                0 < ohw <= rows,
                0 < kk <= ncols,
                ohw == oh * ow,
                kk == kernel_h * kernel_w,
                rows == n * oh * ow,
                ncols == c * kernel_h * kernel_w,
                rows * ncols <= usize::MAX,
                row <= rows,
                g == geometry(input.dims(), kernel_h, kernel_w, stride_h, stride_w, pad_h, pad_w),
                g.valid(),
                oh == g.oh(),
                ow == g.ow(),
                rows == g.rows(),
                ncols == g.cols(),
                input.dims() == seq![n, c, h, w],
                data@ == input.elems(),
                data@.len() == n * c * h * w,
                dlen == data@.len(),
                out@.len() == row * ncols,
                forall|q: int|
                    0 <= q < out@.len() ==> #[trigger] out@[q] == g.column_entry(
                        input.elems(),
                        zero,
                        q / (ncols as int),
                        q % (ncols as int),
                    ),
            decreases rows - row,
        {
            proof {
                assert(n * oh * ow == n * (oh * ow)) by (nonlinear_arith);
                lemma_split_index(row as int, ohw as int, n as int);
                lemma_split_index((row % ohw) as int, ow as int, oh as int);
            }
            let ni = row / ohw;
            let ohi = (row % ohw) / ow;
            let owi = row % ow;
            proof {
                // row % ow equals (row % ohw) % ow
                let r = row as int;
                let a = r / (ohw as int);
                let b = r % (ohw as int);
                let bq = b / (ow as int);
                let br = b % (ow as int);
                assert(r == (a * (oh as int) + bq) * (ow as int) + br) by (nonlinear_arith)
                    requires
                        r == a * (ohw as int) + b,
                        b == bq * (ow as int) + br,
                        ohw == oh * ow,
                ;
                lemma_fundamental_div_mod_converse(r, ow as int, a * (oh as int) + bq, br);
            }
            let mut col: usize = 0;
            while col < ncols
                invariant
                    0 < ohw <= rows,
                    0 < kk <= ncols,
                    ohw == oh * ow,
                    kk == kernel_h * kernel_w,
                    rows == n * oh * ow,
                    ncols == c * kernel_h * kernel_w,
                    rows * ncols <= usize::MAX,
                    row < rows,
                    col <= ncols,
                    g == geometry(input.dims(), kernel_h, kernel_w, stride_h, stride_w, pad_h, pad_w),
                    g.valid(),
                    oh == g.oh(),
                    ow == g.ow(),
                    rows == g.rows(),
                    ncols == g.cols(),
                    input.dims() == seq![n, c, h, w],
                    data@ == input.elems(),
                    data@.len() == n * c * h * w,
                dlen == data@.len(),
                    ni == row / ohw,
                    ohi == (row % ohw) / ow,
                    owi == row % ow,
                    ni < n,
                    ohi < oh,
                    owi < ow,
                    out@.len() == row * ncols + col,
                    forall|q: int|
                        0 <= q < out@.len() ==> #[trigger] out@[q] == g.column_entry(
                            input.elems(),
                            zero,
                            q / (ncols as int),
                            q % (ncols as int),
                        ),
                decreases ncols - col,
            {
                proof {
                    assert(c * kernel_h * kernel_w == c * (kernel_h * kernel_w)) by (nonlinear_arith);
                    lemma_split_index(col as int, kk as int, c as int);
                    lemma_split_index((col % kk) as int, kernel_w as int, kernel_h as int);
                    let r = col as int;
                    let a = r / (kk as int);
                    let b = r % (kk as int);
                    let bq = b / (kernel_w as int);
                    let br = b % (kernel_w as int);
                    assert(r == (a * (kernel_h as int) + bq) * (kernel_w as int) + br) by (nonlinear_arith)
                        requires
                            r == a * (kk as int) + b,
                            b == bq * (kernel_w as int) + br,
                            kk == kernel_h * kernel_w,
                    ;
                    lemma_fundamental_div_mod_converse(r, kernel_w as int, a * (kernel_h as int) + bq, br);
                }
                let ci = col / kk;
                let ki = (col % kk) / kernel_w;
                let kj = col % kernel_w;
                proof {
                    lemma_window_inside(h as int, pad_h as int, kernel_h as int, stride_h as int, ohi as int, ki as int);
                    lemma_window_inside(w as int, pad_w as int, kernel_w as int, stride_w as int, owi as int, kj as int);
                }
                let y = ohi * stride_h + ki;
                let x = owi * stride_w + kj;
                let v: T;
                if pad_h <= y && y < h + pad_h && pad_w <= x && x < w + pad_w {
                    proof {
                        lemma_offset4_bound(n as int, c as int, h as int, w as int, ni as int, ci as int,
                            (y - pad_h) as int, (x - pad_w) as int);
                    }
                    let idx = ((ni * c + ci) * h + (y - pad_h)) * w + (x - pad_w);
                    v = data[idx];
                } else {
                    v = zero;
                }
                proof {
                    let q = (row * ncols + col) as int;
                    lemma_fundamental_div_mod_converse(q, ncols as int, row as int, col as int);
                    assert(v == g.column_entry(input.elems(), zero, row as int, col as int));
                    assert(row * ncols + col < rows * ncols) by (nonlinear_arith)
                        requires
                            row < rows,
                            col < ncols,
                    ;
                }
                out.push(v);
                col = col + 1;
            }
            proof {
                assert((row + 1) * ncols == row * ncols + ncols) by (nonlinear_arith);
            }
            row = row + 1;
        }
    }
    proof {
        if !(rows > 0 && ncols > 0) {
            assert(rows * ncols == 0) by (nonlinear_arith)
                requires
                    !(rows > 0 && ncols > 0),
                    rows >= 0,
                    ncols >= 0,
            ;
        }
    }
    let mut shape: Vec<usize> = Vec::new();
    shape.push(rows);
    shape.push(ncols);
    proof {
        lemma_product2(shape@);
    }
    let r = NdArray::from_shape_vec(shape, out);
    match r {
        Some(a) => a,
        None => {
            proof {
                assert(false);
            }
            NdArray::from_shape_vec(Vec::new(), Vec::new()).unwrap()
        },
    }
}

/// The sequence `0, 1, ..., len - 1`, each wrapped in `Some`.
pub open spec fn cell_ids(len: nat) -> Seq<Option<usize>> {
    Seq::new(len, |q: int| Some(q as usize))
}

/// The backward pass of `im2col`: for each entry of the column matrix, in
/// row-major order, the image cell (row-major offset over `(n, c, h, w)` of
/// `input_shape`) that the entry was read from, or `None` for an entry read
/// from the padding. The gradient of an image cell is the sum of the
/// gradients of the entries that name it (see `lemma_fold_is_adjoint`).
pub fn col2im_targets(
    input_shape: &[usize],
    kernel_h: usize,
    kernel_w: usize,
    stride_h: usize,
    stride_w: usize,
    pad_h: usize,
    pad_w: usize,
) -> (targets: Vec<Option<usize>>)
    requires
        input_shape@.len() == 4,
        input_shape@[0] * input_shape@[1] * input_shape@[2] * input_shape@[3] <= usize::MAX,
        geometry(input_shape@, kernel_h, kernel_w, stride_h, stride_w, pad_h, pad_w).valid(),
        input_shape@[0] * geometry(input_shape@, kernel_h, kernel_w, stride_h, stride_w, pad_h, pad_w).oh()
            * geometry(input_shape@, kernel_h, kernel_w, stride_h, stride_w, pad_h, pad_w).ow() <= usize::MAX,
        input_shape@[1] * kernel_h <= usize::MAX,
        input_shape@[1] * kernel_h * kernel_w <= usize::MAX,
        geometry(input_shape@, kernel_h, kernel_w, stride_h, stride_w, pad_h, pad_w).rows()
            * geometry(input_shape@, kernel_h, kernel_w, stride_h, stride_w, pad_h, pad_w).cols() <= usize::MAX,
    ensures
        targets@.len() == geometry(input_shape@, kernel_h, kernel_w, stride_h, stride_w, pad_h, pad_w).rows()
            * geometry(input_shape@, kernel_h, kernel_w, stride_h, stride_w, pad_h, pad_w).cols(),
        forall|t: int|
            0 <= t < targets@.len() ==> #[trigger] targets@[t] == geometry(
                input_shape@,
                kernel_h,
                kernel_w,
                stride_h,
                stride_w,
                pad_h,
                pad_w,
            ).source_cell(t),
        forall|t: int|
            0 <= t < targets@.len() ==> (#[trigger] targets@[t] matches Some(q) ==> q < input_shape@[0]
                * input_shape@[1] * input_shape@[2] * input_shape@[3]),
{
    let ghost g = geometry(input_shape@, kernel_h, kernel_w, stride_h, stride_w, pad_h, pad_w);
    let (d0, d1, d2, d3) = (input_shape[0], input_shape[1], input_shape[2], input_shape[3]);
    let total = if d0 == 0 || d1 == 0 || d2 == 0 || d3 == 0 {
        assert(d0 * d1 * d2 * d3 == 0) by (nonlinear_arith)
            requires
                d0 == 0 || d1 == 0 || d2 == 0 || d3 == 0,
        ;
        0
    } else {
        assert(d0 * d1 <= d0 * d1 * d2 <= d0 * d1 * d2 * d3) by (nonlinear_arith)
            requires
                d0 >= 1,
                d1 >= 1,
                d2 >= 1,
                d3 >= 1,
        ;
        d0 * d1 * d2 * d3
    };
    let mut ids: Vec<Option<usize>> = Vec::new();
    let mut q: usize = 0;
    while q < total
        invariant
            q <= total,
            ids@ == cell_ids(q as nat),
        decreases total - q,
    {
        ids.push(Some(q));
        q = q + 1;
        assert(ids@ =~= cell_ids(q as nat));
    }
    let mut dims: Vec<usize> = Vec::new();
    dims.push(input_shape[0]);
    dims.push(input_shape[1]);
    dims.push(input_shape[2]);
    dims.push(input_shape[3]);
    assert(dims@ =~= input_shape@);
    proof {
        lemma_product4(dims@);
    }
    let image = match NdArray::from_shape_vec(dims, ids) {
        Some(a) => a,
        None => {
            proof {
                assert(false);
            }
            NdArray::from_shape_vec(Vec::new(), Vec::new()).unwrap()
        },
    };
    let cols = im2col(&image, kernel_h, kernel_w, stride_h, stride_w, pad_h, pad_w, None);
    proof {
        lemma_product2(cols.dims());
    }
    let targets = cols.into_data();
    proof {
        assert forall|t: int| 0 <= t < targets@.len() implies #[trigger] targets@[t] == g.source_cell(t) && (
        targets@[t] matches Some(q) ==> q < total) by {
            lemma_source_cell(g, cell_ids(total as nat), None, t);
        }
    }
    targets
}

/// Entry `t` of the column matrix is the image cell that `source_cell`
/// names, or `zero` in the padding; that cell lies inside the image.
pub proof fn lemma_source_cell<T>(g: ConvGeometry, input: Seq<T>, zero: T, t: int)
    requires
        g.valid(),
        g.n * g.c * g.h * g.w <= usize::MAX,
        0 <= t < g.rows() * g.cols(),
    ensures
        g.column_entry(input, zero, t / g.cols(), t % g.cols()) == match g.source_cell(t) {
            Some(q) => input[q as int],
            None => zero,
        },
        g.source_cell(t) matches Some(q) ==> q < g.n * g.c * g.h * g.w,
{
    let oh = g.oh();
    let ow = g.ow();
    let ncols = g.cols();
    assert(ncols > 0 && g.rows() > 0) by (nonlinear_arith)
        requires
            0 <= t < g.rows() * ncols,
            g.rows() >= 0,
            ncols >= 0,
    ;
    let row = t / ncols;
    let col = t % ncols;
    assert(0 <= row < g.rows() && 0 <= col < ncols) by (nonlinear_arith)
        requires
            0 <= t < g.rows() * ncols,
            ncols > 0,
            row == t / ncols,
            col == t % ncols,
    ;
    assert(g.rows() == g.n * (oh * ow)) by (nonlinear_arith)
        requires
            g.rows() == g.n * oh * ow,
    ;
    assert(ncols == g.c * (g.kh * g.kw)) by (nonlinear_arith)
        requires
            ncols == g.c * g.kh * g.kw,
    ;
    let ni = row / (oh * ow);
    let ci = col / (g.kh * g.kw);
    assert(0 <= ni < g.n && 0 <= ci < g.c) by (nonlinear_arith)
        requires
            0 <= row < g.n * (oh * ow),
            0 <= col < g.c * (g.kh * g.kw),
            oh * ow > 0,
            g.kh * g.kw > 0,
            ni == row / (oh * ow),
            ci == col / (g.kh * g.kw),
    ;
    let ohi = (row % (oh * ow)) / ow;
    let owi = row % ow;
    let ki = (col % (g.kh * g.kw)) / (g.kw as int);
    let kj = col % (g.kw as int);
    let y = ohi * g.sh + ki;
    let x = owi * g.sw + kj;
    if g.ph <= y < g.h + g.ph && g.pw <= x < g.w + g.pw {
        lemma_offset4_bound(g.n as int, g.c as int, g.h as int, g.w as int, ni, ci, y - g.ph, x - g.pw);
    }
}

/// The sums that folding the column matrix `c` back onto an image of `len`
/// cells gives, after the first `k` entries: each entry `t` whose target is
/// cell `q` adds `c[t]` to cell `q`; entries read from the padding add
/// nothing.
pub open spec fn scatter_sum(targets: Seq<Option<usize>>, c: Seq<int>, len: nat, k: nat) -> Seq<int>
    decreases k,
{
    if k == 0 {
        Seq::new(len, |q: int| 0int)
    } else {
        let s = scatter_sum(targets, c, len, (k - 1) as nat);
        match targets[k - 1] {
            Some(q) => if q < len {
                s.update(q as int, s[q as int] + c[k - 1])
            } else {
                s
            },
            None => s,
        }
    }
}

/// `a[0] * b[0] + ... + a[k - 1] * b[k - 1]`.
pub open spec fn dot(a: Seq<int>, b: Seq<int>, k: nat) -> int
    decreases k,
{
    if k == 0 {
        0
    } else {
        dot(a, b, (k - 1) as nat) + a[k - 1] * b[k - 1]
    }
}

/// Adding `d` to one entry of `s` adds `x[q] * d` to the dot product.
proof fn lemma_dot_update(x: Seq<int>, s: Seq<int>, q: int, d: int, k: nat)
    requires
        0 <= q,
        q < s.len(),
        k <= s.len(),
    ensures
        dot(x, s.update(q, s[q] + d), k) == dot(x, s, k) + if q < k {
            x[q] * d
        } else {
            0
        },
    decreases k,
{
    if k > 0 {
        lemma_dot_update(x, s, q, d, (k - 1) as nat);
        let i = k - 1;
        if i == q {
            assert(x[i] * (s[i] + d) == x[i] * s[i] + x[i] * d) by (nonlinear_arith);
        }
    }
}

proof fn lemma_scatter_sum_len(targets: Seq<Option<usize>>, c: Seq<int>, len: nat, k: nat)
    ensures
        scatter_sum(targets, c, len, k).len() == len,
    decreases k,
{
    if k > 0 {
        lemma_scatter_sum_len(targets, c, len, (k - 1) as nat);
    }
}

/// Folding back by summing is the adjoint of `im2col`: for every image `x`
/// and column matrix `c` (of integers), the column matrix that `im2col`
/// makes of `x` (padding with `0`) paired with `c` equals `x` paired with
/// the fold of `c`, in which each image cell sums the entries of `c` read
/// from it. So the gradient of an image cell is the sum of the gradients of
/// all patches covering it.
pub proof fn lemma_fold_is_adjoint(g: ConvGeometry, x: Seq<int>, c: Seq<int>)
    requires
        g.valid(),
        g.n * g.c * g.h * g.w <= usize::MAX,
        x.len() == g.n * g.c * g.h * g.w,
        c.len() == g.rows() * g.cols(),
    ensures
        dot(c, Seq::new(c.len(), |t: int| g.column_entry(x, 0int, t / g.cols(), t % g.cols())), c.len())
            == dot(
            x,
            scatter_sum(Seq::new(c.len(), |t: int| g.source_cell(t)), c, x.len(), c.len()),
            x.len(),
        ),
{
    let u = Seq::new(c.len(), |t: int| g.column_entry(x, 0int, t / g.cols(), t % g.cols()));
    let tg = Seq::new(c.len(), |t: int| g.source_cell(t));
    lemma_adjoint_prefix(g, x, c, u, tg, c.len());
}

proof fn lemma_adjoint_prefix(
    g: ConvGeometry,
    x: Seq<int>,
    c: Seq<int>,
    u: Seq<int>,
    tg: Seq<Option<usize>>,
    k: nat,
)
    requires
        g.valid(),
        g.n * g.c * g.h * g.w <= usize::MAX,
        x.len() == g.n * g.c * g.h * g.w,
        c.len() == g.rows() * g.cols(),
        u == Seq::new(c.len(), |t: int| g.column_entry(x, 0int, t / g.cols(), t % g.cols())),
        tg == Seq::new(c.len(), |t: int| g.source_cell(t)),
        k <= c.len(),
    ensures
        dot(c, u, k) == dot(x, scatter_sum(tg, c, x.len(), k), x.len()),
    decreases k,
{
    if k == 0 {
        lemma_dot_zero(x, x.len());
    } else {
        let t = k - 1;
        lemma_adjoint_prefix(g, x, c, u, tg, (k - 1) as nat);
        lemma_source_cell(g, x, 0int, t);
        lemma_scatter_sum_len(tg, c, x.len(), (k - 1) as nat);
        let s = scatter_sum(tg, c, x.len(), (k - 1) as nat);
        match g.source_cell(t) {
            Some(q) => {
                assert(u[t] == x[q as int]);
                lemma_dot_update(x, s, q as int, c[t], x.len());
                assert(c[t] * u[t] == x[q as int] * c[t]) by (nonlinear_arith)
                    requires
                        u[t] == x[q as int],
                ;
            },
            None => {
                assert(u[t] == 0);
                assert(c[t] * u[t] == 0) by (nonlinear_arith)
                    requires
                        u[t] == 0,
                ;
            },
        }
    }
}

/// Pairing with a sequence of zeros gives zero.
proof fn lemma_dot_zero(x: Seq<int>, k: nat)
    requires
        k <= x.len(),
    ensures
        dot(x, Seq::new(x.len(), |q: int| 0int), k) == 0,
    decreases k,
{
    if k > 0 {
        lemma_dot_zero(x, (k - 1) as nat);
        assert(x[k - 1] * 0 == 0) by (nonlinear_arith);
    }
}

/// Column-matrix entry `(row, col)` of patch `(ni, ohi, owi)` and kernel
/// cell `(ci, ki, kj)` reads the input in its row-major `(n, c, h, w)`
/// layout: the element of image `ni`, channel `ci`, at row `y - ph` and
/// column `x - pw`, where `(y, x) = (ohi * sh + ki, owi * sw + kj)` are the
/// padded coordinates, or `zero` when they fall in the padding.
pub proof fn lemma_patch_reads_nchw<T>(
    g: ConvGeometry,
    input: Seq<T>,
    zero: T,
    ni: int,
    ohi: int,
    owi: int,
    ci: int,
    ki: int,
    kj: int,
)
    requires
        g.valid(),
        0 <= ni < g.n,
        0 <= ohi < g.oh(),
        0 <= owi < g.ow(),
        0 <= ci < g.c,
        0 <= ki < g.kh,
        0 <= kj < g.kw,
    ensures
        ({
            let y = ohi * g.sh + ki;
            let x = owi * g.sw + kj;
            g.column_entry(input, zero, (ni * g.oh() + ohi) * g.ow() + owi, (ci * g.kh + ki) * g.kw + kj) == if g.ph
                <= y < g.h + g.ph && g.pw <= x < g.w + g.pw {
                input[((ni * g.c + ci) * g.h + (y - g.ph)) * g.w + (x - g.pw)]
            } else {
                zero
            }
        }),
{
    lemma_column_entry_at(g, input, zero, ni, ohi, owi, ci, ki, kj);
}

/// The same geometry over a batch of a single image.
pub open spec fn single_image(g: ConvGeometry) -> ConvGeometry {
    ConvGeometry { n: 1, ..g }
}

/// Patch extraction treats the images of a batch independently: the patch
/// rows of image `ni` are exactly the patch rows of image `ni` taken alone
/// (the elements `ni * c * h * w .. (ni + 1) * c * h * w` of the batch).
pub proof fn lemma_patches_of_one_image<T>(
    g: ConvGeometry,
    input: Seq<T>,
    zero: T,
    ni: int,
    ohi: int,
    owi: int,
    ci: int,
    ki: int,
    kj: int,
)
    requires
        g.valid(),
        input.len() == g.n * g.c * g.h * g.w,
        0 <= ni < g.n,
        0 <= ohi < g.oh(),
        0 <= owi < g.ow(),
        0 <= ci < g.c,
        0 <= ki < g.kh,
        0 <= kj < g.kw,
    ensures
        g.column_entry(input, zero, (ni * g.oh() + ohi) * g.ow() + owi, (ci * g.kh + ki) * g.kw + kj)
            == single_image(g).column_entry(
            input.subrange(ni * (g.c * g.h * g.w), (ni + 1) * (g.c * g.h * g.w)),
            zero,
            ohi * g.ow() + owi,
            (ci * g.kh + ki) * g.kw + kj,
        ),
{
    let g1 = single_image(g);
    let chw = g.c * g.h * g.w;
    let img = input.subrange(ni * chw, (ni + 1) * chw);
    lemma_patch_reads_nchw(g, input, zero, ni, ohi, owi, ci, ki, kj);
    lemma_patch_reads_nchw(g1, img, zero, 0, ohi, owi, ci, ki, kj);
    assert((0 * g1.oh() + ohi) * g1.ow() + owi == ohi * g.ow() + owi);
    let y = ohi * g.sh + ki;
    let x = owi * g.sw + kj;
    if g.ph <= y < g.h + g.ph && g.pw <= x < g.w + g.pw {
        let yy = y - g.ph;
        let xx = x - g.pw;
        let local = ((0 * g.c + ci) * g.h + yy) * g.w + xx;
        lemma_offset4_bound(1, g.c as int, g.h as int, g.w as int, 0, ci, yy, xx);
        assert(ni * chw + local == ((ni * g.c + ci) * g.h + yy) * g.w + xx) by (nonlinear_arith)
            requires
                chw == g.c * g.h * g.w,
                local == ((0 * g.c + ci) * g.h + yy) * g.w + xx,
        ;
        assert(0 <= ni * chw && (ni + 1) * chw <= input.len()) by (nonlinear_arith)
            requires
                0 <= ni < g.n,
                chw == g.c * g.h * g.w,
                input.len() == g.n * g.c * g.h * g.w,
                g.c >= 0,
                g.h >= 0,
                g.w >= 0,
        ;
        assert(1 * g.c * g.h * g.w == chw) by (nonlinear_arith)
            requires
                chw == g.c * g.h * g.w,
        ;
        assert((ni + 1) * chw - ni * chw == chw) by (nonlinear_arith);
        assert(local == offset4(g.c as int, g.h as int, g.w as int, 0, ci, yy, xx));
        assert(0 <= local < chw);
        assert(img.len() == chw);
        assert(img[local] == input[ni * chw + local]);
    }
}

/// The backward routing reads the same layout: entry `t` of the column
/// matrix, of patch `(ni, ohi, owi)` and kernel cell `(ci, ki, kj)`, sends
/// its gradient to the cell of image `ni`, channel `ci`, at row `y - ph` and
/// column `x - pw` of the row-major `(n, c, h, w)` input, or nowhere when
/// `(y, x)` falls in the padding.
pub proof fn lemma_routing_is_nchw(g: ConvGeometry, ni: int, ohi: int, owi: int, ci: int, ki: int, kj: int)
    requires
        g.valid(),
        g.n * g.c * g.h * g.w <= usize::MAX,
        0 <= ni < g.n,
        0 <= ohi < g.oh(),
        0 <= owi < g.ow(),
        0 <= ci < g.c,
        0 <= ki < g.kh,
        0 <= kj < g.kw,
    ensures
        ({
            let y = ohi * g.sh + ki;
            let x = owi * g.sw + kj;
            let row = (ni * g.oh() + ohi) * g.ow() + owi;
            let col = (ci * g.kh + ki) * g.kw + kj;
            &&& 0 <= row * g.cols() + col < g.rows() * g.cols()
            &&& g.source_cell(row * g.cols() + col) == if g.ph <= y < g.h + g.ph && g.pw <= x < g.w + g.pw {
                Some((((ni * g.c + ci) * g.h + (y - g.ph)) * g.w + (x - g.pw)) as usize)
            } else {
                None::<usize>
            }
        }),
{
    let oh = g.oh();
    let ow = g.ow();
    let kh = g.kh as int;
    let kw = g.kw as int;
    let row = (ni * oh + ohi) * ow + owi;
    let col = (ci * kh + ki) * kw + kj;
    lemma_offset4_bound(g.n as int, oh, ow, 1, ni, ohi, owi, 0);
    lemma_offset4_bound(g.c as int, kh, kw, 1, ci, ki, kj, 0);
    assert(0 <= row < g.rows()) by (nonlinear_arith)
        requires
            row == ((ni * oh + ohi) * ow + owi) * 1 + 0,
            ((ni * oh + ohi) * ow + owi) * 1 + 0 < g.n * oh * ow * 1,
            0 <= ((ni * oh + ohi) * ow + owi) * 1 + 0,
            g.rows() == g.n * oh * ow,
    ;
    assert(0 <= col < g.cols()) by (nonlinear_arith)
        requires
            col == ((ci * kh + ki) * kw + kj) * 1 + 0,
            ((ci * kh + ki) * kw + kj) * 1 + 0 < g.c * kh * kw * 1,
            0 <= ((ci * kh + ki) * kw + kj) * 1 + 0,
            g.cols() == g.c * kh * kw,
    ;
    let t = row * g.cols() + col;
    assert(0 <= t < g.rows() * g.cols()) by (nonlinear_arith)
        requires
            0 <= row < g.rows(),
            0 <= col < g.cols(),
            t == row * g.cols() + col,
    ;
    lemma_fundamental_div_mod_converse(t, g.cols(), row, col);
    let n_cells = (g.n * g.c * g.h * g.w) as nat;
    lemma_source_cell(g, cell_ids(n_cells), None, t);
    lemma_patch_reads_nchw(g, cell_ids(n_cells), None, ni, ohi, owi, ci, ki, kj);
    let y = ohi * g.sh + ki;
    let x = owi * g.sw + kj;
    if g.ph <= y < g.h + g.ph && g.pw <= x < g.w + g.pw {
        lemma_offset4_bound(g.n as int, g.c as int, g.h as int, g.w as int, ni, ci, y - g.ph, x - g.pw);
    }
    match g.source_cell(t) {
        Some(q) => {
            assert(cell_ids(n_cells)[q as int] == Some(q));
        },
        None => {},
    }
}

} // verus!
