use vstd::prelude::*;
use crate::array::{
    lemma_offset4_bound, lemma_product2, lemma_product4, lemma_unflatten4, lemma_unflatten4_grouped, offset4, unflatten4,
    NdArray,
};
use crate::shape::{product, Shape};

verus! {

/// Rectified linear unit activation layer; it has no parameters.
#[derive(Debug, Clone)]
pub struct ReLU;

impl ReLU {
    pub fn new() -> (layer: ReLU)
        ensures
            layer == ReLU,
    {
        ReLU {  }
    }
}

/// Softmax activation layer over the last axis; it has no parameters.
#[derive(Debug, Clone)]
pub struct Softmax;

impl Softmax {
    pub fn new() -> (layer: Softmax)
        ensures
            layer == Softmax,
    {
        Softmax {  }
    }
}

/// Entry point of a model; it records the shape its input is expected to have.
#[derive(Debug, Clone)]
pub struct Input {
    pub shape: Shape,
}

impl Input {
    /// An input layer expecting tensors of shape `shape`, converted as
    /// `Into::into` converts it.
    pub fn new<S>(shape: S) -> (layer: Input) where S: Into<Shape>
        ensures
            call_ensures(<S as Into<Shape>>::into, (shape,), layer.shape),
    {
        Input { shape: shape.into() }
    }

    /// An input layer for a batch of one image with `c` channels of `h` by
    /// `w` pixels, laid out as `(N, C, H, W)`.
    pub fn image(c: usize, h: usize, w: usize) -> (layer: Input)
        ensures
            layer.shape@ == seq![1usize, c, h, w],
    {
        let mut dims: Vec<usize> = Vec::new();
        dims.push(1);
        dims.push(c);
        dims.push(h);
        dims.push(w);
        assert(dims@ =~= seq![1usize, c, h, w]);
        Input { shape: Shape(dims) }
    }
}

/// Reshapes a batch `(N, C, H, W)` into rows `(N, C * H * W)`.
#[derive(Debug, Clone)]
pub struct Flatten;

impl Flatten {
    pub fn new() -> (layer: Flatten)
        ensures
            layer == Flatten,
    {
        Flatten {  }
    }

    /// The forward reshape: the elements stay in place, in row-major order,
    /// and the extents become `(N, C * H * W)`.
    pub fn forward_array<T>(&self, x: NdArray<T>) -> (y: NdArray<T>)
        requires
            x.well_formed(),
            x.dims().len() >= 4,
            x.dims()[1] * x.dims()[2] <= usize::MAX,
            x.dims()[1] * x.dims()[2] * x.dims()[3] <= usize::MAX,
            x.dims()[0] * (x.dims()[1] * x.dims()[2] * x.dims()[3]) == product(x.dims()),
        ensures
            y.well_formed(),
            y.dims() == seq![x.dims()[0], (x.dims()[1] * x.dims()[2] * x.dims()[3]) as usize],
            y.elems() == x.elems(),
    {
        let dims = x.shape();
        let n = dims[0];
        let row = dims[1] * dims[2] * dims[3];
        let mut shape: Vec<usize> = Vec::new();
        shape.push(n);
        shape.push(row);
        proof {
            lemma_product2(shape@);
        }
        let ghost old_elems = x.elems();
        let data = x.into_data();
        match NdArray::from_shape_vec(shape, data) {
            Some(y) => y,
            None => {
                proof {
                    assert(false);
                }
                NdArray::from_shape_vec(Vec::new(), Vec::new()).unwrap()
            },
        }
    }
}

/// The keys of the `kh` by `kw` window of image `ni`, channel `ci`, at
/// output position `(ohi, owi)`, in row-major order over the window.
pub open spec fn pool_window(
    keys: Seq<u32>,
    dims: Seq<usize>,
    kh: int,
    kw: int,
    ni: int,
    ci: int,
    ohi: int,
    owi: int,
) -> Seq<u32> {
    Seq::new(
        (kh * kw) as nat,
        |f: int|
            keys[offset4(dims[1] as int, dims[2] as int, dims[3] as int, ni, ci, ohi * kh + f / kw, owi * kw + f % kw)],
    )
}

/// `m` is where a left-to-right scan of `s` for a strictly greater key,
/// starting from `floor`, settles: the first position of the greatest key
/// when some key exceeds `floor`, and `0` otherwise.
pub open spec fn scan_argmax(s: Seq<u32>, floor: u32, m: int) -> bool {
    ||| {
        &&& 0 <= m < s.len()
        &&& s[m] > floor
        &&& forall|g: int| 0 <= g < s.len() ==> s[g] <= s[m]
        &&& forall|g: int| 0 <= g < m ==> s[g] < s[m]
    }
    ||| {
        &&& m == 0
        &&& forall|g: int| 0 <= g < s.len() ==> s[g] <= floor
    }
}

/// Row `i` of a matrix with `cols` columns whose elements are `elems` in
/// row-major order.
pub open spec fn matrix_row(elems: Seq<u32>, cols: int, i: int) -> Seq<u32> {
    elems.subrange(i * cols, i * cols + cols)
}

/// Entry `(i, j)` of a matrix with `cols` columns whose elements are
/// `elems` in row-major order.
pub open spec fn key_at(elems: Seq<u32>, cols: int, i: int, j: int) -> u32 {
    elems[i * cols + j]
}

/// Row `i` holds the `cols` entries `(i, 0), ..., (i, cols - 1)` of the
/// matrix, in order.
pub proof fn lemma_matrix_row(elems: Seq<u32>, cols: int, i: int)
    requires
        0 <= i,
        0 <= cols,
        (i + 1) * cols <= elems.len(),
    ensures
        matrix_row(elems, cols, i).len() == cols,
        forall|j: int| 0 <= j < cols ==> #[trigger] matrix_row(elems, cols, i)[j] == key_at(elems, cols, i, j),
{
    assert(0 <= i * cols && i * cols + cols == (i + 1) * cols) by (nonlinear_arith)
        requires
            0 <= i,
            0 <= cols,
    ;
}

/// The predicted class of each row of a matrix of scores, ranked by `keys`:
/// the position where a left-to-right scan of the row for a strictly greater
/// key, starting from `floor`, settles, that is, the first position of the
/// row's greatest key, or `0` when no key of the row exceeds `floor`.
pub fn argmax_rows(keys: &NdArray<u32>, floor: u32) -> (r: Vec<usize>)
    requires
        keys.well_formed(),
        keys.dims().len() == 2,
    ensures
        r@.len() == keys.dims()[0],
        forall|i: int|
            0 <= i < r@.len() ==> scan_argmax(
                matrix_row(keys.elems(), keys.dims()[1] as int, i),
                floor,
                #[trigger] r@[i] as int,
            ),
        forall|i: int|
            0 <= i < r@.len() ==> {
                let cols = keys.dims()[1] as int;
                let m = #[trigger] r@[i] as int;
                ||| {
                    &&& m < cols
                    &&& key_at(keys.elems(), cols, i, m) > floor
                    &&& forall|j: int|
                        0 <= j < cols ==> #[trigger] key_at(keys.elems(), cols, i, j) <= key_at(
                            keys.elems(),
                            cols,
                            i,
                            m,
                        )
                    &&& forall|j: int|
                        0 <= j < m ==> #[trigger] key_at(keys.elems(), cols, i, j) < key_at(keys.elems(), cols, i, m)
                }
                ||| {
                    &&& m == 0
                    &&& forall|j: int| 0 <= j < cols ==> #[trigger] key_at(keys.elems(), cols, i, j) <= floor
                }
            },
{
    let dims = keys.shape();
    let rows = dims[0];
    let cols = dims[1];
    let kdata = keys.data();
    let total = kdata.len();
    proof {
        lemma_product2(keys.dims());
    }
    let mut out: Vec<usize> = Vec::new();
    let mut i: usize = 0;
    while i < rows
        invariant
            keys.dims().len() == 2,
            rows == keys.dims()[0],
            cols == keys.dims()[1],
            kdata@ == keys.elems(),
            kdata@.len() == rows * cols,
            total == kdata@.len(),
            i <= rows,
            out@.len() == i,
            forall|q: int|
                0 <= q < i ==> scan_argmax(matrix_row(kdata@, cols as int, q), floor, #[trigger] out@[q] as int),
        decreases rows - i,
    {
        assert(i * cols + cols <= rows * cols) by (nonlinear_arith)
            requires
                i < rows,
        ;
        assert(i * cols <= total);
        let base = i * cols;
        let ghost s = matrix_row(kdata@, cols as int, i as int);
        let mut best_key: u32 = floor;
        let mut best_idx: usize = 0;
        let mut j: usize = 0;
        while j < cols
            invariant
                base == i * cols,
                base + cols <= kdata@.len(),
                total == kdata@.len(),
                s == kdata@.subrange(base as int, base + cols),
                j <= cols,
                best_key > floor ==> {
                    &&& best_idx < j
                    &&& s[best_idx as int] == best_key
                    &&& forall|g: int| 0 <= g < j ==> s[g] <= best_key
                    &&& forall|g: int| 0 <= g < best_idx ==> s[g] < best_key
                },
                best_key <= floor ==> {
                    &&& best_key == floor
                    &&& best_idx == 0
                    &&& forall|g: int| 0 <= g < j ==> s[g] <= floor
                },
            decreases cols - j,
        {
            let key = kdata[base + j];
            assert(key == s[j as int]);
            if key > best_key {
                best_key = key;
                best_idx = j;
            }
            j = j + 1;
        }
        assert(s.len() == cols);
        assert(scan_argmax(s, floor, best_idx as int));
        out.push(best_idx);
        i = i + 1;
    }
    proof {
        assert forall|i: int| 0 <= i < out@.len() implies {
            let cols = keys.dims()[1] as int;
            let m = #[trigger] out@[i] as int;
            ||| {
                &&& m < cols
                &&& key_at(keys.elems(), cols, i, m) > floor
                &&& forall|j: int|
                    0 <= j < cols ==> #[trigger] key_at(keys.elems(), cols, i, j) <= key_at(keys.elems(), cols, i, m)
                &&& forall|j: int|
                    0 <= j < m ==> #[trigger] key_at(keys.elems(), cols, i, j) < key_at(keys.elems(), cols, i, m)
            }
            ||| {
                &&& m == 0
                &&& forall|j: int| 0 <= j < cols ==> #[trigger] key_at(keys.elems(), cols, i, j) <= floor
            }
        } by {
            assert((i + 1) * cols <= rows * cols) by (nonlinear_arith)
                requires
                    0 <= i < rows,
                    cols >= 0,
            ;
            lemma_matrix_row(keys.elems(), cols as int, i);
            let row = matrix_row(keys.elems(), cols as int, i);
            let m = out@[i] as int;
            let e = keys.elems();
            let ci = cols as int;
            assert(scan_argmax(row, floor, m));
            if 0 <= m < row.len() && row[m] > floor && (forall|g: int| 0 <= g < row.len() ==> row[g] <= row[m])
                && (forall|g: int| 0 <= g < m ==> row[g] < row[m]) {
                assert(row[m] == key_at(e, ci, i, m));
                assert forall|j: int| 0 <= j < ci implies #[trigger] key_at(e, ci, i, j) <= key_at(e, ci, i, m) by {
                    assert(row[j] == key_at(e, ci, i, j));
                    assert(row[j] <= row[m]);
                }
                assert forall|j: int| 0 <= j < m implies #[trigger] key_at(e, ci, i, j) < key_at(e, ci, i, m) by {
                    assert(row[j] == key_at(e, ci, i, j));
                    assert(row[j] < row[m]);
                }
            } else {
                assert(m == 0);
                assert forall|j: int| 0 <= j < ci implies #[trigger] key_at(e, ci, i, j) <= floor by {
                    assert(row[j] == key_at(e, ci, i, j));
                    assert(row[j] <= floor);
                }
            }
        }
    }
    out
}

/// Down-samples each `(N, C)` plane by keeping the greatest value of every
/// non-overlapping `kernel_h` by `kernel_w` window.
#[derive(Debug)]
pub struct MaxPool2D {
    pub kernel_size: (usize, usize),
    input_shape: Option<Shape>,
    max_indices: Option<NdArray<usize>>,
}

impl Clone for MaxPool2D {
    fn clone(&self) -> (r: MaxPool2D)
        ensures
            r.kernel() == self.kernel(),
    {
        let (kh, kw) = self.kernel_size;
        MaxPool2D {
            kernel_size: (kh, kw),
            input_shape: self.input_shape.clone(),
            max_indices: self.max_indices.clone(),
        }
    }
}

impl MaxPool2D {
    /// The window extents `(height, width)`.
    pub closed spec fn kernel(&self) -> (usize, usize) {
        self.kernel_size
    }

    pub fn new(kernel_size: (usize, usize)) -> (layer: MaxPool2D)
        ensures
            layer.kernel() == kernel_size,
    {
        MaxPool2D { kernel_size, input_shape: None, max_indices: None }
    }

    /// Pools `input`, whose elements are ranked by `keys`: a value wins its
    /// window when its key is strictly greater than the best key seen so far,
    /// scanning the window in row-major order from `(init, init_key)`.
    /// Returns the pooled values, of extents `(N, C, H / kernel_h, W /
    /// kernel_w)`, and for each the position inside its window of the value
    /// kept (`0` when no key exceeds `init_key`, the value then being
    /// `init`).
    pub fn max_pool_forward<T: Copy>(
        &mut self,
        input: &NdArray<T>,
        keys: &NdArray<u32>,
        init: T,
        init_key: u32,
        kernel_h: usize,
        kernel_w: usize,
    ) -> (r: (NdArray<T>, NdArray<usize>))
        requires
            input.well_formed(),
            keys.well_formed(),
            input.dims().len() == 4,
            keys.dims() == input.dims(),
            kernel_h > 0,
            kernel_w > 0,
            kernel_h * kernel_w <= usize::MAX,
        ensures
            *final(self) == *old(self),
            r.0.well_formed(),
            r.1.well_formed(),
            r.0.dims() == seq![
                input.dims()[0],
                input.dims()[1],
                (input.dims()[2] / kernel_h) as usize,
                (input.dims()[3] / kernel_w) as usize,
            ],
            r.1.dims() == r.0.dims(),
            forall|p: int|
                0 <= p < r.0.elems().len() ==> {
                    let (ni, ci, ohi, owi) = unflatten4(
                        input.dims()[1] as int,
                        (input.dims()[2] / kernel_h) as int,
                        (input.dims()[3] / kernel_w) as int,
                        p,
                    );
                    let s = pool_window(
                        keys.elems(),
                        input.dims(),
                        kernel_h as int,
                        kernel_w as int,
                        ni,
                        ci,
                        ohi,
                        owi,
                    );
                    let m = #[trigger] r.1.elems()[p];
                    &&& scan_argmax(s, init_key, m as int)
                    &&& m < kernel_h * kernel_w
                    &&& r.0.elems()[p] == if s[m as int] > init_key {
                        input.elems()[offset4(
                            input.dims()[1] as int,
                            input.dims()[2] as int,
                            input.dims()[3] as int,
                            ni,
                            ci,
                            ohi * kernel_h + m / kernel_w,
                            owi * kernel_w + m % kernel_w,
                        )]
                    } else {
                        init
                    }
                },
    {
        let dims = input.shape();
        let n = dims[0];
        let c = dims[1];
        let h = dims[2];
        let w = dims[3];
        let oh = h / kernel_h;
        let ow = w / kernel_w;
        let data = input.data();
        let kdata = keys.data();
        let dlen = data.len();
        proof {
            lemma_product4(input.dims());
            assert(oh <= h && ow <= w && oh * kernel_h <= h && ow * kernel_w <= w) by (nonlinear_arith)
                requires
                    oh == h / kernel_h,
                    ow == w / kernel_w,
                    kernel_h > 0,
                    kernel_w > 0,
            ;
        }
        let total = if n == 0 || c == 0 || oh == 0 || ow == 0 {
            proof {
                assert(n * c * oh * ow == 0) by (nonlinear_arith)
                    requires
                        n == 0 || c == 0 || oh == 0 || ow == 0,
                ;
            }
            0
        } else {
            proof {
                assert(n * c <= n * c * oh && n * c * oh <= n * c * oh * ow && n * c * oh * ow <= n * c * h * w)
                    by (nonlinear_arith)
                    requires
                        n >= 1,
                        c >= 1,
                        oh >= 1,
                        ow >= 1,
                        oh <= h,
                        ow <= w,
                ;
            }
            n * c * oh * ow
        };
        let kk = kernel_h * kernel_w;
        assert(kk > 0) by (nonlinear_arith)
            requires
                kk == kernel_h * kernel_w,
                kernel_h > 0,
                kernel_w > 0,
        ;
        let mut values: Vec<T> = Vec::new();
        let mut indices: Vec<usize> = Vec::new();
        let mut p: usize = 0;
        while p < total
            invariant
                input.dims() == seq![n, c, h, w],
                keys.dims() == seq![n, c, h, w],
                data@ == input.elems(),
                kdata@ == keys.elems(),
                data@.len() == n * c * h * w,
                kdata@.len() == n * c * h * w,
                dlen == data@.len(),
                kernel_h > 0,
                kernel_w > 0,
                kk == kernel_h * kernel_w,
                kk > 0,
                oh == h / kernel_h,
                ow == w / kernel_w,
                oh * kernel_h <= h,
                ow * kernel_w <= w,
                total == n * c * oh * ow,
                p <= total,
                values@.len() == p,
                indices@.len() == p,
                forall|q: int|
                    0 <= q < p ==> {
                        let (ni, ci, ohi, owi) = unflatten4(c as int, oh as int, ow as int, q);
                        let s = pool_window(kdata@, input.dims(), kernel_h as int, kernel_w as int, ni, ci, ohi, owi);
                        let m = #[trigger] indices@[q];
                        &&& scan_argmax(s, init_key, m as int)
                        &&& m < kernel_h * kernel_w
                        &&& values@[q] == if s[m as int] > init_key {
                            data@[offset4(
                                c as int,
                                h as int,
                                w as int,
                                ni,
                                ci,
                                ohi * kernel_h + m / kernel_w,
                                owi * kernel_w + m % kernel_w,
                            )]
                        } else {
                            init
                        }
                    },
            decreases total - p,
        {
            proof {
                lemma_unflatten4(n as int, c as int, oh as int, ow as int, p as int);
            }
            let ghost coords = unflatten4(c as int, oh as int, ow as int, p as int);
            assert(oh * ow <= c * (oh * ow) && c * (oh * ow) <= total && oh * ow > 0 && c * (oh * ow) > 0) by (nonlinear_arith)
                requires
                    p < total,
                    total == n * c * oh * ow,
                    n >= 0,
                    c >= 0,
                    oh >= 0,
                    ow >= 0,
            ;
            let ohw = oh * ow;
            let cohw = c * ohw;
            let ni = p / cohw;
            let ci = (p % cohw) / ohw;
            let ohi = ((p % cohw) % ohw) / ow;
            let owi = ((p % cohw) % ohw) % ow;
            proof {
                lemma_unflatten4_grouped(c as int, oh as int, ow as int, p as int);
            }
            assert(coords == (ni as int, ci as int, ohi as int, owi as int));
            let ghost s = pool_window(kdata@, input.dims(), kernel_h as int, kernel_w as int, ni as int, ci as int,
                ohi as int, owi as int);
            let mut best_key: u32 = init_key;
            let mut best_idx: usize = 0;
            let mut best_val: T = init;
            let mut f: usize = 0;
            while f < kk
                invariant
                    input.dims() == seq![n, c, h, w],
                    data@ == input.elems(),
                    data@.len() == n * c * h * w,
                    kdata@.len() == n * c * h * w,
                    dlen == data@.len(),
                    kernel_h > 0,
                    kernel_w > 0,
                    kk == kernel_h * kernel_w,
                    ni < n,
                    ci < c,
                    ohi < oh,
                    owi < ow,
                    oh * kernel_h <= h,
                    ow * kernel_w <= w,
                    s == pool_window(kdata@, input.dims(), kernel_h as int, kernel_w as int, ni as int, ci as int,
                        ohi as int, owi as int),
                    f <= kk,
                    best_key > init_key ==> {
                        &&& best_idx < f
                        &&& s[best_idx as int] == best_key
                        &&& forall|g: int| 0 <= g < f ==> s[g] <= best_key
                        &&& forall|g: int| 0 <= g < best_idx ==> s[g] < best_key
                        &&& best_val == data@[offset4(
                            c as int,
                            h as int,
                            w as int,
                            ni as int,
                            ci as int,
                            ohi * kernel_h + best_idx / kernel_w,
                            owi * kernel_w + best_idx % kernel_w,
                        )]
                    },
                    best_key <= init_key ==> {
                        &&& best_key == init_key
                        &&& best_idx == 0
                        &&& best_val == init
                        &&& forall|g: int| 0 <= g < f ==> s[g] <= init_key
                    },
                decreases kk - f,
            {
                let ki = f / kernel_w;
                let kj = f % kernel_w;
                proof {
                    crate::array::lemma_split_index(f as int, kernel_w as int, kernel_h as int);
                    assert(ohi * kernel_h + ki < h) by (nonlinear_arith)
                        requires
                            ohi < oh,
                            ki < kernel_h,
                            oh * kernel_h <= h,
                    ;
                    assert(owi * kernel_w + kj < w) by (nonlinear_arith)
                        requires
                            owi < ow,
                            kj < kernel_w,
                            ow * kernel_w <= w,
                    ;
                    lemma_offset4_bound(n as int, c as int, h as int, w as int, ni as int, ci as int,
                        (ohi * kernel_h + ki) as int, (owi * kernel_w + kj) as int);
                }
                let y = ohi * kernel_h + ki;
                let x = owi * kernel_w + kj;
                let idx = ((ni * c + ci) * h + y) * w + x;
                let key = kdata[idx];
                assert(key == s[f as int]);
                if key > best_key {
                    best_key = key;
                    best_idx = f;
                    best_val = data[idx];
                }
                f = f + 1;
            }
            assert(s.len() == kk);
            assert(scan_argmax(s, init_key, best_idx as int));
            let ghost old_values = values@;
            let ghost old_indices = indices@;
            values.push(best_val);
            indices.push(best_idx);
            proof {
                assert forall|q: int|
                    0 <= q < p + 1 implies {
                        let (ni, ci, ohi, owi) = unflatten4(c as int, oh as int, ow as int, q);
                        let s = pool_window(kdata@, input.dims(), kernel_h as int, kernel_w as int, ni, ci, ohi, owi);
                        let m = #[trigger] indices@[q];
                        &&& scan_argmax(s, init_key, m as int)
                        &&& m < kernel_h * kernel_w
                        &&& values@[q] == if s[m as int] > init_key {
                            data@[offset4(
                                c as int,
                                h as int,
                                w as int,
                                ni,
                                ci,
                                ohi * kernel_h + m / kernel_w,
                                owi * kernel_w + m % kernel_w,
                            )]
                        } else {
                            init
                        }
                    } by {
                    if q < p {
                        assert(indices@[q] == old_indices[q]);
                        assert(values@[q] == old_values[q]);
                    } else {
                        assert(q == p);
                        assert(indices@[q] == best_idx);
                        assert(values@[q] == best_val);
                        assert(unflatten4(c as int, oh as int, ow as int, q) == (ni as int, ci as int, ohi as int, owi as int));
                        if best_key <= init_key {
                            assert(s[0] <= init_key);
                        }
                    }
                }
            }
            p = p + 1;
        }
        let mut shape: Vec<usize> = Vec::new();
        shape.push(n);
        shape.push(c);
        shape.push(oh);
        shape.push(ow);
        proof {
            lemma_product4(shape@);
        }
        let shape2 = shape.clone();
        assert(shape2@ == shape@);
        let ghost vals = values@;
        let ghost idxs = indices@;
        let v = NdArray::from_shape_vec(shape, values);
        let i = NdArray::from_shape_vec(shape2, indices);
        match (v, i) {
            (Some(v), Some(i)) => (v, i),
            _ => {
                proof {
                    assert(false);
                }
                (NdArray::from_shape_vec(Vec::new(), Vec::new()).unwrap(), NdArray::from_shape_vec(Vec::new(), Vec::new()).unwrap())
            },
        }
    }
}

/// Where, in an input of extents `(n, c, h, w)`, the value kept for output
/// position `p` of a pooling with `kh` by `kw` windows and window positions
/// `max_indices` (of extents `mdims`) was taken from.
pub open spec fn pool_source(
    input_shape: Seq<usize>,
    max_indices: Seq<usize>,
    mdims: Seq<usize>,
    kh: int,
    kw: int,
    p: int,
) -> (int, int, int, int) {
    let c = input_shape[1] as int;
    let oh = mdims[2] as int;
    let ow = mdims[3] as int;
    let (ni, ci, ohi, owi) = unflatten4(c, oh, ow, p);
    let f = max_indices[offset4(mdims[1] as int, oh, ow, ni, ci, ohi, owi)] as int;
    (ni, ci, ohi * kh + f / kw, owi * kw + f % kw)
}

/// The backward pass of max pooling sends the gradient of each output to
/// the input cell whose value the forward pass kept for it: the cell at
/// window position `m` of the window of output `(ni, ci, ohi, owi)`. Stated
/// over the window positions `indices` of extents `mdims` that
/// `max_pool_forward` returns.
pub proof fn lemma_pool_routes_to_kept(
    input_shape: Seq<usize>,
    kernel_h: usize,
    kernel_w: usize,
    indices: Seq<usize>,
    mdims: Seq<usize>,
    p: int,
)
    requires
        input_shape.len() == 4,
        kernel_h > 0,
        kernel_w > 0,
        mdims == seq![
            input_shape[0],
            input_shape[1],
            (input_shape[2] / kernel_h) as usize,
            (input_shape[3] / kernel_w) as usize,
        ],
        0 <= p < input_shape[0] * input_shape[1] * mdims[2] * mdims[3],
    ensures
        ({
            let (ni, ci, ohi, owi) = unflatten4(input_shape[1] as int, mdims[2] as int, mdims[3] as int, p);
            let m = indices[p] as int;
            pool_source(input_shape, indices, mdims, kernel_h as int, kernel_w as int, p) == (
                ni,
                ci,
                ohi * kernel_h + m / (kernel_w as int),
                owi * kernel_w + m % (kernel_w as int),
            )
        }),
{
    lemma_unflatten4(input_shape[0] as int, input_shape[1] as int, mdims[2] as int, mdims[3] as int, p);
}

/// Every window position in `max_indices` points inside the input of
/// extents `input_shape`, for `kh` by `kw` windows.
pub open spec fn pool_sources_inside(
    input_shape: Seq<usize>,
    max_indices: Seq<usize>,
    mdims: Seq<usize>,
    kh: int,
    kw: int,
) -> bool {
    forall|p: int|
        0 <= p < input_shape[0] * input_shape[1] * mdims[2] * mdims[3] ==> {
            let (ni, ci, y, x) = #[trigger] pool_source(input_shape, max_indices, mdims, kh, kw, p);
            y < input_shape[2] && x < input_shape[3]
        }
}

/// The backward pass of max pooling accepts every set of window positions
/// that the forward pass can return (each below `kernel_h * kernel_w`), so
/// `max_pool_grad_targets` gives `Some` for them.
pub proof fn lemma_pool_sources_inside(
    input_shape: Seq<usize>,
    kernel_h: usize,
    kernel_w: usize,
    indices: Seq<usize>,
    mdims: Seq<usize>,
)
    requires
        input_shape.len() == 4,
        kernel_h > 0,
        kernel_w > 0,
        mdims == seq![
            input_shape[0],
            input_shape[1],
            (input_shape[2] / kernel_h) as usize,
            (input_shape[3] / kernel_w) as usize,
        ],
        forall|p: int|
            0 <= p < input_shape[0] * input_shape[1] * mdims[2] * mdims[3] ==> #[trigger] indices[p] < kernel_h
                * kernel_w,
    ensures
        pool_sources_inside(input_shape, indices, mdims, kernel_h as int, kernel_w as int),
{
    let total = input_shape[0] * input_shape[1] * mdims[2] * mdims[3];
    let h = input_shape[2] as int;
    let w = input_shape[3] as int;
    let oh = mdims[2] as int;
    let ow = mdims[3] as int;
    let kh = kernel_h as int;
    let kw = kernel_w as int;
    assert(oh * kh <= h && ow * kw <= w) by (nonlinear_arith)
        requires
            oh == h / kh,
            ow == w / kw,
            kh > 0,
            kw > 0,
            h >= 0,
            w >= 0,
    ;
    assert forall|p: int| 0 <= p < total implies {
        let (ni, ci, y, x) = #[trigger] pool_source(input_shape, indices, mdims, kh, kw, p);
        y < input_shape[2] && x < input_shape[3]
    } by {
        lemma_pool_routes_to_kept(input_shape, kernel_h, kernel_w, indices, mdims, p);
        lemma_unflatten4(input_shape[0] as int, input_shape[1] as int, oh, ow, p);
        let (ni, ci, ohi, owi) = unflatten4(input_shape[1] as int, oh, ow, p);
        let m = indices[p] as int;
        assert(m < kh * kw);
        assert(ohi * kh + m / kw < h && owi * kw + m % kw < w) by (nonlinear_arith)
            requires
                0 <= ohi < oh,
                0 <= owi < ow,
                0 <= m < kh * kw,
                oh * kh <= h,
                ow * kw <= w,
                kh > 0,
                kw > 0,
        ;
    }
}

/// For the backward pass of a max pooling with `kernel_h` by `kernel_w`
/// windows over an input of shape `input_shape`: the row-major offset in the
/// input gradient that receives the gradient of each output position
/// `(ni, ci, ohi, owi)`, in row-major order over `(n, c, oh, ow)`, where
/// `(oh, ow)` are the last two extents of `max_indices`: the cell at window
/// position `m = max_indices[ni, ci, ohi, owi]`, that is, row
/// `ohi * kernel_h + m / kernel_w` and column `owi * kernel_w + m % kernel_w`.
/// `None` when a window position points outside the input.
pub fn max_pool_grad_targets(
    input_shape: &Shape,
    max_indices: &NdArray<usize>,
    kernel_h: usize,
    kernel_w: usize,
) -> (r: Option<Vec<usize>>)
    requires
        max_indices.well_formed(),
        input_shape@.len() == 4,
        max_indices.dims().len() == 4,
        kernel_h > 0,
        kernel_w > 0,
        input_shape@[0] <= max_indices.dims()[0],
        input_shape@[1] <= max_indices.dims()[1],
        input_shape@[0] * input_shape@[1] * input_shape@[2] * input_shape@[3] <= usize::MAX,
    ensures
        r is Some <==> pool_sources_inside(
            input_shape@,
            max_indices.elems(),
            max_indices.dims(),
            kernel_h as int,
            kernel_w as int,
        ),
        r matches Some(targets) ==> {
            &&& targets@.len() == input_shape@[0] * input_shape@[1] * max_indices.dims()[2] * max_indices.dims()[3]
            &&& forall|p: int|
                0 <= p < targets@.len() ==> {
                    let (ni, ci, y, x) = pool_source(
                        input_shape@,
                        max_indices.elems(),
                        max_indices.dims(),
                        kernel_h as int,
                        kernel_w as int,
                        p,
                    );
                    #[trigger] targets@[p] == offset4(
                        input_shape@[1] as int,
                        input_shape@[2] as int,
                        input_shape@[3] as int,
                        ni,
                        ci,
                        y,
                        x,
                    )
                }
        },
{
    let n = input_shape.0[0];
    let c = input_shape.0[1];
    let h = input_shape.0[2];
    let w = input_shape.0[3];
    let md = max_indices.shape();
    let m0 = md[0];
    let m1 = md[1];
    let oh = md[2];
    let ow = md[3];
    let mdata = max_indices.data();
    let mlen = mdata.len();
    proof {
        lemma_product4(max_indices.dims());
    }
    let total = if n == 0 || c == 0 || oh == 0 || ow == 0 {
        proof {
            assert(n * c * oh * ow == 0) by (nonlinear_arith)
                requires
                    n == 0 || c == 0 || oh == 0 || ow == 0,
            ;
        }
        0
    } else {
        proof {
            assert(n * c <= n * c * oh && n * c * oh <= n * c * oh * ow && n * c * oh * ow <= m0 * m1 * oh * ow)
                by (nonlinear_arith)
                requires
                    1 <= n <= m0,
                    1 <= c <= m1,
                    oh >= 1,
                    ow >= 1,
            ;
        }
        n * c * oh * ow
    };
    let ghost kh = kernel_h as int;
    let ghost kw = kernel_w as int;
    let mut targets: Vec<usize> = Vec::new();
    let mut p: usize = 0;
    while p < total
        invariant
            input_shape@ == seq![n, c, h, w],
            max_indices.dims() == seq![m0, m1, oh, ow],
            mdata@ == max_indices.elems(),
            mdata@.len() == m0 * m1 * oh * ow,
            mlen == mdata@.len(),
            n <= m0,
            c <= m1,
            kernel_h > 0,
            kernel_w > 0,
            kh == kernel_h,
            kw == kernel_w,
            n * c * h * w <= usize::MAX,
            total == n * c * oh * ow,
            p <= total,
            targets@.len() == p,
            forall|q: int|
                0 <= q < p ==> {
                    let (ni, ci, y, x) = #[trigger] pool_source(
                        input_shape@,
                        max_indices.elems(),
                        max_indices.dims(),
                        kh,
                        kw,
                        q,
                    );
                    &&& y < h
                    &&& x < w
                    &&& targets@[q] == offset4(c as int, h as int, w as int, ni, ci, y, x)
                },
        decreases total - p,
    {
        proof {
            lemma_unflatten4(n as int, c as int, oh as int, ow as int, p as int);
        }
        let ghost coords = unflatten4(c as int, oh as int, ow as int, p as int);
        assert(oh * ow <= c * (oh * ow) && c * (oh * ow) <= total && oh * ow > 0 && c * (oh * ow) > 0) by (nonlinear_arith)
            requires
                p < total,
                total == n * c * oh * ow,
                n >= 0,
                c >= 0,
                oh >= 0,
                ow >= 0,
        ;
        let ohw = oh * ow;
        let cohw = c * ohw;
        let ni = p / cohw;
        let ci = (p % cohw) / ohw;
        let ohi = ((p % cohw) % ohw) / ow;
        let owi = ((p % cohw) % ohw) % ow;
        proof {
            lemma_unflatten4_grouped(c as int, oh as int, ow as int, p as int);
        }
        assert(coords == (ni as int, ci as int, ohi as int, owi as int));
        proof {
            lemma_offset4_bound(m0 as int, m1 as int, oh as int, ow as int, ni as int, ci as int, ohi as int, owi as int);
        }
        let f = mdata[((ni * m1 + ci) * oh + ohi) * ow + owi];
        let ghost src = pool_source(input_shape@, max_indices.elems(), max_indices.dims(), kh, kw, p as int);
        assert(src == (ni as int, ci as int, ohi * kh + (f as int) / kw, owi * kw + (f as int) % kw));
        let y = match ohi.checked_mul(kernel_h) {
            Some(base) => match base.checked_add(f / kernel_w) {
                Some(y) => y,
                None => {
                    return None;
                },
            },
            None => {
                proof {
                    assert(ohi * kh + (f as int) / kw >= ohi * kh) by (nonlinear_arith)
                        requires
                            f >= 0,
                            kw > 0,
                    ;
                }
                return None;
            },
        };
        let x = match owi.checked_mul(kernel_w) {
            Some(base) => match base.checked_add(f % kernel_w) {
                Some(x) => x,
                None => {
                    return None;
                },
            },
            None => {
                proof {
                    assert(owi * kw + (f as int) % kw >= owi * kw) by (nonlinear_arith)
                        requires
                            f >= 0,
                            kw > 0,
                    ;
                }
                return None;
            },
        };
        if y >= h || x >= w {
            return None;
        }
        proof {
            lemma_offset4_bound(n as int, c as int, h as int, w as int, ni as int, ci as int, y as int, x as int);
        }
        let t = ((ni * c + ci) * h + y) * w + x;
        targets.push(t);
        p = p + 1;
    }
    Some(targets)
}

} // verus!
