use vstd::prelude::*;
use vstd::arithmetic::div_mod::{lemma_div_pos_is_pos, lemma_fundamental_div_mod, lemma_mod_pos_bound};
use crate::shape::{lemma_product_first, lemma_product_prefix_le, lemma_product_zero, product};

verus! {

/// Row-major offset of `(i0, i1, i2, i3)` in a four-dimensional layout whose
/// trailing extents are `d1`, `d2` and `d3`.
pub open spec fn offset4(d1: int, d2: int, d3: int, i0: int, i1: int, i2: int, i3: int) -> int {
    ((i0 * d1 + i1) * d2 + i2) * d3 + i3
}

/// The product of a four-dimensional shape.
pub proof fn lemma_product4(dims: Seq<usize>)
    requires
        dims.len() == 4,
    ensures
        product(dims) == (dims[0] as nat) * (dims[1] as nat) * (dims[2] as nat) * (dims[3] as nat),
{
    let d3 = dims.drop_last();
    let d2 = d3.drop_last();
    let d1 = d2.drop_last();
    let d0 = d1.drop_last();
    assert(d0.len() == 0);
    assert(product(d0) == 1);
    assert(d1.last() == dims[0]);
    assert(product(d1) == 1 * (dims[0] as nat));
    assert(d2.last() == dims[1]);
    assert(d3.last() == dims[2]);
    assert(product(d2) == product(d1) * (dims[1] as nat));
    assert(product(d3) == product(d2) * (dims[2] as nat));
    assert(product(dims) == product(d3) * (dims[3] as nat));
}

/// The product of a two-dimensional shape.
pub proof fn lemma_product2(dims: Seq<usize>)
    requires
        dims.len() == 2,
    ensures
        product(dims) == (dims[0] as nat) * (dims[1] as nat),
{
    let d1 = dims.drop_last();
    let d0 = d1.drop_last();
    assert(d0.len() == 0);
    assert(product(d0) == 1);
    assert(d1.last() == dims[0]);
    assert(product(d1) == 1 * (dims[0] as nat));
}

/// The product of a one-dimensional shape.
pub proof fn lemma_product1(dims: Seq<usize>)
    requires
        dims.len() == 1,
    ensures
        product(dims) == dims[0] as nat,
{
    let d0 = dims.drop_last();
    assert(d0.len() == 0);
    assert(product(d0) == 1);
    assert(product(dims) == 1 * (dims[0] as nat));
}

/// A four-dimensional index inside its extents has an offset inside the
/// product of the extents.
pub proof fn lemma_offset4_bound(
    d0: int,
    d1: int,
    d2: int,
    d3: int,
    i0: int,
    i1: int,
    i2: int,
    i3: int,
)
    requires
        0 <= i0 < d0,
        0 <= i1 < d1,
        0 <= i2 < d2,
        0 <= i3 < d3,
    ensures
        0 <= offset4(d1, d2, d3, i0, i1, i2, i3) < d0 * d1 * d2 * d3,
        0 <= i0 * d1 + i1 < d0 * d1 <= d0 * d1 * d2 * d3,
        0 <= (i0 * d1 + i1) * d2 + i2 < d0 * d1 * d2 <= d0 * d1 * d2 * d3,
        0 <= ((i0 * d1 + i1) * d2 + i2) * d3 <= offset4(d1, d2, d3, i0, i1, i2, i3),
{
    assert(0 <= i0 * d1 + i1 < d0 * d1) by (nonlinear_arith)
        requires
            0 <= i0 < d0,
            0 <= i1 < d1,
    ;
    let a = i0 * d1 + i1;
    assert(0 <= a * d2 + i2 < d0 * d1 * d2) by (nonlinear_arith)
        requires
            0 <= a < d0 * d1,
            0 <= i2 < d2,
    ;
    let b = a * d2 + i2;
    assert(0 <= b * d3 + i3 < d0 * d1 * d2 * d3) by (nonlinear_arith)
        requires
            0 <= b < d0 * d1 * d2,
            0 <= i3 < d3,
    ;
    assert(d0 * d1 <= d0 * d1 * d2 <= d0 * d1 * d2 * d3) by (nonlinear_arith)
        requires
            d0 > 0,
            d1 > 0,
            d2 > 0,
            d3 > 0,
    ;
    assert(0 <= b * d3) by (nonlinear_arith)
        requires
            b >= 0,
            d3 > 0,
    ;
}

/// Splitting an index below `q * d` by `d` gives a quotient below `q` and a
/// remainder below `d`.
pub proof fn lemma_split_index(x: int, d: int, q: int)
    requires
        0 <= x < q * d,
        d > 0,
    ensures
        0 <= x / d < q,
        0 <= x % d < d,
        x == (x / d) * d + x % d,
{
    lemma_fundamental_div_mod(x, d);
    lemma_mod_pos_bound(x, d);
    lemma_div_pos_is_pos(x, d);
    let a = x / d;
    let b = x % d;
    assert(a < q) by (nonlinear_arith)
        requires
            x == d * a + b,
            0 <= b,
            x < q * d,
            d > 0,
    ;
    assert(x == a * d + b) by (nonlinear_arith)
        requires
            x == d * a + b,
    ;
}

/// The coordinates, in row-major order over extents `(_, d1, d2, d3)`, of
/// the element at offset `p`.
pub open spec fn unflatten4(d1: int, d2: int, d3: int, p: int) -> (int, int, int, int) {
    let a = d1 * d2 * d3;
    let b = d2 * d3;
    (p / a, (p % a) / b, ((p % a) % b) / d3, ((p % a) % b) % d3)
}

/// `unflatten4` with the products of the extents grouped from the right,
/// as a loop computes them.
pub proof fn lemma_unflatten4_grouped(d1: int, d2: int, d3: int, p: int)
    ensures
        unflatten4(d1, d2, d3, p) == (
            p / (d1 * (d2 * d3)),
            (p % (d1 * (d2 * d3))) / (d2 * d3),
            ((p % (d1 * (d2 * d3))) % (d2 * d3)) / d3,
            ((p % (d1 * (d2 * d3))) % (d2 * d3)) % d3,
        ),
{
    assert(d1 * d2 * d3 == d1 * (d2 * d3)) by (nonlinear_arith);
}

/// The coordinates of an offset inside a four-dimensional layout are inside
/// the extents and give the offset back.
pub proof fn lemma_unflatten4(d0: int, d1: int, d2: int, d3: int, p: int)
    requires
        0 <= p < d0 * d1 * d2 * d3,
        d0 >= 0,
        d1 >= 0,
        d2 >= 0,
        d3 >= 0,
    ensures
        ({
            let (i0, i1, i2, i3) = unflatten4(d1, d2, d3, p);
            &&& 0 <= i0 < d0
            &&& 0 <= i1 < d1
            &&& 0 <= i2 < d2
            &&& 0 <= i3 < d3
            &&& p == offset4(d1, d2, d3, i0, i1, i2, i3)
        }),
{
    let n = d0;
    let c = d1;
    let h = d2;
    let w = d3;
    let q = p;
    assert(n * c * h * w == n * (c * h * w)) by (nonlinear_arith);
    assert(c * h * w == c * (h * w)) by (nonlinear_arith);
    assert(c * h * w > 0 && h * w > 0 && w > 0) by (nonlinear_arith)
        requires
            0 <= q < n * c * h * w,
            n >= 0,
            c >= 0,
            h >= 0,
            w >= 0,
    ;
    let chw = c * h * w;
    let hw = h * w;
    lemma_split_index(q, chw, n);
    lemma_split_index(q % chw, hw, c);
    lemma_split_index((q % chw) % hw, w, h);
    let ni = q / chw;
    let ci = (q % chw) / hw;
    let y = ((q % chw) % hw) / w;
    let x = ((q % chw) % hw) % w;
    assert(ni * chw == (ni * c) * hw) by (nonlinear_arith)
        requires
            chw == c * hw,
    ;
    assert(ci * hw + y * w == (ci * h + y) * w) by (nonlinear_arith)
        requires
            hw == h * w,
    ;
    assert((ni * c) * hw + (ci * h + y) * w == ((ni * c + ci) * h + y) * w) by (nonlinear_arith)
        requires
            hw == h * w,
    ;
    assert(q == ((ni * c + ci) * h + y) * w + x);
}

/// Returns the product of `dims`, or `None` when it does not fit in a `usize`.
pub fn checked_product(dims: &[usize]) -> (r: Option<usize>)
    ensures
        r is Some <==> product(dims@) <= usize::MAX,
        r matches Some(p) ==> p == product(dims@),
{
    let mut k: usize = 0;
    while k < dims.len()
        invariant
            k <= dims@.len(),
            forall|j: int| 0 <= j < k ==> dims@[j] > 0,
        decreases dims@.len() - k,
    {
        if dims[k] == 0 {
            proof {
                lemma_product_zero(dims@, k as int);
            }
            return Some(0);
        }
        k = k + 1;
    }
    let mut acc: usize = 1;
    let mut i: usize = 0;
    while i < dims.len()
        invariant
            i <= dims@.len(),
            forall|j: int| 0 <= j < dims@.len() ==> dims@[j] > 0,
            acc == product(dims@.take(i as int)),
        decreases dims@.len() - i,
    {
        assert(dims@.take(i as int + 1).drop_last() =~= dims@.take(i as int));
        match acc.checked_mul(dims[i]) {
            Some(p) => {
                acc = p;
            },
            None => {
                proof {
                    lemma_product_prefix_le(dims@, i as int + 1);
                }
                return None;
            },
        }
        i = i + 1;
    }
    assert(dims@.take(i as int) =~= dims@);
    Some(acc)
}

/// Every entry of `s` but the first.
fn slice_skip1(s: &[usize]) -> (r: &[usize])
    requires
        s@.len() >= 1,
    ensures
        r@ == s@.skip(1),
{
    let (_, rest) = s.split_at(1);
    rest
}

/// A dense, row-major, n-dimensional array.
#[derive(Debug, Clone)]
pub struct NdArray<T> {
    shape: Vec<usize>,
    data: Vec<T>,
}

impl<T> NdArray<T> {
    /// The extents of the array.
    pub closed spec fn dims(&self) -> Seq<usize> {
        self.shape@
    }

    /// The elements of the array in row-major order.
    pub closed spec fn elems(&self) -> Seq<T> {
        self.data@
    }

    /// The array holds exactly as many elements as its shape describes.
    pub open spec fn well_formed(&self) -> bool {
        self.elems().len() == product(self.dims())
    }

    /// Builds an array from its shape and its row-major elements; `None` when
    /// the number of elements does not match the shape.
    pub fn from_shape_vec(shape: Vec<usize>, data: Vec<T>) -> (r: Option<NdArray<T>>)
        ensures
            r is Some <==> data@.len() == product(shape@),
            r matches Some(a) ==> a.dims() == shape@ && a.elems() == data@ && a.well_formed(),
    {
        assert(data@.len() == data.len());
        match checked_product(shape.as_slice()) {
            Some(n) => {
                if n == data.len() {
                    Some(NdArray { shape, data })
                } else {
                    None
                }
            },
            None => None,
        }
    }

    /// The extents of the array.
    pub fn shape(&self) -> (r: &[usize])
        ensures
            r@ == self.dims(),
    {
        self.shape.as_slice()
    }

    /// The elements of the array in row-major order.
    pub fn data(&self) -> (r: &[T])
        ensures
            r@ == self.elems(),
    {
        self.data.as_slice()
    }

    /// Gives up the array and returns its row-major elements.
    pub fn into_data(self) -> (r: Vec<T>)
        ensures
            r@ == self.elems(),
    {
        self.data
    }

    /// The number of dimensions.
    pub fn ndim(&self) -> (n: usize)
        ensures
            n == self.dims().len(),
    {
        self.shape.len()
    }

    /// Number of elements in one row, that is, one index along the first axis.
    fn row_len(&self) -> (r: usize)
        requires
            self.well_formed(),
            self.dims().len() >= 1,
            self.dims()[0] > 0,
        ensures
            r == product(self.dims().skip(1)),
            self.dims()[0] * r == self.elems().len(),
    {
        proof {
            lemma_product_first(self.dims());
        }
        let rest = slice_skip1(self.shape.as_slice());
        match checked_product(rest) {
            Some(r) => r,
            None => {
                proof {
                    let d0 = self.dims()[0] as nat;
                    let p = product(self.dims().skip(1));
                    assert(p <= d0 * p) by (nonlinear_arith)
                        requires
                            d0 >= 1,
                    ;
                    assert(self.data@.len() == self.data.len());
                }
                0
            },
        }
    }

    /// The rows `start..end` along the first axis.
    pub fn slice_rows(&self, start: usize, end: usize) -> (r: NdArray<T>)
        where
            T: Copy,
        requires
            self.well_formed(),
            self.dims().len() >= 1,
            start <= end <= self.dims()[0],
        ensures
            r.well_formed(),
            r.dims() == seq![(end - start) as usize] + self.dims().skip(1),
            r.elems() == self.elems().subrange(
                start * product(self.dims().skip(1)),
                end * product(self.dims().skip(1)),
            ),
    {
        let mut shape: Vec<usize> = Vec::new();
        shape.push(end - start);
        let mut k: usize = 1;
        while k < self.shape.len()
            invariant
                1 <= k <= self.shape@.len(),
                shape@ == seq![(end - start) as usize] + self.shape@.subrange(1, k as int),
            decreases self.shape@.len() - k,
        {
            shape.push(self.shape[k]);
            k = k + 1;
            assert(shape@ =~= seq![(end - start) as usize] + self.shape@.subrange(1, k as int));
        }
        assert(self.shape@.subrange(1, k as int) =~= self.dims().skip(1));
        proof {
            lemma_product_first(shape@);
            assert(shape@.skip(1) =~= self.dims().skip(1));
        }
        let mut data: Vec<T> = Vec::new();
        if start < end {
            let rl = self.row_len();
            proof {
                let d0 = self.dims()[0] as int;
                assert(start * rl <= end * rl <= d0 * rl) by (nonlinear_arith)
                    requires
                        start <= end <= d0,
                        rl >= 0,
                ;
                assert(self.data@.len() == self.data.len());
            }
            let lo = start * rl;
            let hi = end * rl;
            let mut i = lo;
            while i < hi
                invariant
                    lo <= i <= hi,
                    hi <= self.data@.len(),
                    data@ == self.data@.subrange(lo as int, i as int),
                decreases hi - i,
            {
                data.push(self.data[i]);
                i = i + 1;
                assert(data@ =~= self.data@.subrange(lo as int, i as int));
            }
            proof {
                assert((end - start) * rl == hi - lo) by (nonlinear_arith)
                    requires
                        lo == start * rl,
                        hi == end * rl,
                ;
            }
        } else {
            proof {
                assert(start == end);
                lemma_product_first(self.dims());
                let p = product(self.dims().skip(1));
                let d0 = self.dims()[0] as int;
                assert(start * p <= d0 * p) by (nonlinear_arith)
                    requires
                        start <= d0,
                        p >= 0,
                ;
                assert(start * product(self.dims().skip(1)) == end * product(self.dims().skip(1)));
                assert(self.data@.subrange(
                    start * product(self.dims().skip(1)),
                    end * product(self.dims().skip(1)),
                ) =~= Seq::<T>::empty());
                let p = product(self.dims().skip(1));
                assert(0 * p == 0) by (nonlinear_arith);
                assert(data@ =~= Seq::<T>::empty());
            }
        }
        NdArray { shape, data }
    }

    /// The rows `indices[0], indices[1], ...` along the first axis, in that
    /// order, stacked into a new array.
    pub fn select_rows(&self, indices: &[usize]) -> (r: NdArray<T>)
        where
            T: Copy,
        requires
            self.well_formed(),
            self.dims().len() >= 1,
            forall|i: int| 0 <= i < indices@.len() ==> #[trigger] indices@[i] < self.dims()[0],
            indices@.len() * product(self.dims().skip(1)) <= usize::MAX,
        ensures
            r.well_formed(),
            r.dims() == seq![indices@.len() as usize] + self.dims().skip(1),
            forall|i: int, k: int|
                0 <= i < indices@.len() && 0 <= k < product(self.dims().skip(1)) ==> r.elems()[i * product(
                    self.dims().skip(1),
                ) + k] == #[trigger] self.elems()[indices@[i] * product(self.dims().skip(1)) + k],
    {
        let mut shape: Vec<usize> = Vec::new();
        shape.push(indices.len());
        let mut k: usize = 1;
        while k < self.shape.len()
            invariant
                1 <= k <= self.shape@.len(),
                shape@ == seq![indices@.len() as usize] + self.shape@.subrange(1, k as int),
            decreases self.shape@.len() - k,
        {
            shape.push(self.shape[k]);
            k = k + 1;
            assert(shape@ =~= seq![indices@.len() as usize] + self.shape@.subrange(1, k as int));
        }
        assert(self.shape@.subrange(1, k as int) =~= self.dims().skip(1));
        proof {
            lemma_product_first(shape@);
            assert(shape@.skip(1) =~= self.dims().skip(1));
        }
        let ghost p = product(self.dims().skip(1));
        let mut data: Vec<T> = Vec::new();
        if indices.len() > 0 {
            proof {
                assert(indices@[0] < self.dims()[0]);
            }
            let rl = self.row_len();
            let d0 = self.shape[0];
            let mut i: usize = 0;
            while i < indices.len()
                invariant
                    rl == p,
                    d0 == self.dims()[0],
                    d0 * rl == self.data@.len(),
                    indices@.len() * rl <= usize::MAX,
                    forall|j: int| 0 <= j < indices@.len() ==> #[trigger] indices@[j] < d0,
                    i <= indices@.len(),
                    data@.len() == i * rl,
                    forall|j: int, k: int|
                        0 <= j < i && 0 <= k < rl ==> data@[j * rl + k] == #[trigger] self.data@[indices@[j] * rl + k],
                decreases indices@.len() - i,
            {
                let row = indices[i];
                proof {
                    assert(row * rl + rl <= d0 * rl) by (nonlinear_arith)
                        requires
                            row < d0,
                            rl >= 0,
                    ;
                    assert((i + 1) * rl <= indices@.len() * rl) by (nonlinear_arith)
                        requires
                            i < indices@.len(),
                            rl >= 0,
                    ;
                    assert(self.data@.len() == self.data.len());
                }
                let base = row * rl;
                let ghost before = data@;
                let mut k: usize = 0;
                while k < rl
                    invariant
                        k <= rl,
                        base == row * rl,
                        base + rl <= self.data@.len(),
                        self.data@.len() <= usize::MAX,
                        data@.len() == i * rl + k,
                        data@.subrange(0, (i * rl) as int) == before.subrange(0, (i * rl) as int),
                        before.len() == i * rl,
                        data@.subrange((i * rl) as int, data@.len() as int) == self.data@.subrange(
                            base as int,
                            base + k,
                        ),
                    decreases rl - k,
                {
                    data.push(self.data[base + k]);
                    k = k + 1;
                    assert(data@.subrange((i * rl) as int, data@.len() as int) =~= self.data@.subrange(
                        base as int,
                        base + k,
                    ));
                    assert(data@.subrange(0, (i * rl) as int) =~= before.subrange(0, (i * rl) as int));
                }
                proof {
                    assert forall|j: int, kk: int|
                        0 <= j < i + 1 && 0 <= kk < rl implies data@[j * rl + kk]
                            == #[trigger] self.data@[indices@[j] * rl + kk] by {
                        if j < i {
                            assert(j * rl + kk < i * rl) by (nonlinear_arith)
                                requires
                                    j < i,
                                    kk < rl,
                            ;
                            assert(data@[j * rl + kk] == data@.subrange(0, (i * rl) as int)[j * rl + kk]);
                            assert(before[j * rl + kk] == before.subrange(0, (i * rl) as int)[j * rl + kk]);
                        } else {
                            assert(data@[j * rl + kk] == data@.subrange((i * rl) as int, data@.len() as int)[kk]);
                            assert(self.data@[indices@[j] * rl + kk] == self.data@.subrange(base as int, base + rl)[kk]);
                        }
                    }
                    assert((i + 1) * rl == i * rl + rl) by (nonlinear_arith);
                }
                i = i + 1;
            }
        }
        proof {
            if indices@.len() == 0 {
                assert(0 * p == 0) by (nonlinear_arith);
            }
        }
        NdArray { shape, data }
    }

    /// The number of elements.
    pub fn len(&self) -> (n: usize)
        requires
            self.well_formed(),
        ensures
            n == product(self.dims()),
    {
        self.data.len()
    }
}

} // verus!
