use vstd::prelude::*;

verus! {

/// Product of all dimensions of a shape.
pub open spec fn product(dims: Seq<usize>) -> nat
    decreases dims.len(),
{
    if dims.len() == 0 {
        1
    } else {
        product(dims.drop_last()) * (dims.last() as nat)
    }
}

/// The product of a concatenation is the product of the products.
pub proof fn lemma_product_concat(a: Seq<usize>, b: Seq<usize>)
    ensures
        product(a + b) == product(a) * product(b),
    decreases b.len(),
{
    if b.len() == 0 {
        assert(a + b =~= a);
        assert(product(a) * 1 == product(a));
    } else {
        lemma_product_concat(a, b.drop_last());
        assert((a + b).drop_last() =~= a + b.drop_last());
        assert((a + b).last() == b.last());
        let pa = product(a);
        let pb = product(b.drop_last());
        let l = b.last() as nat;
        assert(product(a + b) == product(a + b.drop_last()) * l);
        assert(product(b) == pb * l);
        assert(pa * pb * l == pa * (pb * l)) by (nonlinear_arith);
    }
}

/// The product of a shape is its first dimension times the product of the rest.
pub proof fn lemma_product_first(dims: Seq<usize>)
    requires
        dims.len() >= 1,
    ensures
        product(dims) == (dims[0] as nat) * product(dims.skip(1)),
{
    lemma_product_concat(seq![dims[0]], dims.skip(1));
    assert(seq![dims[0]] + dims.skip(1) =~= dims);
    assert(seq![dims[0]].drop_last() =~= Seq::<usize>::empty());
    let one = seq![dims[0]];
    assert(one.len() == 1);
    assert(one.last() == dims[0]);
    assert(product(one.drop_last()) == 1);
    assert(product(one) == 1 * (dims[0] as nat));
}

/// When no dimension is zero, the running products only grow.
pub proof fn lemma_product_prefix_le(dims: Seq<usize>, i: int)
    requires
        0 <= i <= dims.len(),
        forall|k: int| 0 <= k < dims.len() ==> dims[k] > 0,
    ensures
        product(dims.take(i)) <= product(dims),
        product(dims) > 0,
    decreases dims.len() - i,
{
    if i == dims.len() {
        assert(dims.take(i) =~= dims);
        lemma_product_positive(dims);
    } else {
        lemma_product_prefix_le(dims, i + 1);
        assert(dims.take(i + 1).drop_last() =~= dims.take(i));
        let p = product(dims.take(i));
        let d = dims[i] as nat;
        assert(p <= p * d) by (nonlinear_arith)
            requires
                d > 0,
        ;
    }
}

/// A shape with no zero dimension has a positive product.
pub proof fn lemma_product_positive(dims: Seq<usize>)
    requires
        forall|k: int| 0 <= k < dims.len() ==> dims[k] > 0,
    ensures
        product(dims) > 0,
    decreases dims.len(),
{
    if dims.len() > 0 {
        lemma_product_positive(dims.drop_last());
        let p = product(dims.drop_last());
        let d = dims.last() as nat;
        assert(p * d > 0) by (nonlinear_arith)
            requires
                p > 0,
                d > 0,
        ;
    }
}

/// A shape with a zero dimension has no elements.
pub proof fn lemma_product_zero(dims: Seq<usize>, k: int)
    requires
        0 <= k < dims.len(),
        dims[k] == 0,
    ensures
        product(dims) == 0,
    decreases dims.len(),
{
    if k == dims.len() - 1 {
        let p = product(dims.drop_last());
        assert(p * 0 == 0) by (nonlinear_arith);
    } else {
        lemma_product_zero(dims.drop_last(), k);
        let d = dims.last() as nat;
        assert(0 * d == 0) by (nonlinear_arith);
    }
}

/// Every running product of the leading dimensions fits in a `usize`.
pub open spec fn prefix_products_fit(dims: Seq<usize>) -> bool {
    forall|i: int| 0 <= i <= dims.len() ==> #[trigger] product(dims.take(i)) <= usize::MAX
}

/// The dimensions of a tensor.
#[derive(Debug, Clone)]
pub struct Shape(pub Vec<usize>);

impl View for Shape {
    type V = Seq<usize>;

    open spec fn view(&self) -> Seq<usize> {
        self.0@
    }
}

impl Shape {
    /// Returns the number of dimensions.
    pub fn len(&self) -> (n: usize)
        ensures
            n == self@.len(),
    {
        self.0.len()
    }

    /// Returns true if the shape has no dimensions.
    pub fn is_empty(&self) -> (b: bool)
        ensures
            b <==> self@.len() == 0,
    {
        self.0.len() == 0
    }

    /// Returns the total number of elements (product of all dimensions).
    pub fn size(&self) -> (s: usize)
        requires
            prefix_products_fit(self@),
        ensures
            s == product(self@),
    {
        let mut acc: usize = 1;
        let mut i: usize = 0;
        while i < self.0.len()
            invariant
                i <= self@.len(),
                prefix_products_fit(self@),
                acc == product(self@.take(i as int)),
            decreases self@.len() - i,
        {
            assert(self@.take(i as int + 1).drop_last() =~= self@.take(i as int));
            assert(product(self@.take(i as int + 1)) <= usize::MAX);
            acc = acc * self.0[i];
            i = i + 1;
        }
        assert(self@.take(i as int) =~= self@);
        acc
    }
}


impl From<Vec<usize>> for Shape {
    fn from(dims: Vec<usize>) -> (s: Shape)
        ensures
            s@ == dims@,
    {
        Shape(dims)
    }
}

impl vstd::std_specs::convert::FromSpecImpl<Vec<usize>> for Shape {
    open spec fn obeys_from_spec() -> bool {
        true
    }

    open spec fn from_spec(v: Vec<usize>) -> Shape {
        Shape(v)
    }
}

impl From<&[usize]> for Shape {
    fn from(dims: &[usize]) -> (s: Shape)
        ensures
            s@ == dims@,
    {
        let mut v: Vec<usize> = Vec::new();
        let mut i: usize = 0;
        while i < dims.len()
            invariant
                i <= dims@.len(),
                v@ == dims@.take(i as int),
            decreases dims@.len() - i,
        {
            v.push(dims[i]);
            i = i + 1;
            assert(v@ =~= dims@.take(i as int));
        }
        assert(dims@.take(i as int) =~= dims@);
        Shape(v)
    }
}

impl vstd::std_specs::convert::FromSpecImpl<&[usize]> for Shape {
    // A shape built from a slice owns a fresh vector, which no spec value
    // can name; the impl's own `ensures` states its view.
    open spec fn obeys_from_spec() -> bool {
        false
    }

    open spec fn from_spec(v: &[usize]) -> Shape {
        choose|s: Shape| #[trigger] s.view() == v@
    }
}

impl From<(usize, usize)> for Shape {
    fn from(dims: (usize, usize)) -> (s: Shape)
        ensures
            s@ == seq![dims.0, dims.1],
    {
        let (a, b) = dims;
        let mut v: Vec<usize> = Vec::new();
        v.push(a);
        v.push(b);
        assert(v@ =~= seq![a, b]);
        Shape(v)
    }
}

impl vstd::std_specs::convert::FromSpecImpl<(usize, usize)> for Shape {
    // The impl's own `ensures` states the view of the built shape.
    open spec fn obeys_from_spec() -> bool {
        false
    }

    open spec fn from_spec(v: (usize, usize)) -> Shape {
        choose|s: Shape| #[trigger] s.view() == seq![v.0, v.1]
    }
}

impl From<(usize, usize, usize, usize)> for Shape {
    fn from(dims: (usize, usize, usize, usize)) -> (s: Shape)
        ensures
            s@ == seq![dims.0, dims.1, dims.2, dims.3],
    {
        let (a, b, c, d) = dims;
        let mut v: Vec<usize> = Vec::new();
        v.push(a);
        v.push(b);
        v.push(c);
        v.push(d);
        assert(v@ =~= seq![a, b, c, d]);
        Shape(v)
    }
}

impl vstd::std_specs::convert::FromSpecImpl<(usize, usize, usize, usize)> for Shape {
    // The impl's own `ensures` states the view of the built shape.
    open spec fn obeys_from_spec() -> bool {
        false
    }

    open spec fn from_spec(v: (usize, usize, usize, usize)) -> Shape {
        choose|s: Shape| #[trigger] s.view() == seq![v.0, v.1, v.2, v.3]
    }
}

/// Where tensor computation takes place.
#[derive(Debug, Clone, Copy, PartialEq, Eq, Structural)]
pub enum Device {
    /// CPU computation device
    Cpu,
}

/// A two-dimensional shape `(rows, columns)` describes a scalar exactly when
/// it is `(1, 1)`.
pub fn is_scalar(shape: (usize, usize)) -> (b: bool)
    ensures
        b <==> (shape.0 == 1 && shape.1 == 1),
{
    shape.0 == 1 && shape.1 == 1
}

/// Which axes of a two-dimensional gradient of shape `grad_shape` are summed
/// to bring it back to the shape `target_shape` of an operand that was
/// broadcast: the rows (`.0`) when the operand had one row and the gradient
/// more, the columns (`.1`) likewise, and neither when the shapes agree.
pub fn broadcast_reduction_axes(grad_shape: (usize, usize), target_shape: (usize, usize)) -> (r: (bool, bool))
    ensures
        r.0 <==> (grad_shape != target_shape && target_shape.0 == 1 && grad_shape.0 > 1),
        r.1 <==> (grad_shape != target_shape && target_shape.1 == 1 && grad_shape.1 > 1),
{
    let same = grad_shape.0 == target_shape.0 && grad_shape.1 == target_shape.1;
    if same {
        (false, false)
    } else {
        (target_shape.0 == 1 && grad_shape.0 > 1, target_shape.1 == 1 && grad_shape.1 > 1)
    }
}

} // verus!
