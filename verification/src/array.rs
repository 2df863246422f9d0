//! Typed arrays: a shape and a flat buffer of elements in row-major order.

use vstd::prelude::*;
use crate::shape::{Shape, ShapeView};
use crate::element::ArrayValue;
use crate::error::{ErrorView, UiuaError};

verus! {

/// The number of elements of an array with the given dimension sizes: their
/// product, which is 1 for a scalar.
pub open spec fn count(sizes: Seq<usize>) -> nat
    decreases sizes.len(),
{
    if sizes.len() == 0 {
        1
    } else {
        count(sizes.drop_last()) * (sizes.last() as nat)
    }
}

/// The product over a list of sizes put together is the product of the
/// products of its two parts.
pub proof fn lemma_count_concat(a: Seq<usize>, b: Seq<usize>)
    ensures
        count(a + b) == count(a) * count(b),
    decreases b.len(),
{
    if b.len() == 0 {
        assert(a + b =~= a);
        assert(count(b) == 1);
        assert(count(a) * 1 == count(a)) by (nonlinear_arith);
    } else {
        assert((a + b).drop_last() =~= a + b.drop_last());
        assert((a + b).last() == b.last());
        lemma_count_concat(a, b.drop_last());
        assert(count(a + b) == count(a + b.drop_last()) * (b.last() as nat));
        assert(count(b) == count(b.drop_last()) * (b.last() as nat));
        assert(count(a) * count(b.drop_last()) * (b.last() as nat) == count(a) * (count(
            b.drop_last(),
        ) * (b.last() as nat))) by (nonlinear_arith);
    }
}

/// The product of a list of sizes cut at `k` is the product of the products
/// before and after the cut.
pub proof fn lemma_count_split(s: Seq<usize>, k: int)
    requires
        0 <= k <= s.len(),
    ensures
        count(s) == count(s.subrange(0, k)) * count(s.subrange(k, s.len() as int)),
{
    assert(s =~= s.subrange(0, k) + s.subrange(k, s.len() as int));
    lemma_count_concat(s.subrange(0, k), s.subrange(k, s.len() as int));
}

/// The product of one size is that size.
pub proof fn lemma_count_one(n: usize)
    ensures
        count(seq![n]) == n,
{
    let s = seq![n];
    assert(s.drop_last() =~= Seq::<usize>::empty());
    assert(s.last() == n);
    assert(count(s.drop_last()) == 1);
    assert(count(s) == count(s.drop_last()) * (n as nat));
    assert(1 * (n as nat) == n) by (nonlinear_arith);
}

/// A list of sizes with a zero in it has the product zero, and no other has.
pub proof fn lemma_count_zero(s: Seq<usize>)
    ensures
        count(s) == 0 <==> exists|i: int| 0 <= i < s.len() && s[i] == 0,
    decreases s.len(),
{
    if s.len() > 0 {
        lemma_count_zero(s.drop_last());
        let n = s.len() - 1;
        if count(s) == 0 {
            assert(count(s.drop_last()) == 0 || s.last() == 0) by (nonlinear_arith)
                requires
                    count(s.drop_last()) * (s.last() as nat) == 0,
            ;
            if s.last() == 0 {
                assert(s[n] == 0);
            } else {
                let i = choose|i: int| 0 <= i < s.drop_last().len() && s.drop_last()[i] == 0;
                assert(s[i] == 0);
            }
        }
        if exists|i: int| 0 <= i < s.len() && s[i] == 0 {
            let i = choose|i: int| 0 <= i < s.len() && s[i] == 0;
            if i < n {
                assert(s.drop_last()[i] == 0);
            }
            assert(count(s.drop_last()) * (s.last() as nat) == 0) by (nonlinear_arith)
                requires
                    count(s.drop_last()) == 0 || s.last() == 0,
            ;
        }
    }
}

/// The product of the sizes of `sizes` from `from` up to `to`, if a machine
/// word holds it.
pub fn checked_count(sizes: &[usize], from: usize, to: usize) -> (r: Option<usize>)
    requires
        from <= to <= sizes@.len(),
    ensures
        r == if count(sizes@.subrange(from as int, to as int)) <= usize::MAX {
            Some(count(sizes@.subrange(from as int, to as int)) as usize)
        } else {
            None
        },
{
    let ghost part = sizes@.subrange(from as int, to as int);
    let mut i: usize = from;
    while i < to
        invariant
            from <= i <= to <= sizes@.len(),
            part == sizes@.subrange(from as int, to as int),
            forall|k: int| from <= k < i ==> sizes@[k] != 0,
        decreases to - i,
    {
        if sizes[i] == 0 {
            proof {
                assert(part[i - from] == 0);
                lemma_count_zero(part);
            }
            return Some(0);
        }
        i += 1;
    }
    let mut product: usize = 1;
    let mut i: usize = from;
    assert(sizes@.subrange(from as int, from as int) =~= Seq::<usize>::empty());
    while i < to
        invariant
            from <= i <= to <= sizes@.len(),
            part == sizes@.subrange(from as int, to as int),
            forall|k: int| from <= k < to ==> sizes@[k] != 0,
            product == count(sizes@.subrange(from as int, i as int)),
            product >= 1,
        decreases to - i,
    {
        let ghost done = sizes@.subrange(from as int, i as int);
        let ghost next = sizes@.subrange(from as int, i + 1);
        let ghost rest = sizes@.subrange(i + 1, to as int);
        proof {
            assert(next.drop_last() =~= done);
            assert(part =~= next + rest);
            lemma_count_concat(next, rest);
            lemma_count_zero(rest);
            assert(count(next) * count(rest) >= count(next)) by (nonlinear_arith)
                requires
                    count(rest) >= 1,
            ;
        }
        match product.checked_mul(sizes[i]) {
            None => {
                return None;
            },
            Some(p) => {
                product = p;
                assert(product >= 1) by (nonlinear_arith)
                    requires
                        product == count(done) * (sizes@[i as int] as nat),
                        count(done) >= 1,
                        sizes@[i as int] >= 1,
                ;
            },
        }
        i += 1;
    }
    Some(product)
}

/// The values that the elements stand for
pub open spec fn views<T: View>(s: Seq<T>) -> Seq<T::V> {
    Seq::new(s.len(), |i: int| s[i]@)
}

/// What an array is: its shape, its elements in row-major order, and
/// whether it is marked as holding only 0 and 1.
pub struct ArrayView<V> {
    pub shape: ShapeView,
    pub data: Seq<V>,
    pub boolean: bool,
}

impl<V> ArrayView<V> {
    /// The shape is valid and there are as many elements as it asks for.
    pub open spec fn wf(self) -> bool {
        self.shape.wf() && self.data.len() == count(self.shape.sizes)
    }

    /// The number of dimensions
    pub open spec fn rank(self) -> nat {
        self.shape.sizes.len()
    }

    /// The number of rows: the first size, or 1 for a scalar
    pub open spec fn row_count(self) -> nat {
        if self.shape.sizes.len() == 0 {
            1
        } else {
            self.shape.sizes[0] as nat
        }
    }

    /// The number of elements in a row: the product of the sizes but the
    /// first
    pub open spec fn row_len(self) -> nat {
        if self.shape.sizes.len() == 0 {
            1
        } else {
            count(self.shape.sizes.skip(1))
        }
    }

    /// The elements of row `i`
    pub open spec fn row(self, i: int) -> Seq<V> {
        self.data.subrange(i * self.row_len(), (i + 1) * self.row_len())
    }
}

/// The scalar that holds `x`
pub open spec fn scalar_view<V>(x: V) -> ArrayView<V> {
    ArrayView {
        shape: ShapeView { sizes: Seq::empty(), markers: Seq::empty() },
        data: seq![x],
        boolean: false,
    }
}

/// The list of the elements `s`
pub open spec fn list_view<V>(s: Seq<V>) -> ArrayView<V> {
    ArrayView {
        shape: ShapeView { sizes: seq![s.len() as usize], markers: Seq::empty() },
        data: s,
        boolean: false,
    }
}

/// The unmarked array of the given sizes and elements
pub open spec fn plain_view<V>(sizes: Seq<usize>, data: Seq<V>) -> ArrayView<V> {
    ArrayView { shape: ShapeView { sizes, markers: Seq::empty() }, data, boolean: false }
}

/// Whether the result of an operation is what its model says: the same
/// error, or a value with the view that the model gives.
pub open spec fn agrees<T: View>(r: Result<T, UiuaError>, model: Result<T::V, ErrorView>) -> bool {
    match r {
        Ok(a) => model == Ok::<T::V, ErrorView>(a@),
        Err(e) => model == Err::<T::V, ErrorView>(e@),
    }
}

/// Flags of an array
#[derive(Clone, Copy, PartialEq, Eq, Structural, Debug, Default)]
pub struct ArrayFlags {
    /// The array holds only 0 and 1.
    pub boolean: bool,
}

/// An array of elements of one kind
pub struct Array<T> {
    /// The shape
    pub shape: Shape,
    /// The elements, in row-major order
    pub data: Vec<T>,
    /// The flags
    pub flags: ArrayFlags,
}

impl<T: ArrayValue> View for Array<T> {
    type V = ArrayView<T::V>;

    open spec fn view(&self) -> ArrayView<T::V> {
        ArrayView { shape: self.shape@, data: views(self.data@), boolean: self.flags.boolean }
    }
}

/// In a valid array with rows, the rows make up the elements.
pub proof fn lemma_rows<V>(a: ArrayView<V>)
    requires
        a.wf(),
        a.rank() > 0,
    ensures
        a.data.len() == a.row_count() * a.row_len(),
{
    let s = a.shape.sizes;
    lemma_count_split(s, 1);
    assert(s.subrange(0, 1) =~= seq![s[0]]);
    lemma_count_one(s[0]);
    assert(s.subrange(1, s.len() as int) =~= s.skip(1));
}

impl<T: ArrayValue> Array<T> {
    /// The shape is valid and there are as many elements as it asks for.
    pub open spec fn wf(&self) -> bool {
        self@.wf()
    }

    /// An array of the given shape and elements
    pub fn new(shape: Shape, data: Vec<T>) -> (a: Self)
        requires
            shape.wf(),
            data@.len() == count(shape@.sizes),
        ensures
            a.wf(),
            a@.shape == shape@,
            a@.data == views(data@),
            !a@.boolean,
    {
        Array { shape, data, flags: ArrayFlags { boolean: false } }
    }

    /// The unmarked array of the given sizes and elements
    pub fn from_parts(sizes: &[usize], data: Vec<T>) -> (a: Self)
        requires
            data@.len() == count(sizes@),
        ensures
            a.wf(),
            a@ == plain_view(sizes@, views(data@)),
    {
        let a = Array {
            shape: Shape::from_sizes(sizes),
            data,
            flags: ArrayFlags { boolean: false },
        };
        assert(a@.shape.markers =~= Seq::<crate::shape::Marker>::empty());
        a
    }

    /// The array of rank 0 that holds `value`
    pub fn scalar(value: T) -> (a: Self)
        ensures
            a.wf(),
            a@ == scalar_view(value@),
    {
        let mut data: Vec<T> = Vec::new();
        data.push(value);
        assert(views(data@) =~= seq![value@]);
        let a = Array { shape: Shape::scalar(), data, flags: ArrayFlags { boolean: false } };
        assert(a@.shape.sizes =~= Seq::<usize>::empty());
        assert(a@.shape.markers =~= Seq::<crate::shape::Marker>::empty());
        a
    }

    /// The list of the given elements
    pub fn from_vec(data: Vec<T>) -> (a: Self)
        ensures
            a.wf(),
            a@ == list_view(views(data@)),
    {
        proof {
            lemma_count_one(data@.len() as usize);
        }
        let a = Array {
            shape: Shape::from_length(data.len()),
            data,
            flags: ArrayFlags { boolean: false },
        };
        assert(a@.shape.markers =~= Seq::<crate::shape::Marker>::empty());
        a
    }

    /// Whether there are as many elements as the shape asks for
    pub fn validate_shape(&self) -> (r: bool)
        ensures
            r == (self@.data.len() == count(self@.shape.sizes)),
    {
        let sizes = self.shape.sizes();
        assert(sizes@.subrange(0, sizes@.len() as int) =~= sizes@);
        assert(self@.data.len() == self.data.len());
        match checked_count(sizes, 0, sizes.len()) {
            Some(n) => n == self.data.len(),
            None => false,
        }
    }

    /// Whether the array is valid: its shape is, and there are as many
    /// elements as the shape asks for
    pub fn validate(&self) -> (r: bool)
        ensures
            r == self.wf(),
    {
        self.shape.is_valid() && self.validate_shape()
    }

    /// The number of dimensions
    pub fn rank(&self) -> (r: usize)
        ensures
            r == self@.rank(),
    {
        self.shape.rank()
    }

    /// The number of rows
    pub fn row_count(&self) -> (r: usize)
        ensures
            r == self@.row_count(),
    {
        self.shape.length()
    }

    /// The number of elements
    pub fn element_count(&self) -> (r: usize)
        ensures
            r == self@.data.len(),
    {
        self.data.len()
    }

    /// The number of elements in a row, if a machine word holds it. It
    /// does so wherever the array has elements.
    pub fn row_len(&self) -> (r: Option<usize>)
        requires
            self.wf(),
        ensures
            r == if self@.row_len() <= usize::MAX {
                Some(self@.row_len() as usize)
            } else {
                None
            },
            self@.data.len() > 0 ==> r.is_some(),
    {
        if self.shape.rank() == 0 {
            return Some(1);
        }
        let sizes = self.shape.sizes();
        proof {
            assert(sizes@.subrange(1, sizes@.len() as int) =~= sizes@.skip(1));
            assert(self@.data.len() == self.data.len());
            lemma_rows(self@);
            if self@.data.len() > 0 {
                let n = self@.data.len();
                let rows = self@.row_count();
                let len = self@.row_len();
                assert(len <= n) by (nonlinear_arith)
                    requires
                        n == rows * len,
                        n > 0,
                ;
            }
        }
        let r = checked_count(sizes, 1, sizes.len());
        r
    }
}

} // verus!
