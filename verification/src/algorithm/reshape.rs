//! Changing the shape of an array without moving its elements.

use vstd::prelude::*;
use crate::array::{checked_count, count, lemma_count_concat, lemma_count_one, lemma_count_split, Array, ArrayView};
use crate::element::ArrayValue;
use crate::shape::{without_range, Dimension, Shape, ShapeView, EMPTY_MARKER};

verus! {

impl ShapeView {
    /// The first `at` dimensions of the shape
    pub open spec fn cut(self, at: int) -> ShapeView {
        ShapeView {
            sizes: self.sizes.subrange(0, at),
            markers: if self.markers.len() == 0 {
                self.markers
            } else {
                self.markers.subrange(0, at)
            },
        }
    }

    /// The shape with an unmarked dimension of the given size put at
    /// `index`
    pub open spec fn with_size(self, index: int, size: usize) -> ShapeView {
        ShapeView {
            sizes: self.sizes.insert(index, size),
            markers: self.markers_with(index, EMPTY_MARKER),
        }
    }

    /// The shape without the dimensions of `start..end`
    pub open spec fn without(self, start: int, end: int) -> ShapeView {
        ShapeView {
            sizes: without_range(self.sizes, start, end),
            markers: if self.markers.len() == 0 {
                self.markers
            } else {
                without_range(self.markers, start, end)
            },
        }
    }
}

/// The product of the sizes as a machine word, and zero where it is
/// beyond them: an array with such sizes has no elements.
pub open spec fn count_or_zero(sizes: Seq<usize>) -> usize {
    if count(sizes) <= usize::MAX {
        count(sizes) as usize
    } else {
        0
    }
}

/// The array with the dimensions from `depth` on made into one, whose size
/// is the product of theirs. The dimensions before `depth` stay, and so do
/// the elements.
pub open spec fn deshaped<V>(a: ArrayView<V>, depth: nat) -> ArrayView<V> {
    let d = if depth < a.rank() {
        depth as int
    } else {
        a.rank() as int
    };
    ArrayView {
        shape: a.shape.cut(d).with_size(d, count_or_zero(a.shape.sizes.skip(d))),
        data: a.data,
        boolean: a.boolean,
    }
}

/// The array with a first dimension of size 1 added
pub open spec fn fixed<V>(a: ArrayView<V>) -> ArrayView<V> {
    ArrayView { shape: a.shape.with_size(0, 1), data: a.data, boolean: a.boolean }
}

/// The array without its first dimension, where that has size 1, and else,
/// where it has two dimensions or more, with the first two made into one
pub open spec fn unfixed<V>(a: ArrayView<V>) -> ArrayView<V> {
    let sizes = a.shape.sizes;
    if sizes.len() > 0 && sizes[0] == 1 {
        ArrayView { shape: a.shape.without(0, 1), data: a.data, boolean: a.boolean }
    } else if sizes.len() >= 2 {
        ArrayView {
            shape: a.shape.without(0, 2).with_size(0, count_or_zero(sizes.subrange(0, 2))),
            data: a.data,
            boolean: a.boolean,
        }
    } else {
        a
    }
}

/// Making the dimensions from `depth` on into one keeps the dimensions
/// before, the number of elements that the sizes ask for, and the validity
/// of the array.
pub proof fn lemma_deshape_keeps<V>(a: ArrayView<V>, depth: nat)
    requires
        a.wf(),
        a.data.len() <= usize::MAX,
    ensures
        deshaped(a, depth).wf(),
        count(deshaped(a, depth).shape.sizes) == count(a.shape.sizes),
        forall|i: int|
            0 <= i < depth && i < a.rank() ==> deshaped(a, depth).shape.sizes[i]
                == a.shape.sizes[i],
{
    let sizes = a.shape.sizes;
    let d = if depth < a.rank() {
        depth as int
    } else {
        a.rank() as int
    };
    lemma_joined(sizes, d, sizes.len() as int, a.data.len());
    assert(sizes.subrange(d, sizes.len() as int) =~= sizes.skip(d));
    let joined = count_or_zero(sizes.skip(d));
    assert(deshaped(a, depth).shape.sizes =~= sizes.subrange(0, d) + seq![joined]
        + sizes.subrange(sizes.len() as int, sizes.len() as int));
}

/// Sizes with those of `start..end` made into one have the product of the
/// sizes, where that product is the number of elements of an array.
pub proof fn lemma_joined(sizes: Seq<usize>, start: int, end: int, n: nat)
    requires
        0 <= start <= end <= sizes.len(),
        count(sizes) == n,
        n <= usize::MAX,
    ensures
        count(
            sizes.subrange(0, start) + seq![count_or_zero(sizes.subrange(start, end))]
                + sizes.subrange(end, sizes.len() as int),
        ) == n,
{
    let a = sizes.subrange(0, start);
    let b = sizes.subrange(start, end);
    let c = sizes.subrange(end, sizes.len() as int);
    let joined = count_or_zero(b);
    assert(sizes =~= a + b + c);
    lemma_count_concat(a, b);
    lemma_count_concat(a + b, c);
    lemma_count_concat(a, seq![joined]);
    lemma_count_concat(a + seq![joined], c);
    lemma_count_one(joined);
    if count(b) > usize::MAX {
        // the product of the whole is zero
        assert(count(a) * count(c) == 0) by (nonlinear_arith)
            requires
                count(a) * count(b) * count(c) <= usize::MAX,
                count(b) > usize::MAX,
        ;
        assert(count(a) * 0 * count(c) == 0) by (nonlinear_arith);
        assert(count(a) * count(b) * count(c) == 0) by (nonlinear_arith)
            requires
                count(a) * count(c) == 0,
        ;
    }
}

impl<T: ArrayValue> Array<T> {
    /// Make the array 1-dimensional
    pub fn deshape(&mut self)
        requires
            old(self).wf(),
        ensures
            final(self).wf(),
            final(self)@ == crate::array::list_view(old(self)@.data).with_flag(old(self)@.boolean),
    {
        proof {
            lemma_count_one(self.data@.len() as usize);
            assert(self@.data.len() == self.data@.len());
        }
        self.shape = Shape::from_length(self.data.len());
        assert(self@.shape.markers =~= Seq::<crate::shape::Marker>::empty());
    }

    /// Make the dimensions from `depth` on into one
    pub fn deshape_depth(&mut self, depth: usize)
        requires
            old(self).wf(),
        ensures
            final(self).wf(),
            final(self)@ == deshaped(old(self)@, depth as nat),
    {
        let rank = self.shape.rank();
        let d = if depth < rank {
            depth
        } else {
            rank
        };
        proof {
            assert(self@.data.len() == self.data.len());
            lemma_deshape_keeps(self@, depth as nat);
            let sizes = self@.shape.sizes;
            assert(sizes.subrange(d as int, rank as int) =~= sizes.skip(d as int));
        }
        let joined = match checked_count(self.shape.sizes(), d, rank) {
            Some(n) => n,
            None => 0,
        };
        let _ = self.shape.split_off(d);
        self.shape.push(Dimension::unmarked(joined));
        proof {
            let goal = deshaped(old(self)@, depth as nat);
            assert(self@.shape.sizes =~= goal.shape.sizes);
            assert(self@.shape.markers =~= goal.shape.markers);
        }
    }

    /// Add a 1-length dimension to the front of the array's shape
    pub fn fix(&mut self)
        requires
            old(self).wf(),
        ensures
            final(self).wf(),
            final(self)@ == fixed(old(self)@),
    {
        proof {
            let sizes = self@.shape.sizes;
            lemma_count_concat(seq![1usize], sizes);
            lemma_count_one(1);
            assert(sizes.insert(0, 1usize) =~= seq![1usize] + sizes);
            assert(1 * count(sizes) == count(sizes)) by (nonlinear_arith);
        }
        self.shape.insert(0, Dimension::unmarked(1));
    }

    /// Take a 1-length dimension from the front of the array's shape, or,
    /// where the first dimension is longer, make the first two into one
    pub fn inv_fix(&mut self)
        requires
            old(self).wf(),
        ensures
            final(self).wf(),
            final(self)@ == unfixed(old(self)@),
    {
        let rank = self.shape.rank();
        let ghost sizes = self@.shape.sizes;
        if rank > 0 && self.shape.size(0) == 1 {
            proof {
                lemma_count_split(sizes, 1);
                assert(sizes.subrange(0, 1) =~= seq![1usize]);
                lemma_count_one(1);
                assert(without_range(sizes, 0, 1) =~= sizes.subrange(1, sizes.len() as int));
            }
            self.shape.drain(0, 1);
        } else if rank >= 2 {
            proof {
                assert(self@.data.len() == self.data.len());
                lemma_joined(sizes, 0, 2, self@.data.len());
            }
            let joined = match checked_count(self.shape.sizes(), 0, 2) {
                Some(n) => n,
                None => 0,
            };
            self.shape.drain(0, 2);
            self.shape.insert(0, Dimension::unmarked(joined));
            proof {
                let goal = unfixed(old(self)@);
                assert(self@.shape.sizes =~= goal.shape.sizes);
                assert(self@.shape.sizes =~= sizes.subrange(0, 0) + seq![joined] + sizes.subrange(
                    2,
                    sizes.len() as int,
                ));
            }
        }
    }
}

impl<V> ArrayView<V> {
    /// The array with the given flag
    pub open spec fn with_flag(self, boolean: bool) -> ArrayView<V> {
        ArrayView { shape: self.shape, data: self.data, boolean }
    }
}

} // verus!
