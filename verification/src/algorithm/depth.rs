//! Operations at a depth: on the array of a value, or on the values in its
//! boxes.

use vstd::prelude::*;
use crate::array::{Array, ArrayView};
use crate::algorithm::reshape::{deshaped, lemma_deshape_keeps};
use crate::algorithm::reverse::reversed;
use crate::algorithm::transpose::transposed;
use crate::element::ArrayValue;
use crate::value::{lemma_value_view, value_wf, Value, ValueView};

verus! {

/// An operation that changes an array in place and takes a depth
#[derive(Clone, Copy, PartialEq, Eq, Structural, Debug)]
pub enum DepthOp {
    /// Make the dimensions from the depth on into one
    Deshape,
    /// Reverse the rows at the depth
    Reverse,
    /// Rotate the axes from the depth on by the given amount
    Transpose(i32),
}

impl DepthOp {
    /// What the operation makes of an array
    pub open spec fn on<V>(self, a: ArrayView<V>, depth: nat) -> ArrayView<V> {
        match self {
            DepthOp::Deshape => deshaped(a, depth),
            DepthOp::Reverse => reversed(a, depth),
            DepthOp::Transpose(amount) => transposed(a, depth, amount as int),
        }
    }

    /// What the operation makes of the array of a value
    pub open spec fn on_value(self, v: ValueView, depth: nat) -> ValueView {
        match v {
            ValueView::Num(a) => ValueView::Num(self.on(a, depth)),
            ValueView::Byte(a) => ValueView::Byte(self.on(a, depth)),
            ValueView::Complex(a) => ValueView::Complex(self.on(a, depth)),
            ValueView::Char(a) => ValueView::Char(self.on(a, depth)),
            ValueView::Box(a) => ValueView::Box(self.on(a, depth)),
        }
    }
}

/// What an operation at a depth makes of a value. In a box array that is a
/// scalar, it goes on in the value that the box holds, at the same depth.
/// In a box array that is a list, at a depth above zero, it goes on in each
/// of the boxes, one level less deep. Everywhere else it works on the
/// array of the value itself.
pub open spec fn value_at_depth(v: ValueView, op: DepthOp, depth: nat) -> ValueView
    decreases v,
{
    match v {
        ValueView::Box(a) => {
            if a.shape.sizes.len() == 0 && a.data.len() == 1 {
                ValueView::Box(
                    ArrayView {
                        shape: a.shape,
                        data: seq![value_at_depth(a.data[0], op, depth)],
                        boolean: a.boolean,
                    },
                )
            } else if depth > 0 && a.shape.sizes.len() <= 1 {
                ValueView::Box(
                    ArrayView {
                        shape: a.shape,
                        data: Seq::new(
                            a.data.len(),
                            |i: int|
                                if 0 <= i < a.data.len() {
                                    value_at_depth(a.data[i], op, (depth - 1) as nat)
                                } else {
                                    arbitrary()
                                },
                        ),
                        boolean: a.boolean,
                    },
                )
            } else {
                op.on_value(v, depth)
            }
        },
        _ => op.on_value(v, depth),
    }
}

impl<T: ArrayValue> Array<T> {
    /// Does the operation on the array.
    pub fn apply(&mut self, op: DepthOp, depth: usize)
        requires
            old(self).wf(),
        ensures
            final(self).wf(),
            final(self)@ == op.on(old(self)@, depth as nat),
    {
        match op {
            DepthOp::Deshape => self.deshape_depth(depth),
            DepthOp::Reverse => self.reverse_depth(depth),
            DepthOp::Transpose(amount) => self.transpose_depth(depth, amount),
        }
    }
}

impl Value {
    /// Does the operation on the value, at the given depth.
    pub fn at_depth(&mut self, op: DepthOp, depth: usize)
        requires
            old(self).wf(),
        ensures
            final(self).wf(),
            final(self)@ == value_at_depth(old(self)@, op, depth as nat),
        decreases *old(self),
    {
        proof {
            lemma_value_view(*self);
        }
        match self {
            Value::Num(a) => {
                a.apply(op, depth);
                proof {
                    lemma_value_view(Value::Num(*a));
                }
            },
            Value::Byte(a) => {
                a.apply(op, depth);
                proof {
                    lemma_value_view(Value::Byte(*a));
                }
            },
            Value::Complex(a) => {
                a.apply(op, depth);
                proof {
                    lemma_value_view(Value::Complex(*a));
                }
            },
            Value::Char(a) => {
                a.apply(op, depth);
                proof {
                    lemma_value_view(Value::Char(*a));
                }
            },
            Value::Box(a) => {
                let ghost before = a@;
                let ghost items = a.data@;
                let rank = a.shape.rank();
                let n = a.data.len();
                proof {
                    assert(before.data.len() == n);
                    assert(old(self)->Box_0 == *a);
                    assert(decreases_to!(*old(self) => old(self)->Box_0));
                    assert(decreases_to!(*a => a.data));
                    assert forall|j: int| 0 <= j < n implies decreases_to!(*old(self) => (
                    #[trigger] items[j]).0) by {
                        assert(decreases_to!(a.data => a.data[j]));
                        assert(decreases_to!(a.data[j] => a.data[j].0));
                    }
                    assert forall|j: int| 0 <= j < n implies value_wf(#[trigger] items[j]@) by {
                        assert(old(self)@->Box_0.data[j] == items[j]@);
                    }
                }
                if rank == 0 && n == 1 {
                    a.data[0].0.at_depth(op, depth);
                    proof {
                        lemma_value_view(Value::Box(*a));
                        let goal = value_at_depth(old(self)@, op, depth as nat);
                        assert(a@.data =~= goal->Box_0.data);
                    }
                } else if depth > 0 && rank <= 1 {
                    let mut i: usize = 0;
                    while i < n
                        invariant
                            i <= n,
                            n == a.data@.len(),
                            items.len() == n,
                            a.shape@ == before.shape,
                            a.flags.boolean == before.boolean,
                            depth > 0,
                            forall|j: int| 0 <= j < n ==> decreases_to!(*old(self) => (
                            #[trigger] items[j]).0),
                            forall|j: int| i <= j < n ==> a.data@[j] == items[j],
                            forall|j: int| 0 <= j < n ==> value_wf(#[trigger] items[j]@),
                            forall|j: int|
                                0 <= j < i ==> (#[trigger] a.data@[j])@ == value_at_depth(
                                    items[j]@,
                                    op,
                                    (depth - 1) as nat,
                                ) && value_wf(a.data@[j]@),
                        decreases n - i,
                    {
                        assert(a.data@[i as int] == items[i as int]);
                        assert(decreases_to!(*old(self) => items[i as int].0));
                        assert(value_wf(items[i as int]@));
                        a.data[i].0.at_depth(op, depth - 1);
                        i += 1;
                    }
                    proof {
                        lemma_value_view(Value::Box(*a));
                        let goal = value_at_depth(old(self)@, op, depth as nat);
                        assert(a@.data =~= goal->Box_0.data);
                    }
                } else {
                    a.apply(op, depth);
                    proof {
                        lemma_value_view(Value::Box(*a));
                        lemma_on_keeps_items(before, op, depth as nat);
                    }
                }
            },
        }
    }

    /// Make the value 1-dimensional
    pub fn deshape(&mut self)
        requires
            old(self).wf(),
        ensures
            final(self).wf(),
            final(self)@ == value_at_depth(old(self)@, DepthOp::Deshape, 0),
    {
        self.at_depth(DepthOp::Deshape, 0);
    }

    /// Make the dimensions from `depth` on into one
    pub fn deshape_depth(&mut self, depth: usize)
        requires
            old(self).wf(),
        ensures
            final(self).wf(),
            final(self)@ == value_at_depth(old(self)@, DepthOp::Deshape, depth as nat),
    {
        self.at_depth(DepthOp::Deshape, depth);
    }

    /// Reverse the rows of the value
    pub fn reverse(&mut self)
        requires
            old(self).wf(),
        ensures
            final(self).wf(),
            final(self)@ == value_at_depth(old(self)@, DepthOp::Reverse, 0),
    {
        self.at_depth(DepthOp::Reverse, 0);
    }

    /// Reverse the rows of the value at the given depth
    pub fn reverse_depth(&mut self, depth: usize)
        requires
            old(self).wf(),
        ensures
            final(self).wf(),
            final(self)@ == value_at_depth(old(self)@, DepthOp::Reverse, depth as nat),
    {
        self.at_depth(DepthOp::Reverse, depth);
    }

    /// Transpose the value
    pub fn transpose(&mut self)
        requires
            old(self).wf(),
        ensures
            final(self).wf(),
            final(self)@ == value_at_depth(old(self)@, DepthOp::Transpose(1), 0),
    {
        self.at_depth(DepthOp::Transpose(1), 0);
    }

    /// Rotate the axes of the value from `depth` on by `amnt`
    pub fn transpose_depth(&mut self, depth: usize, amnt: i32)
        requires
            old(self).wf(),
        ensures
            final(self).wf(),
            final(self)@ == value_at_depth(old(self)@, DepthOp::Transpose(amnt), depth as nat),
    {
        self.at_depth(DepthOp::Transpose(amnt), depth);
    }
}

/// An operation at a depth on a box array leaves every box as it is, in
/// another place at most.
pub proof fn lemma_on_keeps_items(a: ArrayView<ValueView>, op: DepthOp, depth: nat)
    requires
        a.wf(),
        a.data.len() <= usize::MAX,
        forall|i: int| 0 <= i < a.data.len() ==> value_wf(#[trigger] a.data[i]),
    ensures
        op.on(a, depth).wf(),
        forall|i: int|
            0 <= i < op.on(a, depth).data.len() ==> value_wf(#[trigger] op.on(a, depth).data[i]),
{
    match op {
        DepthOp::Deshape => {
            lemma_deshape_keeps(a, depth);
        },
        DepthOp::Reverse => {
            crate::algorithm::reverse::lemma_reversed_items(a, depth);
            let r = op.on(a, depth);
            assert forall|i: int| 0 <= i < r.data.len() implies value_wf(#[trigger] r.data[i]) by {
                assert(a.data.contains(r.data[i]));
            }
        },
        DepthOp::Transpose(amount) => {
            crate::algorithm::transpose::lemma_transposed_items(a, depth, amount as int);
            let r = op.on(a, depth);
            assert forall|i: int| 0 <= i < r.data.len() implies value_wf(#[trigger] r.data[i]) by {
                assert(a.data.contains(r.data[i]));
            }
        },
    }
}

/// In a list of boxes, an operation at a depth above zero works in every
/// box, one level less deep, and leaves the boxes in their order. At depth
/// zero it works on the list itself and leaves every box as it is.
pub proof fn lemma_at_depth_in_list(a: ArrayView<ValueView>, op: DepthOp, depth: nat)
    requires
        a.shape.sizes.len() == 1,
    ensures
        value_at_depth(ValueView::Box(a), op, depth) is Box,
        depth > 0 ==> {
            let r = value_at_depth(ValueView::Box(a), op, depth)->Box_0;
            &&& r.shape == a.shape
            &&& r.data.len() == a.data.len()
            &&& forall|i: int|
                0 <= i < a.data.len() ==> #[trigger] r.data[i] == value_at_depth(
                    a.data[i],
                    op,
                    (depth - 1) as nat,
                )
        },
        depth == 0 ==> value_at_depth(ValueView::Box(a), op, depth) == ValueView::Box(
            op.on(a, 0),
        ),
{
}

/// Reversing a value twice at one depth restores it.
pub proof fn lemma_value_reverse_twice(v: ValueView, depth: nat)
    requires
        value_wf(v),
    ensures
        value_at_depth(value_at_depth(v, DepthOp::Reverse, depth), DepthOp::Reverse, depth) == v,
    decreases v,
{
    let op = DepthOp::Reverse;
    let once = value_at_depth(v, op, depth);
    match v {
        ValueView::Box(a) => {
            if a.shape.sizes.len() == 0 && a.data.len() == 1 {
                lemma_value_reverse_twice(a.data[0], depth);
                assert(value_at_depth(once, op, depth)->Box_0.data =~= a.data);
            } else if depth > 0 && a.shape.sizes.len() <= 1 {
                assert forall|i: int| 0 <= i < a.data.len() implies value_at_depth(
                    once,
                    op,
                    depth,
                )->Box_0.data[i] == a.data[i] by {
                    lemma_value_reverse_twice(a.data[i], (depth - 1) as nat);
                }
                assert(value_at_depth(once, op, depth)->Box_0.data =~= a.data);
            } else {
                crate::algorithm::reverse::lemma_reverse_twice(a, depth);
                crate::algorithm::reverse::lemma_reversed_items(a, depth);
            }
        },
        ValueView::Num(a) => {
            crate::algorithm::reverse::lemma_reverse_twice(a, depth);
        },
        ValueView::Byte(a) => {
            crate::algorithm::reverse::lemma_reverse_twice(a, depth);
        },
        ValueView::Complex(a) => {
            crate::algorithm::reverse::lemma_reverse_twice(a, depth);
        },
        ValueView::Char(a) => {
            crate::algorithm::reverse::lemma_reverse_twice(a, depth);
        },
    }
}

/// Transposing a value by an amount and then by its opposite, at one
/// depth, restores it.
pub proof fn lemma_value_transpose_back(v: ValueView, depth: nat, amount: i32)
    requires
        value_wf(v),
        amount != i32::MIN,
    ensures
        value_at_depth(
            value_at_depth(v, DepthOp::Transpose(amount), depth),
            DepthOp::Transpose((-amount) as i32),
            depth,
        ) == v,
    decreases v,
{
    let op = DepthOp::Transpose(amount);
    let back = DepthOp::Transpose((-amount) as i32);
    let once = value_at_depth(v, op, depth);
    match v {
        ValueView::Box(a) => {
            if a.shape.sizes.len() == 0 && a.data.len() == 1 {
                lemma_value_transpose_back(a.data[0], depth, amount);
                assert(value_at_depth(once, back, depth)->Box_0.data =~= a.data);
            } else if depth > 0 && a.shape.sizes.len() <= 1 {
                assert forall|i: int| 0 <= i < a.data.len() implies value_at_depth(
                    once,
                    back,
                    depth,
                )->Box_0.data[i] == a.data[i] by {
                    lemma_value_transpose_back(a.data[i], (depth - 1) as nat, amount);
                }
                assert(value_at_depth(once, back, depth)->Box_0.data =~= a.data);
            } else {
                crate::algorithm::transpose::lemma_transpose_back(a, depth, amount as int);
                crate::algorithm::transpose::lemma_transposed_items(a, depth, amount as int);
            }
        },
        ValueView::Num(a) => {
            crate::algorithm::transpose::lemma_transpose_back(a, depth, amount as int);
        },
        ValueView::Byte(a) => {
            crate::algorithm::transpose::lemma_transpose_back(a, depth, amount as int);
        },
        ValueView::Complex(a) => {
            crate::algorithm::transpose::lemma_transpose_back(a, depth, amount as int);
        },
        ValueView::Char(a) => {
            crate::algorithm::transpose::lemma_transpose_back(a, depth, amount as int);
        },
    }
}

} // verus!
