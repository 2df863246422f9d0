//! Values: an array of one of the five kinds of element. A box array holds
//! values as its elements, to any depth.

use vstd::prelude::*;
use crate::array::{views, Array, ArrayView};
use crate::element::ArrayValue;
use crate::error::Kind;
use crate::num::{Complex, Num};
use crate::order::{as_ints, compare_ints, Order};
use crate::shape::Shape;

verus! {

/// A value: an array of numbers, bytes, complex numbers, characters or boxes
pub enum Value {
    Num(Array<Num>),
    Byte(Array<u8>),
    Complex(Array<Complex>),
    Char(Array<char>),
    Box(Array<Boxed>),
}

/// A value as an element of a box array
pub struct Boxed(pub Value);

/// What a value is: the array it holds, with the boxes of a box array
/// replaced by what they hold
pub enum ValueView {
    Num(ArrayView<Num>),
    Byte(ArrayView<u8>),
    Complex(ArrayView<Complex>),
    Char(ArrayView<char>),
    Box(ArrayView<ValueView>),
}

/// What the value `v` is
pub open spec fn value_view(v: Value) -> ValueView
    decreases v,
{
    match v {
        Value::Num(a) => ValueView::Num(
            ArrayView { shape: a.shape@, data: a.data@, boolean: a.flags.boolean },
        ),
        Value::Byte(a) => ValueView::Byte(
            ArrayView { shape: a.shape@, data: a.data@, boolean: a.flags.boolean },
        ),
        Value::Complex(a) => ValueView::Complex(
            ArrayView { shape: a.shape@, data: a.data@, boolean: a.flags.boolean },
        ),
        Value::Char(a) => ValueView::Char(
            ArrayView { shape: a.shape@, data: a.data@, boolean: a.flags.boolean },
        ),
        Value::Box(a) => ValueView::Box(
            ArrayView {
                shape: a.shape@,
                data: Seq::new(
                    a.data@.len(),
                    |i: int|
                        if 0 <= i < a.data@.len() {
                            value_view(a.data@[i].0)
                        } else {
                            arbitrary()
                        },
                ),
                boolean: a.flags.boolean,
            },
        ),
    }
}

impl View for Boxed {
    type V = ValueView;

    open spec fn view(&self) -> ValueView {
        value_view(self.0)
    }
}

impl View for Value {
    type V = ValueView;

    open spec fn view(&self) -> ValueView {
        value_view(*self)
    }
}

/// The view of a value is the view of the array it holds.
pub proof fn lemma_value_view(v: Value)
    ensures
        match v {
            Value::Num(a) => v@ == ValueView::Num(a@),
            Value::Byte(a) => v@ == ValueView::Byte(a@),
            Value::Complex(a) => v@ == ValueView::Complex(a@),
            Value::Char(a) => v@ == ValueView::Char(a@),
            Value::Box(a) => v@ == ValueView::Box(a@),
        },
{
    match v {
        Value::Num(a) => {
            assert(a.data@ =~= views(a.data@));
        },
        Value::Byte(a) => {
            assert(a.data@ =~= views(a.data@));
        },
        Value::Complex(a) => {
            assert(a.data@ =~= views(a.data@));
        },
        Value::Char(a) => {
            assert(a.data@ =~= views(a.data@));
        },
        Value::Box(a) => {
            assert(v@->Box_0.data =~= views(a.data@));
        },
    }
}

/// The integers that the sizes are
pub open spec fn size_ints(sizes: Seq<usize>) -> Seq<int> {
    Seq::new(sizes.len(), |i: int| sizes[i] as int)
}

/// The integers by which values are ordered and told apart: the kind, the
/// rank, the sizes, and the keys of the elements in row-major order.
pub open spec fn value_key(v: ValueView) -> Seq<int>
    decreases v,
{
    match v {
        ValueView::Num(a) => seq![0int, a.shape.sizes.len() as int] + size_ints(a.shape.sizes)
            + Seq::new(a.data.len(), |i: int| a.data[i].key()),
        ValueView::Byte(a) => seq![1int, a.shape.sizes.len() as int] + size_ints(a.shape.sizes)
            + Seq::new(a.data.len(), |i: int| a.data[i] as int),
        ValueView::Complex(a) => seq![2int, a.shape.sizes.len() as int] + size_ints(
            a.shape.sizes,
        ) + complex_keys(a.data),
        ValueView::Char(a) => seq![3int, a.shape.sizes.len() as int] + size_ints(a.shape.sizes)
            + Seq::new(a.data.len(), |i: int| a.data[i] as u32 as int),
        ValueView::Box(a) => seq![4int, a.shape.sizes.len() as int] + size_ints(a.shape.sizes)
            + box_keys(a.data),
    }
}

/// The keys of complex numbers, one after the other
pub open spec fn complex_keys(s: Seq<Complex>) -> Seq<int> {
    Seq::new(2 * s.len(), |i: int| if i % 2 == 0 { s[i / 2].re.key() } else { s[i / 2].im.key() })
}

/// The keys of values, one after the other
pub open spec fn box_keys(s: Seq<ValueView>) -> Seq<int>
    decreases s,
{
    if s.len() == 0 {
        Seq::empty()
    } else {
        box_keys(s.drop_last()) + value_key(s.last())
    }
}

/// The value is valid: its array is, and so is every value in its boxes.
pub open spec fn value_wf(v: ValueView) -> bool
    decreases v,
{
    match v {
        ValueView::Num(a) => a.wf(),
        ValueView::Byte(a) => a.wf(),
        ValueView::Complex(a) => a.wf(),
        ValueView::Char(a) => a.wf(),
        ValueView::Box(a) => a.wf() && forall|i: int|
            0 <= i < a.data.len() ==> value_wf(#[trigger] a.data[i]),
    }
}

impl ValueView {
    /// The shape of the array that the value holds
    pub open spec fn shape(self) -> crate::shape::ShapeView {
        match self {
            ValueView::Num(a) => a.shape,
            ValueView::Byte(a) => a.shape,
            ValueView::Complex(a) => a.shape,
            ValueView::Char(a) => a.shape,
            ValueView::Box(a) => a.shape,
        }
    }

    /// The number of elements of the array that the value holds
    pub open spec fn len(self) -> nat {
        match self {
            ValueView::Num(a) => a.data.len(),
            ValueView::Byte(a) => a.data.len(),
            ValueView::Complex(a) => a.data.len(),
            ValueView::Char(a) => a.data.len(),
            ValueView::Box(a) => a.data.len(),
        }
    }

    /// The kind of the elements
    pub open spec fn kind(self) -> Kind {
        match self {
            ValueView::Num(_) => Kind::Num,
            ValueView::Byte(_) => Kind::Byte,
            ValueView::Complex(_) => Kind::Complex,
            ValueView::Char(_) => Kind::Char,
            ValueView::Box(_) => Kind::Box,
        }
    }
}

/// Where an operation finds the fill value
pub struct FillContext {
    /// The fill value, if one is set
    pub fill: Option<Value>,
}

impl FillContext {
    /// What the fill value is, if one is set
    pub open spec fn fill_view(&self) -> Option<ValueView> {
        match self.fill {
            Some(v) => Some(v@),
            None => None,
        }
    }

    /// The fill value, if one is set, is valid.
    pub open spec fn wf(&self) -> bool {
        match self.fill {
            Some(v) => value_wf(v@),
            None => true,
        }
    }

    /// A context without a fill value
    pub fn none() -> (env: FillContext)
        ensures
            env.fill_view().is_none(),
            env.wf(),
    {
        FillContext { fill: None }
    }

    /// A context with the given fill value
    pub fn with_fill(fill: Value) -> (env: FillContext)
        requires
            value_wf(fill@),
        ensures
            env.fill_view() == Some(fill@),
            env.wf(),
    {
        FillContext { fill: Some(fill) }
    }
}

impl Value {
    /// The value is valid: its array is, and so is every value in its boxes.
    pub open spec fn wf(&self) -> bool {
        value_wf(self@)
    }

    /// The shape of the array that the value holds
    pub fn shape(&self) -> (s: &Shape)
        ensures
            s@ == self@.shape(),
    {
        match self {
            Value::Num(a) => &a.shape,
            Value::Byte(a) => &a.shape,
            Value::Complex(a) => &a.shape,
            Value::Char(a) => &a.shape,
            Value::Box(a) => &a.shape,
        }
    }

    /// The number of dimensions
    pub fn rank(&self) -> (r: usize)
        ensures
            r == self@.shape().sizes.len(),
    {
        self.shape().rank()
    }

    /// The kind of the elements
    pub fn kind(&self) -> (k: Kind)
        ensures
            k == self@.kind(),
    {
        match self {
            Value::Num(_) => Kind::Num,
            Value::Byte(_) => Kind::Byte,
            Value::Complex(_) => Kind::Complex,
            Value::Char(_) => Kind::Char,
            Value::Box(_) => Kind::Box,
        }
    }

    /// The name of the kind of the elements in a message
    pub fn kind_name(&self) -> (r: &'static str)
        ensures
            r@ == self@.kind().name(),
    {
        self.kind().kind_name()
    }
}

/// The integers of a vector with one more item are those of the vector and
/// that item.
pub proof fn lemma_as_ints_push(v: Seq<i128>, x: i128)
    ensures
        as_ints(v.push(x)) == as_ints(v).push(x as int),
{
    assert(as_ints(v.push(x)) =~= as_ints(v).push(x as int));
}

/// Adds to `out` the start of a value's key: the number of its kind, its
/// rank and its sizes.
fn push_header(tag: i128, shape: &Shape, out: &mut Vec<i128>)
    ensures
        as_ints(final(out)@) == as_ints(old(out)@) + seq![tag as int, shape@.sizes.len() as int]
            + size_ints(shape@.sizes),
{
    let ghost start = as_ints(out@);
    let sizes = shape.sizes();
    let ghost at_start = out@;
    out.push(tag);
    let ghost tagged = out@;
    out.push(sizes.len() as i128);
    let ghost head = seq![tag as int, shape@.sizes.len() as int];
    proof {
        lemma_as_ints_push(at_start, tag);
        lemma_as_ints_push(tagged, sizes@.len() as i128);
        assert(as_ints(out@) =~= start + head);
        assert(size_ints(sizes@.subrange(0, 0)) =~= Seq::<int>::empty());
    }
    let mut i: usize = 0;
    while i < sizes.len()
        invariant
            i <= sizes@.len(),
            sizes@ == shape@.sizes,
            as_ints(out@) == start + head + size_ints(sizes@.subrange(0, i as int)),
        decreases sizes@.len() - i,
    {
        let ghost before = out@;
        out.push(sizes[i] as i128);
        proof {
            lemma_as_ints_push(before, sizes[i as int] as i128);
            assert(size_ints(sizes@.subrange(0, i + 1)) =~= size_ints(
                sizes@.subrange(0, i as int),
            ).push(sizes@[i as int] as int));
            assert(as_ints(out@) =~= start + head + size_ints(sizes@.subrange(0, i + 1)));
        }
        i += 1;
    }
    assert(sizes@.subrange(0, sizes@.len() as int) =~= sizes@);
}

impl Value {
    /// A copy of the value
    pub fn duplicate(&self) -> (r: Value)
        ensures
            r@ == self@,
        decreases self,
    {
        match self {
            Value::Num(a) => {
                let data = a.data.clone();
                assert(data@ =~= a.data@);
                Value::Num(Array { shape: a.shape.clone(), data, flags: a.flags })
            },
            Value::Byte(a) => {
                let data = a.data.clone();
                assert(data@ =~= a.data@);
                Value::Byte(Array { shape: a.shape.clone(), data, flags: a.flags })
            },
            Value::Complex(a) => {
                let data = a.data.clone();
                assert(data@ =~= a.data@);
                Value::Complex(Array { shape: a.shape.clone(), data, flags: a.flags })
            },
            Value::Char(a) => {
                let data = a.data.clone();
                assert(data@ =~= a.data@);
                Value::Char(Array { shape: a.shape.clone(), data, flags: a.flags })
            },
            Value::Box(a) => {
                let mut data: Vec<Boxed> = Vec::with_capacity(a.data.len());
                let mut i: usize = 0;
                while i < a.data.len()
                    invariant
                        i <= a.data@.len(),
                        data@.len() == i,
                        *self == Value::Box(*a),
                        forall|k: int| 0 <= k < i ==> data@[k]@ == a.data@[k]@,
                    decreases a.data@.len() - i,
                {
                    proof {
                        assert(self->Box_0 == *a);
                        assert(decreases_to!(*self => self->Box_0));
                        assert(decreases_to!(*a => a.data));
                        assert(decreases_to!(a.data => a.data[i as int]));
                    }
                    let x = a.data[i].0.duplicate();
                    data.push(Boxed(x));
                    i += 1;
                }
                let r = Value::Box(Array { shape: a.shape.clone(), data, flags: a.flags });
                assert(r@->Box_0.data =~= self@->Box_0.data);
                r
            },
        }
    }

    /// Adds the key of the value to `out`.
    pub fn push_key(&self, out: &mut Vec<i128>)
        ensures
            as_ints(final(out)@) == as_ints(old(out)@) + value_key(self@),
        decreases self,
    {
        let ghost start = as_ints(out@);
        match self {
            Value::Num(a) => {
                push_header(0, &a.shape, out);
                let ghost head = as_ints(out@);
                let mut i: usize = 0;
                while i < a.data.len()
                    invariant
                        i <= a.data@.len(),
                        as_ints(out@) == head + Seq::new(i as nat, |k: int| a.data@[k].key()),
                    decreases a.data@.len() - i,
                {
                    let ghost before = out@;
                    out.push(a.data[i].order_key());
                    proof {
                        lemma_as_ints_push(before, a.data@[i as int].key() as i128);
                        assert(Seq::new((i + 1) as nat, |k: int| a.data@[k].key()) =~= Seq::new(
                            i as nat,
                            |k: int| a.data@[k].key(),
                        ).push(a.data@[i as int].key()));
                        assert(as_ints(out@) =~= head + Seq::new(
                            (i + 1) as nat,
                            |k: int| a.data@[k].key(),
                        ));
                    }
                    i += 1;
                }
                assert(as_ints(out@) =~= start + value_key(self@));
            },
            Value::Byte(a) => {
                push_header(1, &a.shape, out);
                let ghost head = as_ints(out@);
                let mut i: usize = 0;
                while i < a.data.len()
                    invariant
                        i <= a.data@.len(),
                        as_ints(out@) == head + Seq::new(i as nat, |k: int| a.data@[k] as int),
                    decreases a.data@.len() - i,
                {
                    let ghost before = out@;
                    out.push(a.data[i] as i128);
                    proof {
                        lemma_as_ints_push(before, a.data@[i as int] as i128);
                        assert(Seq::new((i + 1) as nat, |k: int| a.data@[k] as int) =~= Seq::new(
                            i as nat,
                            |k: int| a.data@[k] as int,
                        ).push(a.data@[i as int] as int));
                        assert(as_ints(out@) =~= head + Seq::new(
                            (i + 1) as nat,
                            |k: int| a.data@[k] as int,
                        ));
                    }
                    i += 1;
                }
                assert(as_ints(out@) =~= start + value_key(self@));
            },
            Value::Complex(a) => {
                push_header(2, &a.shape, out);
                let ghost head = as_ints(out@);
                let mut i: usize = 0;
                while i < a.data.len()
                    invariant
                        i <= a.data@.len(),
                        as_ints(out@) == head + complex_keys(a.data@.subrange(0, i as int)),
                    decreases a.data@.len() - i,
                {
                    let ghost before = out@;
                    out.push(a.data[i].re.order_key());
                    let ghost between = out@;
                    out.push(a.data[i].im.order_key());
                    proof {
                        lemma_as_ints_push(before, a.data@[i as int].re.key() as i128);
                        lemma_as_ints_push(between, a.data@[i as int].im.key() as i128);
                        let done = complex_keys(a.data@.subrange(0, i as int));
                        let next = complex_keys(a.data@.subrange(0, i + 1));
                        assert(next =~= done.push(a.data@[i as int].re.key()).push(
                            a.data@[i as int].im.key(),
                        ));
                        assert(as_ints(out@) =~= head + next);
                    }
                    i += 1;
                }
                assert(a.data@.subrange(0, a.data@.len() as int) =~= a.data@);
                assert(as_ints(out@) =~= start + value_key(self@));
            },
            Value::Char(a) => {
                push_header(3, &a.shape, out);
                let ghost head = as_ints(out@);
                let mut i: usize = 0;
                while i < a.data.len()
                    invariant
                        i <= a.data@.len(),
                        as_ints(out@) == head + Seq::new(
                            i as nat,
                            |k: int| a.data@[k] as u32 as int,
                        ),
                    decreases a.data@.len() - i,
                {
                    let ghost before = out@;
                    out.push(a.data[i] as u32 as i128);
                    proof {
                        lemma_as_ints_push(before, a.data@[i as int] as u32 as i128);
                        assert(Seq::new((i + 1) as nat, |k: int| a.data@[k] as u32 as int)
                            =~= Seq::new(i as nat, |k: int| a.data@[k] as u32 as int).push(
                            a.data@[i as int] as u32 as int,
                        ));
                        assert(as_ints(out@) =~= head + Seq::new(
                            (i + 1) as nat,
                            |k: int| a.data@[k] as u32 as int,
                        ));
                    }
                    i += 1;
                }
                assert(as_ints(out@) =~= start + value_key(self@));
            },
            Value::Box(a) => {
                push_header(4, &a.shape, out);
                let ghost head = as_ints(out@);
                let ghost items = self@->Box_0.data;
                let mut i: usize = 0;
                assert(items.subrange(0, 0) =~= Seq::<ValueView>::empty());
                while i < a.data.len()
                    invariant
                        i <= a.data@.len(),
                        *self == Value::Box(*a),
                        items == self@->Box_0.data,
                        items.len() == a.data@.len(),
                        as_ints(out@) == head + box_keys(items.subrange(0, i as int)),
                    decreases a.data@.len() - i,
                {
                    proof {
                        assert(self->Box_0 == *a);
                        assert(decreases_to!(*self => self->Box_0));
                        assert(decreases_to!(*a => a.data));
                        assert(decreases_to!(a.data => a.data[i as int]));
                        assert(items.subrange(0, i + 1).drop_last() =~= items.subrange(
                            0,
                            i as int,
                        ));
                        assert(items.subrange(0, i + 1).last() == a.data@[i as int].0@);
                    }
                    let ghost before = as_ints(out@);
                    a.data[i].0.push_key(out);
                    assert(as_ints(out@) =~= head + box_keys(items.subrange(0, i + 1)));
                    i += 1;
                }
                assert(items.subrange(0, items.len() as int) =~= items);
                assert(as_ints(out@) =~= start + value_key(self@));
            },
        }
    }

    /// Whether the value is valid: its array is, and so is every value in
    /// its boxes
    pub fn validate(&self) -> (r: bool)
        ensures
            r == self.wf(),
        decreases self,
    {
        match self {
            Value::Num(a) => {
                assert(crate::array::views(a.data@) =~= a.data@);
                a.shape.is_valid() && a.validate_shape()
            },
            Value::Byte(a) => {
                assert(crate::array::views(a.data@) =~= a.data@);
                a.shape.is_valid() && a.validate_shape()
            },
            Value::Complex(a) => {
                assert(crate::array::views(a.data@) =~= a.data@);
                a.shape.is_valid() && a.validate_shape()
            },
            Value::Char(a) => {
                assert(crate::array::views(a.data@) =~= a.data@);
                a.shape.is_valid() && a.validate_shape()
            },
            Value::Box(a) => {
                let ghost items = self@->Box_0.data;
                assert(items =~= crate::array::views(a.data@));
                if !(a.shape.is_valid() && a.validate_shape()) {
                    return false;
                }
                let mut i: usize = 0;
                while i < a.data.len()
                    invariant
                        i <= a.data@.len(),
                        *self == Value::Box(*a),
                        items == self@->Box_0.data,
                        items.len() == a.data@.len(),
                        forall|k: int| 0 <= k < i ==> value_wf(#[trigger] items[k]),
                    decreases a.data@.len() - i,
                {
                    proof {
                        assert(self->Box_0 == *a);
                        assert(decreases_to!(*self => self->Box_0));
                        assert(decreases_to!(*a => a.data));
                        assert(decreases_to!(a.data => a.data[i as int]));
                        assert(items[i as int] == a.data@[i as int]@);
                    }
                    if !a.data[i].0.validate() {
                        assert(!value_wf(items[i as int]));
                        return false;
                    }
                    i += 1;
                }
                true
            },
        }
    }

    /// The key of the value
    pub fn key(&self) -> (r: Vec<i128>)
        ensures
            as_ints(r@) == value_key(self@),
    {
        let mut out: Vec<i128> = Vec::new();
        self.push_key(&mut out);
        assert(as_ints(out@) =~= value_key(self@));
        out
    }
}

impl ArrayValue for Boxed {
    open spec fn key(v: ValueView) -> Seq<int> {
        value_key(v)
    }

    open spec fn element_kind() -> Kind {
        Kind::Box
    }

    /// What a scalar box holds, or any other value as it is
    open spec fn fill_of(fill: Option<ValueView>) -> Option<ValueView> {
        match fill {
            Some(ValueView::Box(a)) => crate::element::scalar_of(a),
            Some(v) => Some(v),
            None => None,
        }
    }

    fn kind() -> (k: Kind) {
        Kind::Box
    }

    fn compare(&self, other: &Self) -> (o: Order) {
        let a = self.0.key();
        let b = other.0.key();
        compare_ints(&a, &b)
    }

    fn duplicate(&self) -> (r: Self) {
        Boxed(self.0.duplicate())
    }

    fn get_fill(env: &FillContext) -> (r: Option<Self>) {
        match &env.fill {
            Some(Value::Box(a)) => {
                let ghost held = env.fill_view()->Some_0->Box_0;
                assert(held.data.len() == a.data@.len());
                if a.shape.rank() == 0 && a.data.len() == 1 {
                    assert(held.data[0] == a.data@[0]@);
                    Some(a.data[0].duplicate())
                } else {
                    None
                }
            },
            Some(v) => Some(Boxed(v.duplicate())),
            None => None,
        }
    }
}

} // verus!
