//! Operations on the array that a value holds at the bottom of its boxes.

use vstd::prelude::*;
use crate::array::{agrees, list_view, scalar_view, views, Array, ArrayView};
use crate::algorithm::bits::{bits_model, inverse_bits_model};
use crate::algorithm::classify::classes;
use crate::algorithm::extremum::is_extreme_index;
use crate::algorithm::reshape::{fixed, unfixed};
use crate::algorithm::rows::{end_row, with_end_row};
use crate::algorithm::sort::is_ordering;
use crate::algorithm::wher::{nums_of, to_nums};
use crate::element::ArrayValue;
use crate::error::{ErrorKind, ErrorView, Op, UiuaError, failure};
use crate::num::{num_of_nat, Complex, Num};
use crate::value::{lemma_value_view, value_wf, Boxed, FillContext, Value, ValueView};

verus! {

/// The value is a box array that is a scalar.
pub open spec fn boxed_scalar(v: ValueView) -> bool {
    v is Box && v->Box_0.shape.sizes.len() == 0 && v->Box_0.data.len() == 1
}

/// The value at the bottom of the boxes: what a scalar box holds, and what
/// a scalar box in it holds, and so on; the value itself where it is no
/// scalar box.
pub open spec fn unboxed(v: ValueView) -> ValueView
    decreases v,
{
    match v {
        ValueView::Box(a) => if a.shape.sizes.len() == 0 && a.data.len() == 1 {
            unboxed(a.data[0])
        } else {
            v
        },
        _ => v,
    }
}

/// The value with `w` at the bottom of its boxes
pub open spec fn reboxed(v: ValueView, w: ValueView) -> ValueView
    decreases v,
{
    match v {
        ValueView::Box(a) => if a.shape.sizes.len() == 0 && a.data.len() == 1 {
            ValueView::Box(
                ArrayView { shape: a.shape, data: seq![reboxed(a.data[0], w)], boolean: a.boolean },
            )
        } else {
            w
        },
        _ => w,
    }
}

/// What is at the bottom of the boxes of a valid value is valid, and no
/// scalar box.
pub proof fn lemma_unboxed(v: ValueView)
    requires
        value_wf(v),
    ensures
        value_wf(unboxed(v)),
        !boxed_scalar(unboxed(v)),
    decreases v,
{
    match v {
        ValueView::Box(a) => {
            if a.shape.sizes.len() == 0 && a.data.len() == 1 {
                lemma_unboxed(a.data[0]);
            }
        },
        _ => {},
    }
}

/// The number of rows of the array of a value
pub open spec fn value_rows(v: ValueView) -> int {
    if v.shape().sizes.len() == 0 {
        1
    } else {
        v.shape().sizes[0] as int
    }
}

/// The number of elements in a row of the array of a value
pub open spec fn value_row_len(v: ValueView) -> int {
    if v.shape().sizes.len() == 0 {
        1
    } else {
        crate::array::count(v.shape().sizes.skip(1)) as int
    }
}

/// `p` lists the rows of the array of a value in sorted order.
pub open spec fn value_is_ordering(v: ValueView, p: Seq<usize>, descending: bool) -> bool {
    let len = value_row_len(v);
    let n = value_rows(v);
    match v {
        ValueView::Num(a) => is_ordering::<Num>(a.data, len, n, p, descending),
        ValueView::Byte(a) => is_ordering::<u8>(a.data, len, n, p, descending),
        ValueView::Complex(a) => is_ordering::<Complex>(a.data, len, n, p, descending),
        ValueView::Char(a) => is_ordering::<char>(a.data, len, n, p, descending),
        ValueView::Box(a) => is_ordering::<Boxed>(a.data, len, n, p, descending),
    }
}

/// The classes of the rows of the array of a value
pub open spec fn value_classes(v: ValueView) -> Seq<usize> {
    let len = value_row_len(v);
    let n = value_rows(v);
    match v {
        ValueView::Num(a) => classes::<Num>(a.data, len, n),
        ValueView::Byte(a) => classes::<u8>(a.data, len, n),
        ValueView::Complex(a) => classes::<Complex>(a.data, len, n),
        ValueView::Char(a) => classes::<char>(a.data, len, n),
        ValueView::Box(a) => classes::<Boxed>(a.data, len, n),
    }
}

/// Whether `r` is the place of the least row of the array of a value, or
/// of the greatest
pub open spec fn value_is_extreme_index(
    v: ValueView,
    fill: Option<ValueView>,
    greatest: bool,
    last: bool,
    r: Result<Num, ErrorView>,
) -> bool {
    match v {
        ValueView::Num(a) => is_extreme_index::<Num>(a, fill, greatest, last, r),
        ValueView::Byte(a) => is_extreme_index::<u8>(a, fill, greatest, last, r),
        ValueView::Complex(a) => is_extreme_index::<Complex>(a, fill, greatest, last, r),
        ValueView::Char(a) => is_extreme_index::<char>(a, fill, greatest, last, r),
        ValueView::Box(a) => is_extreme_index::<Boxed>(a, fill, greatest, last, r),
    }
}

/// The bytes as numbers
pub open spec fn widened(a: ArrayView<u8>) -> ArrayView<Num> {
    ArrayView {
        shape: a.shape,
        data: Seq::new(a.data.len(), |i: int| num_of_nat(a.data[i] as nat)),
        boolean: a.boolean,
    }
}

/// Every one of the numbers is 0 or 1.
pub open spec fn all_bits(s: Seq<Num>) -> bool {
    forall|i: int|
        0 <= i < s.len() ==> (#[trigger] s[i]).index_value() == Some(0usize) || s[i].index_value()
            == Some(1usize)
}

/// The numbers, each of them 0 or 1, as bytes
pub open spec fn narrowed(a: ArrayView<Num>) -> ArrayView<u8> {
    ArrayView {
        shape: a.shape,
        data: Seq::new(a.data.len(), |i: int| a.data[i].index_value().unwrap() as u8),
        boolean: a.boolean,
    }
}

/// What the binary digits of a value are: those of its numbers, or of its
/// bytes as numbers. It is an error for any other kind of value.
pub open spec fn value_bits_model(v: ValueView) -> Result<ArrayView<u8>, ErrorView> {
    match v {
        ValueView::Num(a) => bits_model(a),
        ValueView::Byte(a) => bits_model(widened(a)),
        _ => Err(failure(Op::Bits, ErrorKind::WrongKind(v.kind()))),
    }
}

/// What the numbers are that the binary digits of a value make: its bytes
/// are the digits, or its numbers, where each of them is 0 or 1. It is an
/// error for any other kind of value, and for a number that is neither.
pub open spec fn value_inverse_bits_model(v: ValueView) -> Result<ArrayView<Num>, ErrorView> {
    match v {
        ValueView::Byte(a) => inverse_bits_model(a),
        ValueView::Num(a) => if all_bits(a.data) {
            inverse_bits_model(narrowed(a))
        } else {
            Err(failure(Op::InverseBits, ErrorKind::NotBoolean))
        },
        _ => Err(
            failure(Op::InverseBits, ErrorKind::WrongKind(v.kind())),
        ),
    }
}

impl Array<u8> {
    /// The bytes as numbers.
    pub fn widen(&self) -> (r: Array<Num>)
        requires
            self.wf(),
        ensures
            r.wf(),
            r@ == widened(self@),
    {
        let mut data: Vec<Num> = Vec::with_capacity(self.data.len());
        let mut i: usize = 0;
        while i < self.data.len()
            invariant
                i <= self.data@.len(),
                data@.len() == i,
                forall|k: int| 0 <= k < i ==> #[trigger] data@[k] == num_of_nat(self.data@[k] as nat),
            decreases self.data@.len() - i,
        {
            data.push(Num::from_u128(self.data[i] as u128));
            i += 1;
        }
        let r = Array { shape: self.shape.clone(), data, flags: self.flags };
        assert(r@.data =~= widened(self@).data);
        r
    }
}

impl Array<Num> {
    /// The numbers as bytes, where each of them is 0 or 1.
    pub fn narrow(&self) -> (r: Option<Array<u8>>)
        requires
            self.wf(),
        ensures
            match r {
                Some(b) => all_bits(self@.data) && b.wf() && b@ == narrowed(self@),
                None => !all_bits(self@.data),
            },
    {
        let mut data: Vec<u8> = Vec::with_capacity(self.data.len());
        let mut i: usize = 0;
        assert(self@.data =~= self.data@);
        while i < self.data.len()
            invariant
                i <= self.data@.len(),
                self@.data == self.data@,
                data@.len() == i,
                forall|k: int|
                    0 <= k < i ==> (#[trigger] self.data@[k]).index_value() == Some(0usize)
                        || self.data@[k].index_value() == Some(1usize),
                forall|k: int|
                    0 <= k < i ==> #[trigger] data@[k] == self.data@[k].index_value().unwrap() as u8,
            decreases self.data@.len() - i,
        {
            match self.data[i].as_nat() {
                Some(n) => {
                    if n > 1 {
                        assert(!(self@.data[i as int].index_value() == Some(0usize)
                            || self@.data[i as int].index_value() == Some(1usize)));
                        return None;
                    }
                    data.push(n as u8);
                },
                None => {
                    assert(self@.data[i as int].index_value().is_none());
                    return None;
                },
            }
            i += 1;
        }
        let r = Array { shape: self.shape.clone(), data, flags: self.flags };
        assert(r@.data =~= narrowed(self@).data);
        Some(r)
    }
}

impl Value {
    /// The value at the bottom of the boxes.
    pub fn innermost(&self) -> (r: &Value)
        requires
            self.wf(),
        ensures
            r@ == unboxed(self@),
            r.wf(),
            !boxed_scalar(r@),
        decreases self,
    {
        proof {
            lemma_unboxed(self@);
        }
        match self {
            Value::Box(a) => {
                if a.shape.rank() == 0 && a.data.len() == 1 {
                    proof {
                        assert(self->Box_0 == *a);
                        assert(decreases_to!(*self => self->Box_0));
                        assert(decreases_to!(*a => a.data));
                        assert(decreases_to!(a.data => a.data[0]));
                        assert(decreases_to!(a.data[0] => a.data[0].0));
                        assert(self@->Box_0.data[0] == a.data@[0]@);
                    }
                    a.data[0].0.innermost()
                } else {
                    self
                }
            },
            _ => self,
        }
    }

    /// Get the `rise` of the value: the rows of the array at the bottom of
    /// its boxes, in ascending order
    pub fn rise(&self) -> (r: Result<Vec<usize>, UiuaError>)
        requires
            self.wf(),
        ensures
            is_value_ordering(unboxed(self@), false, r),
    {
        self.innermost().ordering_of(false)
    }

    /// Get the `fall` of the value: the rows of the array at the bottom of
    /// its boxes, in descending order
    pub fn fall(&self) -> (r: Result<Vec<usize>, UiuaError>)
        requires
            self.wf(),
        ensures
            is_value_ordering(unboxed(self@), true, r),
    {
        self.innermost().ordering_of(true)
    }

    /// The rows of the array of the value in sorted order.
    fn ordering_of(&self, descending: bool) -> (r: Result<Vec<usize>, UiuaError>)
        requires
            self.wf(),
        ensures
            is_value_ordering(self@, descending, r),
    {
        proof {
            lemma_value_view(*self);
        }
        if descending {
            match self {
                Value::Num(a) => a.fall(),
                Value::Byte(a) => a.fall(),
                Value::Complex(a) => a.fall(),
                Value::Char(a) => a.fall(),
                Value::Box(a) => a.fall(),
            }
        } else {
            match self {
                Value::Num(a) => a.rise(),
                Value::Byte(a) => a.rise(),
                Value::Complex(a) => a.rise(),
                Value::Char(a) => a.rise(),
                Value::Box(a) => a.rise(),
            }
        }
    }

    /// `classify` the rows of the value: the classes of the rows of the
    /// array at the bottom of its boxes, as a list of numbers
    pub fn classify(&self) -> (r: Result<Value, UiuaError>)
        requires
            self.wf(),
        ensures
            agrees(r, value_classify_model(unboxed(self@))),
            r is Ok ==> r->Ok_0.wf(),
    {
        let inner = self.innermost();
        proof {
            lemma_value_view(*inner);
        }
        let found = match inner {
            Value::Num(a) => a.classify(),
            Value::Byte(a) => a.classify(),
            Value::Complex(a) => a.classify(),
            Value::Char(a) => a.classify(),
            Value::Box(a) => a.classify(),
        };
        match found {
            Ok(found) => {
                let data = to_nums(&found);
                let v = Value::Num(Array::from_vec(data));
                proof {
                    lemma_value_view(v);
                    assert(views(data@) =~= nums_of(found@));
                }
                Ok(v)
            },
            Err(e) => Err(e),
        }
    }

    /// The place of the least row of the array at the bottom of the boxes,
    /// or of the greatest, as a scalar number.
    fn extreme_index_of(&self, env: &FillContext, greatest: bool, last: bool) -> (r: Result<
        Value,
        UiuaError,
    >)
        requires
            self.wf(),
            env.wf(),
        ensures
            is_value_extreme(unboxed(self@), env.fill_view(), greatest, last, r),
            r is Ok ==> r->Ok_0.wf(),
    {
        let inner = self.innermost();
        proof {
            lemma_value_view(*inner);
        }
        let found = if greatest {
            if last {
                match inner {
                    Value::Num(a) => a.last_max_index(env),
                    Value::Byte(a) => a.last_max_index(env),
                    Value::Complex(a) => a.last_max_index(env),
                    Value::Char(a) => a.last_max_index(env),
                    Value::Box(a) => a.last_max_index(env),
                }
            } else {
                match inner {
                    Value::Num(a) => a.first_max_index(env),
                    Value::Byte(a) => a.first_max_index(env),
                    Value::Complex(a) => a.first_max_index(env),
                    Value::Char(a) => a.first_max_index(env),
                    Value::Box(a) => a.first_max_index(env),
                }
            }
        } else {
            if last {
                match inner {
                    Value::Num(a) => a.last_min_index(env),
                    Value::Byte(a) => a.last_min_index(env),
                    Value::Complex(a) => a.last_min_index(env),
                    Value::Char(a) => a.last_min_index(env),
                    Value::Box(a) => a.last_min_index(env),
                }
            } else {
                match inner {
                    Value::Num(a) => a.first_min_index(env),
                    Value::Byte(a) => a.first_min_index(env),
                    Value::Complex(a) => a.first_min_index(env),
                    Value::Char(a) => a.first_min_index(env),
                    Value::Box(a) => a.first_min_index(env),
                }
            }
        };
        match found {
            Ok(x) => {
                let v = Value::Num(Array::scalar(x));
                proof {
                    lemma_value_view(v);
                    assert(value_is_extreme_index(
                        unboxed(self@),
                        env.fill_view(),
                        greatest,
                        last,
                        Ok(x),
                    ));
                }
                Ok(v)
            },
            Err(e) => Err(e),
        }
    }

    /// The place of the first of the least rows, as a scalar number
    pub fn first_min_index(&self, env: &FillContext) -> (r: Result<Value, UiuaError>)
        requires
            self.wf(),
            env.wf(),
        ensures
            is_value_extreme(unboxed(self@), env.fill_view(), false, false, r),
            r is Ok ==> r->Ok_0.wf(),
    {
        self.extreme_index_of(env, false, false)
    }

    /// The place of the first of the greatest rows, as a scalar number
    pub fn first_max_index(&self, env: &FillContext) -> (r: Result<Value, UiuaError>)
        requires
            self.wf(),
            env.wf(),
        ensures
            is_value_extreme(unboxed(self@), env.fill_view(), true, false, r),
            r is Ok ==> r->Ok_0.wf(),
    {
        self.extreme_index_of(env, true, false)
    }

    /// The place of the last of the least rows, as a scalar number
    pub fn last_min_index(&self, env: &FillContext) -> (r: Result<Value, UiuaError>)
        requires
            self.wf(),
            env.wf(),
        ensures
            is_value_extreme(unboxed(self@), env.fill_view(), false, true, r),
            r is Ok ==> r->Ok_0.wf(),
    {
        self.extreme_index_of(env, false, true)
    }

    /// The place of the last of the greatest rows, as a scalar number
    pub fn last_max_index(&self, env: &FillContext) -> (r: Result<Value, UiuaError>)
        requires
            self.wf(),
            env.wf(),
        ensures
            is_value_extreme(unboxed(self@), env.fill_view(), true, true, r),
            r is Ok ==> r->Ok_0.wf(),
    {
        self.extreme_index_of(env, true, true)
    }

    /// Encode the `bits` of the value
    pub fn bits(&self) -> (r: Result<Array<u8>, UiuaError>)
        requires
            self.wf(),
        ensures
            agrees(r, value_bits_model(self@)),
            r is Ok ==> r->Ok_0.wf(),
    {
        proof {
            lemma_value_view(*self);
        }
        match self {
            Value::Byte(a) => a.widen().bits(),
            Value::Num(a) => a.bits(),
            _ => Err(UiuaError::new(Op::Bits, ErrorKind::WrongKind(self.kind()))),
        }
    }

    /// Decode the `bits` of the value
    pub fn inv_bits(&self) -> (r: Result<Array<Num>, UiuaError>)
        requires
            self.wf(),
        ensures
            agrees(r, value_inverse_bits_model(self@)),
            r is Ok ==> r->Ok_0.wf(),
    {
        proof {
            lemma_value_view(*self);
        }
        match self {
            Value::Byte(a) => a.inverse_bits(),
            Value::Num(a) => match a.narrow() {
                Some(b) => b.inverse_bits(),
                None => Err(
                    UiuaError::new(Op::InverseBits, ErrorKind::NotBoolean),
                ),
            },
            _ => Err(
                UiuaError::new(Op::InverseBits, ErrorKind::WrongKind(self.kind())),
            ),
        }
    }
}

/// Whether `r` is the sorted order of the rows of the array of a value:
/// an error for a scalar, nothing for an array without elements, and else
/// the one list of the rows in sorted order.
pub open spec fn is_value_ordering(
    v: ValueView,
    descending: bool,
    r: Result<Vec<usize>, UiuaError>,
) -> bool {
    let op = if descending {
        Op::Fall
    } else {
        Op::Rise
    };
    match r {
        Ok(p) => v.shape().sizes.len() > 0 && if v.len() == 0 {
            p@.len() == 0
        } else {
            value_is_ordering(v, p@, descending)
        },
        Err(e) => v.shape().sizes.len() == 0 && e@ == failure(op, ErrorKind::Scalar),
    }
}

/// What the classes of the rows of a value are, as a list of numbers. It
/// is an error for a scalar.
pub open spec fn value_classify_model(v: ValueView) -> Result<ValueView, ErrorView> {
    if v.shape().sizes.len() == 0 {
        Err(failure(Op::Classify, ErrorKind::Scalar))
    } else {
        Ok(ValueView::Num(list_view(nums_of(value_classes(v)))))
    }
}

/// Whether `r` is the place of the least row of the array of a value, or
/// of the greatest, as a scalar number
pub open spec fn is_value_extreme(
    v: ValueView,
    fill: Option<ValueView>,
    greatest: bool,
    last: bool,
    r: Result<Value, UiuaError>,
) -> bool {
    match r {
        Ok(x) => exists|n: Num|
            #[trigger] value_is_extreme_index(v, fill, greatest, last, Ok(n)) && x@
                == ValueView::Num(scalar_view(n)),
        Err(e) => value_is_extreme_index(v, fill, greatest, last, Err(e@)),
    }
}

/// An operation that changes the rows of an array in place
#[derive(Clone, Copy, PartialEq, Eq, Structural, Debug)]
pub enum RowsOp {
    /// Put the rows in ascending order
    SortUp,
    /// Put the rows in descending order
    SortDown,
    /// Take out the rows that repeat an earlier row
    Deduplicate,
}

impl RowsOp {
    /// What the operation makes of an array. Sorting is an error for a
    /// scalar.
    pub open spec fn on<T: ArrayValue>(self, a: ArrayView<T::V>) -> Result<
        ArrayView<T::V>,
        ErrorView,
    > {
        match self {
            RowsOp::SortUp => if a.rank() == 0 {
                Err(failure(Op::Rise, ErrorKind::Scalar))
            } else {
                Ok(crate::algorithm::sort::sorted::<T>(a, false))
            },
            RowsOp::SortDown => if a.rank() == 0 {
                Err(failure(Op::Fall, ErrorKind::Scalar))
            } else {
                Ok(crate::algorithm::sort::sorted::<T>(a, true))
            },
            RowsOp::Deduplicate => Ok(crate::algorithm::classify::deduplicated::<T>(a)),
        }
    }

    /// What the operation makes of the array of a value
    pub open spec fn on_value(self, v: ValueView) -> Result<ValueView, ErrorView> {
        match v {
            ValueView::Num(a) => match self.on::<Num>(a) {
                Ok(r) => Ok(ValueView::Num(r)),
                Err(e) => Err(e),
            },
            ValueView::Byte(a) => match self.on::<u8>(a) {
                Ok(r) => Ok(ValueView::Byte(r)),
                Err(e) => Err(e),
            },
            ValueView::Complex(a) => match self.on::<Complex>(a) {
                Ok(r) => Ok(ValueView::Complex(r)),
                Err(e) => Err(e),
            },
            ValueView::Char(a) => match self.on::<char>(a) {
                Ok(r) => Ok(ValueView::Char(r)),
                Err(e) => Err(e),
            },
            ValueView::Box(a) => match self.on::<Boxed>(a) {
                Ok(r) => Ok(ValueView::Box(r)),
                Err(e) => Err(e),
            },
        }
    }

    /// What the operation makes of a value: it works on the array at the
    /// bottom of the boxes of the value.
    pub open spec fn deep(self, v: ValueView) -> Result<ValueView, ErrorView> {
        match self.on_value(unboxed(v)) {
            Ok(w) => Ok(reboxed(v, w)),
            Err(e) => Err(e),
        }
    }
}

impl<T: ArrayValue> Array<T> {
    /// Does the operation on the array. The array stays as it is where
    /// the operation fails.
    pub fn apply_rows(&mut self, op: RowsOp) -> (r: Result<(), UiuaError>)
        requires
            old(self).wf(),
        ensures
            final(self).wf(),
            match r {
                Ok(_) => op.on::<T>(old(self)@) == Ok::<ArrayView<T::V>, ErrorView>(final(self)@),
                Err(e) => op.on::<T>(old(self)@) == Err::<ArrayView<T::V>, ErrorView>(e@)
                    && final(self)@ == old(self)@,
            },
            r is Ok && op == RowsOp::SortUp ==> crate::algorithm::sort::is_sorted::<T>(
                old(self)@,
                final(self)@.data,
                false,
            ),
            r is Ok && op == RowsOp::SortDown ==> crate::algorithm::sort::is_sorted::<T>(
                old(self)@,
                final(self)@.data,
                true,
            ),
    {
        match op {
            RowsOp::SortUp => {
                let r = self.sort_up();
                proof {
                    if r is Ok {
                        crate::algorithm::sort::lemma_sorted_data::<T>(
                            old(self)@,
                            self@.data,
                            false,
                        );
                    }
                }
                r
            },
            RowsOp::SortDown => {
                let r = self.sort_down();
                proof {
                    if r is Ok {
                        crate::algorithm::sort::lemma_sorted_data::<T>(
                            old(self)@,
                            self@.data,
                            true,
                        );
                    }
                }
                r
            },
            RowsOp::Deduplicate => {
                self.deduplicate();
                Ok(())
            },
        }
    }
}

/// What the first row of the array at the bottom of the boxes of a value
/// is, or the last. An array of bytes without rows gives a row of the fill
/// byte, and where there is none, the row of the fill number that the same
/// array of numbers gives.
pub open spec fn value_end_row(v: ValueView, fill: Option<ValueView>, last: bool) -> Result<
    ValueView,
    ErrorView,
> {
    match unboxed(v) {
        ValueView::Num(a) => match end_row::<Num>(a, fill, last) {
            Ok(r) => Ok(ValueView::Num(r)),
            Err(e) => Err(e),
        },
        ValueView::Byte(a) => match end_row::<u8>(a, fill, last) {
            Ok(r) => Ok(ValueView::Byte(r)),
            Err(e) => if e.fill {
                match end_row::<Num>(widened(a), fill, last) {
                    Ok(r) => Ok(ValueView::Num(r)),
                    Err(e) => Err(e),
                }
            } else {
                Err(e)
            },
        },
        ValueView::Complex(a) => match end_row::<Complex>(a, fill, last) {
            Ok(r) => Ok(ValueView::Complex(r)),
            Err(e) => Err(e),
        },
        ValueView::Char(a) => match end_row::<char>(a, fill, last) {
            Ok(r) => Ok(ValueView::Char(r)),
            Err(e) => Err(e),
        },
        ValueView::Box(a) => match end_row::<Boxed>(a, fill, last) {
            Ok(r) => Ok(ValueView::Box(r)),
            Err(e) => Err(e),
        },
    }
}

/// What the array is that has the array of `row` in the place of the first
/// row of the array of `into`, or of the last. The two hold elements of
/// one kind, or one of them numbers and the other bytes, which then count
/// as numbers; any other pair of kinds is an error that names both.
pub open spec fn joined_end_row(row: ValueView, into: ValueView, last: bool) -> Result<
    ValueView,
    ErrorView,
> {
    let op = if last {
        Op::Unlast
    } else {
        Op::Unfirst
    };
    match (row, into) {
        (ValueView::Num(a), ValueView::Num(b)) => match with_end_row(a, b, last) {
            Ok(r) => Ok(ValueView::Num(r)),
            Err(e) => Err(e),
        },
        (ValueView::Byte(a), ValueView::Byte(b)) => match with_end_row(a, b, last) {
            Ok(r) => Ok(ValueView::Byte(r)),
            Err(e) => Err(e),
        },
        (ValueView::Byte(a), ValueView::Num(b)) => match with_end_row(widened(a), b, last) {
            Ok(r) => Ok(ValueView::Num(r)),
            Err(e) => Err(e),
        },
        (ValueView::Num(a), ValueView::Byte(b)) => match with_end_row(a, widened(b), last) {
            Ok(r) => Ok(ValueView::Num(r)),
            Err(e) => Err(e),
        },
        (ValueView::Complex(a), ValueView::Complex(b)) => match with_end_row(a, b, last) {
            Ok(r) => Ok(ValueView::Complex(r)),
            Err(e) => Err(e),
        },
        (ValueView::Char(a), ValueView::Char(b)) => match with_end_row(a, b, last) {
            Ok(r) => Ok(ValueView::Char(r)),
            Err(e) => Err(e),
        },
        (ValueView::Box(a), ValueView::Box(b)) => match with_end_row(a, b, last) {
            Ok(r) => Ok(ValueView::Box(r)),
            Err(e) => Err(e),
        },
        _ => Err(failure(op, ErrorKind::Mismatch(row.kind(), into.kind()))),
    }
}

/// What the value is that has `row` in the place of the first row of
/// `into`, or of the last: the row goes into the array at the bottom of
/// the boxes of `into`.
pub open spec fn value_with_end_row(row: ValueView, into: ValueView, last: bool) -> Result<
    ValueView,
    ErrorView,
> {
    match joined_end_row(row, unboxed(into), last) {
        Ok(w) => Ok(reboxed(into, w)),
        Err(e) => Err(e),
    }
}

/// The value with a first dimension of size 1 added to its array
pub open spec fn value_fixed(v: ValueView) -> ValueView {
    match v {
        ValueView::Num(a) => ValueView::Num(fixed(a)),
        ValueView::Byte(a) => ValueView::Byte(fixed(a)),
        ValueView::Complex(a) => ValueView::Complex(fixed(a)),
        ValueView::Char(a) => ValueView::Char(fixed(a)),
        ValueView::Box(a) => ValueView::Box(fixed(a)),
    }
}

/// The value without the first dimension of its array, where that has
/// size 1, and else with the first two made into one
pub open spec fn value_unfixed(v: ValueView) -> ValueView {
    match v {
        ValueView::Num(a) => ValueView::Num(unfixed(a)),
        ValueView::Byte(a) => ValueView::Byte(unfixed(a)),
        ValueView::Complex(a) => ValueView::Complex(unfixed(a)),
        ValueView::Char(a) => ValueView::Char(unfixed(a)),
        ValueView::Box(a) => ValueView::Box(unfixed(a)),
    }
}

/// A value with a valid value at the bottom of its boxes is valid.
pub proof fn lemma_reboxed(v: ValueView, w: ValueView)
    requires
        value_wf(v),
        value_wf(w),
    ensures
        value_wf(reboxed(v, w)),
    decreases v,
{
    match v {
        ValueView::Box(a) => {
            if a.shape.sizes.len() == 0 && a.data.len() == 1 {
                lemma_reboxed(a.data[0], w);
            }
        },
        _ => {},
    }
}

impl Value {
    /// The value at the bottom of the boxes, taken out of them.
    pub fn into_innermost(self) -> (r: Value)
        requires
            self.wf(),
        ensures
            r@ == unboxed(self@),
            r.wf(),
            !boxed_scalar(r@),
        decreases self,
    {
        proof {
            lemma_unboxed(self@);
        }
        match self {
            Value::Box(a) => {
                if a.shape.rank() == 0 && a.data.len() == 1 {
                    let ghost held = a.data@[0];
                    proof {
                        assert(self->Box_0 == a);
                        assert(decreases_to!(self => self->Box_0));
                        assert(decreases_to!(a => a.data));
                        assert(decreases_to!(a.data => a.data[0]));
                        assert(decreases_to!(a.data[0] => a.data[0].0));
                        assert(self@->Box_0.data[0] == a.data@[0]@);
                    }
                    let mut data = a.data;
                    match data.pop() {
                        Some(b) => b.0.into_innermost(),
                        None => Value::Box(
                            Array { shape: a.shape, data, flags: a.flags },
                        ),
                    }
                } else {
                    Value::Box(a)
                }
            },
            v => v,
        }
    }

    /// The first row of the array of the value, or the last.
    fn end_row_of(self, env: &FillContext, last: bool) -> (r: Result<Value, UiuaError>)
        requires
            self.wf(),
            env.wf(),
        ensures
            agrees(r, value_end_row(self@, env.fill_view(), last)),
            r is Ok ==> r->Ok_0.wf(),
    {
        let inner = self.into_innermost();
        proof {
            lemma_value_view(inner);
            lemma_unboxed(self@);
        }
        match inner {
            Value::Num(a) => {
                let r = if last {
                    a.last(env)
                } else {
                    a.first(env)
                };
                match r {
                    Ok(b) => {
                        proof {
                            lemma_value_view(Value::Num(b));
                        }
                        Ok(Value::Num(b))
                    },
                    Err(e) => Err(e),
                }
            },
            Value::Byte(a) => {
                let no_rows = a.shape.rank() > 0 && a.shape.length() == 0;
                let no_fill = match <u8 as ArrayValue>::get_fill(env) {
                    Some(_) => false,
                    None => true,
                };
                if no_rows && no_fill {
                    let w = a.widen();
                    let r = if last {
                        w.last(env)
                    } else {
                        w.first(env)
                    };
                    match r {
                        Ok(b) => {
                            proof {
                                lemma_value_view(Value::Num(b));
                            }
                            Ok(Value::Num(b))
                        },
                        Err(e) => Err(e),
                    }
                } else {
                    let r = if last {
                        a.last(env)
                    } else {
                        a.first(env)
                    };
                    match r {
                        Ok(b) => {
                            proof {
                                lemma_value_view(Value::Byte(b));
                            }
                            Ok(Value::Byte(b))
                        },
                        Err(e) => Err(e),
                    }
                }
            },
            Value::Complex(a) => {
                let r = if last {
                    a.last(env)
                } else {
                    a.first(env)
                };
                match r {
                    Ok(b) => {
                        proof {
                            lemma_value_view(Value::Complex(b));
                        }
                        Ok(Value::Complex(b))
                    },
                    Err(e) => Err(e),
                }
            },
            Value::Char(a) => {
                let r = if last {
                    a.last(env)
                } else {
                    a.first(env)
                };
                match r {
                    Ok(b) => {
                        proof {
                            lemma_value_view(Value::Char(b));
                        }
                        Ok(Value::Char(b))
                    },
                    Err(e) => Err(e),
                }
            },
            Value::Box(a) => {
                let ghost before = a@;
                let r = if last {
                    a.last(env)
                } else {
                    a.first(env)
                };
                match r {
                    Ok(b) => {
                        proof {
                            lemma_value_view(Value::Box(b));
                            lemma_end_row_items(before, env.fill_view(), last);
                        }
                        Ok(Value::Box(b))
                    },
                    Err(e) => Err(e),
                }
            },
        }
    }

    /// Get the first row of the value
    pub fn first(self, env: &FillContext) -> (r: Result<Value, UiuaError>)
        requires
            self.wf(),
            env.wf(),
        ensures
            agrees(r, value_end_row(self@, env.fill_view(), false)),
            r is Ok ==> r->Ok_0.wf(),
    {
        self.end_row_of(env, false)
    }

    /// Get the last row of the value
    pub fn last(self, env: &FillContext) -> (r: Result<Value, UiuaError>)
        requires
            self.wf(),
            env.wf(),
        ensures
            agrees(r, value_end_row(self@, env.fill_view(), true)),
            r is Ok ==> r->Ok_0.wf(),
    {
        self.end_row_of(env, true)
    }

    /// Add a 1-length dimension to the front of the value's shape
    pub fn fix(&mut self)
        requires
            old(self).wf(),
        ensures
            final(self).wf(),
            final(self)@ == value_fixed(old(self)@),
    {
        proof {
            lemma_value_view(*self);
        }
        match self {
            Value::Num(a) => {
                a.fix();
                proof {
                    lemma_value_view(Value::Num(*a));
                }
            },
            Value::Byte(a) => {
                a.fix();
                proof {
                    lemma_value_view(Value::Byte(*a));
                }
            },
            Value::Complex(a) => {
                a.fix();
                proof {
                    lemma_value_view(Value::Complex(*a));
                }
            },
            Value::Char(a) => {
                a.fix();
                proof {
                    lemma_value_view(Value::Char(*a));
                }
            },
            Value::Box(a) => {
                a.fix();
                proof {
                    lemma_value_view(Value::Box(*a));
                }
            },
        }
    }

    /// Take a 1-length dimension from the front of the value's shape, or,
    /// where the first dimension is longer, make the first two into one
    pub fn inv_fix(&mut self)
        requires
            old(self).wf(),
        ensures
            final(self).wf(),
            final(self)@ == value_unfixed(old(self)@),
    {
        proof {
            lemma_value_view(*self);
        }
        match self {
            Value::Num(a) => {
                a.inv_fix();
                proof {
                    lemma_value_view(Value::Num(*a));
                }
            },
            Value::Byte(a) => {
                a.inv_fix();
                proof {
                    lemma_value_view(Value::Byte(*a));
                }
            },
            Value::Complex(a) => {
                a.inv_fix();
                proof {
                    lemma_value_view(Value::Complex(*a));
                }
            },
            Value::Char(a) => {
                a.inv_fix();
                proof {
                    lemma_value_view(Value::Char(*a));
                }
            },
            Value::Box(a) => {
                a.inv_fix();
                proof {
                    lemma_value_view(Value::Box(*a));
                }
            },
        }
    }
}

/// The first row of a box array with valid boxes, or the last, holds
/// valid boxes.
pub proof fn lemma_end_row_items(a: ArrayView<ValueView>, fill: Option<ValueView>, last: bool)
    requires
        a.wf(),
        forall|i: int| 0 <= i < a.data.len() ==> value_wf(#[trigger] a.data[i]),
        match fill {
            Some(f) => value_wf(f),
            None => true,
        },
        end_row::<Boxed>(a, fill, last) is Ok,
    ensures
        forall|i: int|
            0 <= i < end_row::<Boxed>(a, fill, last)->Ok_0.data.len() ==> value_wf(
                #[trigger] end_row::<Boxed>(a, fill, last)->Ok_0.data[i],
            ),
{
    let r = end_row::<Boxed>(a, fill, last)->Ok_0;
    crate::algorithm::rows::lemma_row_shape(a);
    if a.row_count() == 0 {
        let f = <Boxed as ArrayValue>::fill_of(fill)->Some_0;
        assert(value_wf(f)) by {
            match fill {
                Some(ValueView::Box(b)) => {
                    assert(value_wf(b.data[0]));
                },
                _ => {},
            }
        }
    } else {
        assert forall|i: int| 0 <= i < r.data.len() implies value_wf(#[trigger] r.data[i]) by {
            if last {
                assert(r.data[i] == a.data[a.data.len() - a.row_len() + i]);
            } else {
                assert(r.data[i] == a.data[i]);
            }
        }
    }
}

/// The array that has a row in the place of the first row of a box array,
/// or of the last, holds valid boxes where the two arrays do.
pub proof fn lemma_with_end_row_items(
    row: ArrayView<ValueView>,
    into: ArrayView<ValueView>,
    last: bool,
)
    requires
        row.wf(),
        into.wf(),
        forall|i: int| 0 <= i < row.data.len() ==> value_wf(#[trigger] row.data[i]),
        forall|i: int| 0 <= i < into.data.len() ==> value_wf(#[trigger] into.data[i]),
        with_end_row(row, into, last) is Ok,
    ensures
        forall|i: int|
            0 <= i < with_end_row(row, into, last)->Ok_0.data.len() ==> value_wf(
                #[trigger] with_end_row(row, into, last)->Ok_0.data[i],
            ),
{
    let r = with_end_row(row, into, last)->Ok_0;
    crate::algorithm::rows::lemma_row_shape(into);
    let len = into.row_len() as int;
    assert forall|i: int| 0 <= i < r.data.len() implies value_wf(#[trigger] r.data[i]) by {
        if into.row_count() == 0 {
            assert(r.data[i] == row.data[i]);
        } else if last {
            if i < into.data.len() - len {
                assert(r.data[i] == into.data[i]);
            } else {
                assert(r.data[i] == row.data[i - (into.data.len() - len)]);
            }
        } else {
            if i < row.data.len() {
                assert(r.data[i] == row.data[i]);
            } else {
                assert(r.data[i] == into.data[len + (i - row.data.len())]);
            }
        }
    }
}

impl Value {
    /// Does the operation on the rows of the array at the bottom of the
    /// boxes of the value. The value stays as it is where the operation
    /// fails.
    pub fn apply_rows(&mut self, op: RowsOp) -> (r: Result<(), UiuaError>)
        requires
            old(self).wf(),
        ensures
            final(self).wf(),
            match r {
                Ok(_) => op.deep(old(self)@) == Ok::<ValueView, ErrorView>(final(self)@),
                Err(e) => op.deep(old(self)@) == Err::<ValueView, ErrorView>(e@) && final(self)@
                    == old(self)@,
            },
        decreases *old(self),
    {
        proof {
            lemma_value_view(*self);
        }
        match self {
            Value::Num(a) => {
                let r = a.apply_rows(op);
                proof {
                    lemma_value_view(Value::Num(*a));
                }
                r
            },
            Value::Byte(a) => {
                let r = a.apply_rows(op);
                proof {
                    lemma_value_view(Value::Byte(*a));
                }
                r
            },
            Value::Complex(a) => {
                let r = a.apply_rows(op);
                proof {
                    lemma_value_view(Value::Complex(*a));
                }
                r
            },
            Value::Char(a) => {
                let r = a.apply_rows(op);
                proof {
                    lemma_value_view(Value::Char(*a));
                }
                r
            },
            Value::Box(a) => {
                let ghost before = a@;
                if a.shape.rank() == 0 && a.data.len() == 1 {
                    proof {
                        assert(old(self)->Box_0 == *a);
                        assert(decreases_to!(*old(self) => old(self)->Box_0));
                        assert(decreases_to!(*a => a.data));
                        assert(decreases_to!(a.data => a.data[0]));
                        assert(decreases_to!(a.data[0] => a.data[0].0));
                        assert(before.data[0] == a.data@[0]@);
                        assert(value_wf(before.data[0]));
                    }
                    let r = a.data[0].0.apply_rows(op);
                    proof {
                        lemma_value_view(Value::Box(*a));
                        if r is Ok {
                            let goal = op.deep(old(self)@)->Ok_0;
                            assert(a@.data =~= goal->Box_0.data);
                        } else {
                            assert(a@.data =~= before.data);
                        }
                    }
                    r
                } else {
                    let r = a.apply_rows(op);
                    proof {
                        lemma_value_view(Value::Box(*a));
                        assert(before.data.len() <= usize::MAX) by {
                            assert(before.data.len() == old(self)->Box_0.data.len());
                        }
                        if r is Ok {
                            match op {
                                RowsOp::Deduplicate => {
                                    crate::algorithm::classify::lemma_dedup_items::<Boxed>(before);
                                },
                                RowsOp::SortUp => {
                                    assert(crate::algorithm::sort::is_sorted::<Boxed>(
                                        before,
                                        a@.data,
                                        false,
                                    ));
                                    crate::algorithm::sort::lemma_sorted_items::<Boxed>(
                                        before,
                                        a@.data,
                                        false,
                                    );
                                },
                                RowsOp::SortDown => {
                                    assert(crate::algorithm::sort::is_sorted::<Boxed>(
                                        before,
                                        a@.data,
                                        true,
                                    ));
                                    crate::algorithm::sort::lemma_sorted_items::<Boxed>(
                                        before,
                                        a@.data,
                                        true,
                                    );
                                },
                            }
                            assert forall|i: int| 0 <= i < a@.data.len() implies value_wf(
                                #[trigger] a@.data[i],
                            ) by {
                                assert(before.data.contains(a@.data[i]));
                            }
                        }
                    }
                    r
                }
            },
        }
    }

    /// Sort the value ascending
    pub fn sort_up(&mut self) -> (r: Result<(), UiuaError>)
        requires
            old(self).wf(),
        ensures
            final(self).wf(),
            match r {
                Ok(_) => RowsOp::SortUp.deep(old(self)@) == Ok::<ValueView, ErrorView>(
                    final(self)@,
                ),
                Err(e) => RowsOp::SortUp.deep(old(self)@) == Err::<ValueView, ErrorView>(e@)
                    && final(self)@ == old(self)@,
            },
    {
        self.apply_rows(RowsOp::SortUp)
    }

    /// Sort the value descending
    pub fn sort_down(&mut self) -> (r: Result<(), UiuaError>)
        requires
            old(self).wf(),
        ensures
            final(self).wf(),
            match r {
                Ok(_) => RowsOp::SortDown.deep(old(self)@) == Ok::<ValueView, ErrorView>(
                    final(self)@,
                ),
                Err(e) => RowsOp::SortDown.deep(old(self)@) == Err::<ValueView, ErrorView>(e@)
                    && final(self)@ == old(self)@,
            },
    {
        self.apply_rows(RowsOp::SortDown)
    }

    /// `deduplicate` the rows of the value
    pub fn deduplicate(&mut self)
        requires
            old(self).wf(),
        ensures
            final(self).wf(),
            RowsOp::Deduplicate.deep(old(self)@) == Ok::<ValueView, ErrorView>(final(self)@),
    {
        let _ = self.apply_rows(RowsOp::Deduplicate);
    }

    /// The value that has the array of this one in the place of the first
    /// row of the array of `into`, or of the last.
    fn join_end_row(self, into: Value, last: bool) -> (r: Result<Value, UiuaError>)
        requires
            self.wf(),
            into.wf(),
        ensures
            agrees(r, joined_end_row(self@, into@, last)),
            r is Ok ==> r->Ok_0.wf(),
    {
        let op = if last {
            Op::Unlast
        } else {
            Op::Unfirst
        };
        proof {
            lemma_value_view(self);
            lemma_value_view(into);
        }
        let kinds = ErrorKind::Mismatch(self.kind(), into.kind());
        match (self, into) {
            (Value::Num(a), Value::Num(b)) => {
                let r = if last {
                    a.unlast(b)
                } else {
                    a.unfirst(b)
                };
                match r {
                    Ok(c) => {
                        proof {
                            lemma_value_view(Value::Num(c));
                        }
                        Ok(Value::Num(c))
                    },
                    Err(e) => Err(e),
                }
            },
            (Value::Byte(a), Value::Byte(b)) => {
                let r = if last {
                    a.unlast(b)
                } else {
                    a.unfirst(b)
                };
                match r {
                    Ok(c) => {
                        proof {
                            lemma_value_view(Value::Byte(c));
                        }
                        Ok(Value::Byte(c))
                    },
                    Err(e) => Err(e),
                }
            },
            (Value::Byte(a), Value::Num(b)) => {
                let w = a.widen();
                let r = if last {
                    w.unlast(b)
                } else {
                    w.unfirst(b)
                };
                match r {
                    Ok(c) => {
                        proof {
                            lemma_value_view(Value::Num(c));
                        }
                        Ok(Value::Num(c))
                    },
                    Err(e) => Err(e),
                }
            },
            (Value::Num(a), Value::Byte(b)) => {
                let w = b.widen();
                let r = if last {
                    a.unlast(w)
                } else {
                    a.unfirst(w)
                };
                match r {
                    Ok(c) => {
                        proof {
                            lemma_value_view(Value::Num(c));
                        }
                        Ok(Value::Num(c))
                    },
                    Err(e) => Err(e),
                }
            },
            (Value::Complex(a), Value::Complex(b)) => {
                let r = if last {
                    a.unlast(b)
                } else {
                    a.unfirst(b)
                };
                match r {
                    Ok(c) => {
                        proof {
                            lemma_value_view(Value::Complex(c));
                        }
                        Ok(Value::Complex(c))
                    },
                    Err(e) => Err(e),
                }
            },
            (Value::Char(a), Value::Char(b)) => {
                let r = if last {
                    a.unlast(b)
                } else {
                    a.unfirst(b)
                };
                match r {
                    Ok(c) => {
                        proof {
                            lemma_value_view(Value::Char(c));
                        }
                        Ok(Value::Char(c))
                    },
                    Err(e) => Err(e),
                }
            },
            (Value::Box(a), Value::Box(b)) => {
                let ghost row = a@;
                let ghost target = b@;
                let r = if last {
                    a.unlast(b)
                } else {
                    a.unfirst(b)
                };
                match r {
                    Ok(c) => {
                        proof {
                            lemma_value_view(Value::Box(c));
                            lemma_with_end_row_items(row, target, last);
                        }
                        Ok(Value::Box(c))
                    },
                    Err(e) => Err(e),
                }
            },
            _ => Err(UiuaError::new(op, kinds)),
        }
    }

    /// The value that has this one in the place of the first row of
    /// `into`, or of the last, at the bottom of the boxes of `into`.
    fn put_end_row(self, into: Value, last: bool) -> (r: Result<Value, UiuaError>)
        requires
            self.wf(),
            into.wf(),
        ensures
            agrees(r, value_with_end_row(self@, into@, last)),
            r is Ok ==> r->Ok_0.wf(),
        decreases into,
    {
        match into {
            Value::Box(a) => {
                if a.shape.rank() == 0 && a.data.len() == 1 {
                    proof {
                        assert(into->Box_0 == a);
                        assert(decreases_to!(into => into->Box_0));
                        assert(decreases_to!(a => a.data));
                        assert(decreases_to!(a.data => a.data[0]));
                        assert(decreases_to!(a.data[0] => a.data[0].0));
                        assert(into@->Box_0.data[0] == a.data@[0]@);
                    }
                    let shape = a.shape;
                    let flags = a.flags;
                    let mut data = a.data;
                    match data.pop() {
                        Some(held) => match self.put_end_row(held.0, last) {
                            Ok(w) => {
                                data.push(Boxed(w));
                                let v = Value::Box(Array { shape, data, flags });
                                proof {
                                    let goal = value_with_end_row(self@, into@, last)->Ok_0;
                                    assert(v@->Box_0.data =~= goal->Box_0.data);
                                }
                                Ok(v)
                            },
                            Err(e) => Err(e),
                        },
                        None => Err(
                            UiuaError::new(Op::Unfirst, ErrorKind::Scalar),
                        ),
                    }
                } else {
                    self.join_end_row(Value::Box(a), last)
                }
            },
            other => self.join_end_row(other, last),
        }
    }

    /// The value that has this one in the place of the first row of `into`
    pub fn unfirst(self, into: Value) -> (r: Result<Value, UiuaError>)
        requires
            self.wf(),
            into.wf(),
        ensures
            agrees(r, value_with_end_row(self@, into@, false)),
            r is Ok ==> r->Ok_0.wf(),
    {
        self.put_end_row(into, false)
    }

    /// The value that has this one in the place of the last row of `into`
    pub fn unlast(self, into: Value) -> (r: Result<Value, UiuaError>)
        requires
            self.wf(),
            into.wf(),
        ensures
            agrees(r, value_with_end_row(self@, into@, true)),
            r is Ok ==> r->Ok_0.wf(),
    {
        self.put_end_row(into, true)
    }
}

} // verus!
