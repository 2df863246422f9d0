//! The first and the last row of an array, and putting a row back in
//! their place.

use vstd::prelude::*;
use crate::array::{agrees, count, lemma_rows, Array, ArrayView};
use crate::algorithm::classify::lemma_kept_count;
use crate::element::ArrayValue;
use crate::error::{ErrorKind, ErrorView, Op, UiuaError, failure};
use crate::shape::ShapeView;
use crate::value::{FillContext, ValueView};

verus! {

impl ShapeView {
    /// The shape without its first dimension
    pub open spec fn row_shape(self) -> ShapeView {
        ShapeView {
            sizes: self.sizes.remove(0),
            markers: if self.markers.len() == 0 {
                self.markers
            } else {
                self.markers.remove(0)
            },
        }
    }

    /// The shape with another number of rows
    pub open spec fn with_rows(self, rows: usize) -> ShapeView {
        ShapeView { sizes: self.sizes.update(0, rows), markers: self.markers }
    }
}

/// What the first row of an array is, or the last: an array without the
/// first dimension that holds the elements of that row. An array without
/// rows gives a row of the fill value. It is an error for a scalar, for an
/// array without rows where there is no fill value for its kind of
/// element, and where a row of the fill value would have more elements
/// than a machine word counts.
pub open spec fn end_row<T: ArrayValue>(
    a: ArrayView<T::V>,
    fill: Option<ValueView>,
    last: bool,
) -> Result<ArrayView<T::V>, ErrorView> {
    let op = if last {
        Op::Last
    } else {
        Op::First
    };
    let len = a.row_len() as int;
    if a.rank() == 0 {
        Err(failure(op, ErrorKind::Scalar))
    } else if a.row_count() == 0 {
        match T::fill_of(fill) {
            None => Err(failure(op, ErrorKind::NoFill).marked()),
            Some(f) => if len > usize::MAX {
                Err(failure(op, ErrorKind::TooLarge(None)))
            } else {
                Ok(
                    ArrayView {
                        shape: a.shape.row_shape(),
                        data: Seq::new(len as nat, |i: int| f),
                        boolean: a.boolean,
                    },
                )
            },
        }
    } else {
        Ok(
            ArrayView {
                shape: a.shape.row_shape(),
                data: if last {
                    a.data.subrange(a.data.len() - len, a.data.len() as int)
                } else {
                    a.data.subrange(0, len)
                },
                boolean: a.boolean,
            },
        )
    }
}

/// What the array is that has `row` in the place of the first row of
/// `into`, or of the last: an array of the shape of `into`, with one row
/// where `into` has none. It is an error where `into` is a scalar, and
/// where `row` has not the sizes of a row of `into`.
pub open spec fn with_end_row<V>(row: ArrayView<V>, into: ArrayView<V>, last: bool) -> Result<
    ArrayView<V>,
    ErrorView,
> {
    let op = if last {
        Op::Unlast
    } else {
        Op::Unfirst
    };
    let len = into.row_len() as int;
    let rows = if into.row_count() == 0 {
        1usize
    } else {
        into.row_count() as usize
    };
    if into.rank() == 0 {
        Err(failure(op, ErrorKind::Scalar))
    } else if row.shape.sizes != into.shape.sizes.remove(0) {
        Err(failure(op, ErrorKind::ShapeMismatch))
    } else {
        Ok(
            ArrayView {
                shape: into.shape.with_rows(rows),
                data: if into.row_count() == 0 {
                    row.data
                } else if last {
                    into.data.subrange(0, into.data.len() - len) + row.data
                } else {
                    row.data + into.data.subrange(len, into.data.len() as int)
                },
                boolean: row.boolean && into.boolean,
            },
        )
    }
}

/// The sizes of a row make up the elements of a row.
pub proof fn lemma_row_shape<V>(a: ArrayView<V>)
    requires
        a.wf(),
        a.rank() > 0,
    ensures
        a.shape.row_shape().wf(),
        count(a.shape.row_shape().sizes) == a.row_len(),
        a.data.len() == a.row_count() * a.row_len(),
        a.row_count() == 0 ==> a.data.len() == 0,
        a.row_count() > 0 ==> a.row_len() <= a.data.len(),
{
    assert(a.shape.sizes.remove(0) =~= a.shape.sizes.skip(1));
    lemma_rows(a);
    let rows = a.row_count();
    let len = a.row_len();
    let n = a.data.len();
    assert(rows == 0 ==> n == 0) by (nonlinear_arith)
        requires
            n == rows * len,
    ;
    assert(rows > 0 ==> len <= n) by (nonlinear_arith)
        requires
            n == rows * len,
    ;
}

impl<T: ArrayValue> Array<T> {
    /// The first row of the array, or the last.
    fn take_end(self, env: &FillContext, last: bool) -> (r: Result<Self, UiuaError>)
        requires
            self.wf(),
            env.wf(),
        ensures
            agrees(r, end_row::<T>(self@, env.fill_view(), last)),
            r is Ok ==> r->Ok_0.wf(),
    {
        let op = if last {
            Op::Last
        } else {
            Op::First
        };
        let ghost before = self@;
        let mut this = self;
        if this.shape.rank() == 0 {
            return Err(UiuaError::new(op, ErrorKind::Scalar));
        }
        proof {
            lemma_row_shape(before);
            assert(this@.data.len() == this.data.len());
        }
        if this.shape.length() == 0 {
            let fill = match T::get_fill(env) {
                Some(fill) => fill,
                None => {
                    return Err(UiuaError::new(op, ErrorKind::NoFill).fill());
                },
            };
            let row_len = match this.row_len() {
                Some(row_len) => row_len,
                None => {
                    return Err(UiuaError::new(op, ErrorKind::TooLarge(None)));
                },
            };
            let mut i: usize = 0;
            assert(this.data@.len() == 0);
            while i < row_len
                invariant
                    i <= row_len,
                    this.shape@ == before.shape,
                    this.flags.boolean == before.boolean,
                    this.data@.len() == i,
                    forall|k: int| 0 <= k < i ==> (#[trigger] this.data@[k])@ == fill@,
                decreases row_len - i,
            {
                this.data.push(fill.duplicate());
                i += 1;
            }
            this.shape.remove(0);
            assert(this@.data =~= Seq::new(row_len as nat, |i: int| fill@));
            Ok(this)
        } else {
            let row_len = this.row_len().unwrap();
            if last {
                let start = this.data.len() - row_len;
                let data = this.data.split_off(start);
                this.data = data;
            } else {
                this.data.truncate(row_len);
            }
            this.shape.remove(0);
            proof {
                let goal = end_row::<T>(before, env.fill_view(), last)->Ok_0;
                assert(this@.data =~= goal.data);
                assert(this@.data.len() == row_len);
            }
            Ok(this)
        }
    }

    /// Get the first row of the array
    pub fn first(self, env: &FillContext) -> (r: Result<Self, UiuaError>)
        requires
            self.wf(),
            env.wf(),
        ensures
            agrees(r, end_row::<T>(self@, env.fill_view(), false)),
            r is Ok ==> r->Ok_0.wf(),
    {
        self.take_end(env, false)
    }

    /// Get the last row of the array
    pub fn last(self, env: &FillContext) -> (r: Result<Self, UiuaError>)
        requires
            self.wf(),
            env.wf(),
        ensures
            agrees(r, end_row::<T>(self@, env.fill_view(), true)),
            r is Ok ==> r->Ok_0.wf(),
    {
        self.take_end(env, true)
    }

    /// The array that has this one in the place of the first row of
    /// `into`, or of the last.
    fn put_end(self, into: Self, last: bool) -> (r: Result<Self, UiuaError>)
        requires
            self.wf(),
            into.wf(),
        ensures
            agrees(r, with_end_row(self@, into@, last)),
            r is Ok ==> r->Ok_0.wf(),
    {
        let op = if last {
            Op::Unlast
        } else {
            Op::Unfirst
        };
        if into.shape.rank() == 0 {
            return Err(UiuaError::new(op, ErrorKind::Scalar));
        }
        let ghost row = self@;
        let ghost before = into@;
        proof {
            lemma_row_shape(before);
            assert(self@.data.len() == self.data.len());
            assert(into@.data.len() == into.data.len());
            assert(before.shape.sizes.remove(0) =~= before.shape.sizes.skip(1));
        }
        let mut rest = into.shape.clone();
        rest.remove(0);
        if !(self.shape == rest) {
            return Err(UiuaError::new(op, ErrorKind::ShapeMismatch));
        }
        let boolean = self.flags.boolean && into.flags.boolean;
        let rows = into.shape.length();
        let row_len = self.data.len();
        assert(row_len == before.row_len());
        let kept = if rows == 0 {
            1
        } else {
            rows
        };
        proof {
            lemma_kept_count(before, kept);
        }
        let mut row_data = self.data;
        let mut into_data = into.data;
        let data = if rows == 0 {
            row_data
        } else if last {
            into_data.truncate(into_data.len() - row_len);
            into_data.append(&mut row_data);
            into_data
        } else {
            let mut tail = into_data.split_off(row_len);
            row_data.append(&mut tail);
            row_data
        };
        let mut shape = into.shape;
        shape.set_size(0, kept);
        let r = Array { shape, data, flags: crate::array::ArrayFlags { boolean } };
        proof {
            let goal = with_end_row(row, before, last)->Ok_0;
            assert(r@.data =~= goal.data);
            if rows != 0 {
                assert(r@.data.len() == before.data.len());
            } else {
                assert(1 * row_len == row_len) by (nonlinear_arith);
            }
        }
        Ok(r)
    }

    /// The array that has this one in the place of the first row of `into`
    pub fn unfirst(self, into: Self) -> (r: Result<Self, UiuaError>)
        requires
            self.wf(),
            into.wf(),
        ensures
            agrees(r, with_end_row(self@, into@, false)),
            r is Ok ==> r->Ok_0.wf(),
    {
        self.put_end(into, false)
    }

    /// The array that has this one in the place of the last row of `into`
    pub fn unlast(self, into: Self) -> (r: Result<Self, UiuaError>)
        requires
            self.wf(),
            into.wf(),
        ensures
            agrees(r, with_end_row(self@, into@, true)),
            r is Ok ==> r->Ok_0.wf(),
    {
        self.put_end(into, true)
    }
}

/// The first row of an array without rows, and the last, is a row of the
/// fill value, of the shape that is left without the first dimension; and
/// without a fill value it is an error that is marked as the failure to
/// find one.
pub proof fn lemma_end_row_of_empty<T: ArrayValue>(
    a: ArrayView<T::V>,
    fill: Option<ValueView>,
    last: bool,
)
    requires
        a.wf(),
        a.rank() > 0,
        a.row_count() == 0,
        a.row_len() <= usize::MAX,
    ensures
        match T::fill_of(fill) {
            Some(f) => {
                let r = end_row::<T>(a, fill, last);
                &&& r is Ok
                &&& r->Ok_0.wf()
                &&& r->Ok_0.shape.sizes == a.shape.sizes.skip(1)
                &&& forall|i: int| 0 <= i < r->Ok_0.data.len() ==> r->Ok_0.data[i] == f
            },
            None => {
                let r = end_row::<T>(a, fill, last);
                r is Err && r->Err_0.fill && r->Err_0.kind == ErrorKind::NoFill
            },
        },
{
    lemma_row_shape(a);
    assert(a.shape.sizes.remove(0) =~= a.shape.sizes.skip(1));
}

} // verus!
