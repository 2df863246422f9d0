//! The place of the least and of the greatest row of an array.

use vstd::prelude::*;
use crate::array::{views, Array, ArrayView};
use crate::algorithm::sort::{
    compare_rows, elem_order, lemma_elem_order_total, lemma_rows_order_flip, row_at, rows_order,
};
use crate::element::ArrayValue;
use crate::error::{ErrorKind, ErrorView, Op, UiuaError, failure, seen};
use crate::index::lemma_row_bounds;
use crate::num::{num_of_nat, Num};
use crate::order::{lemma_lex_by_trans, Order};
use crate::value::{FillContext, ValueView};

verus! {

/// Row `i` is chosen over row `j`: it is the greater of the two where the
/// greatest row is asked for, and the lesser where the least is; or the
/// two are equal, and `i` is the later of them where the last such row is
/// asked for, and the earlier where the first is.
pub open spec fn beats<T: ArrayValue>(
    data: Seq<T::V>,
    len: int,
    i: int,
    j: int,
    greatest: bool,
    last: bool,
) -> bool {
    let o = rows_order::<T>(data, len, i, j);
    let better = if greatest {
        o == Order::Greater
    } else {
        o == Order::Less
    };
    better || (o == Order::Equal && if last {
        i > j
    } else {
        i < j
    })
}

/// Row `i` is chosen over every other of the first `n` rows.
pub open spec fn is_extreme<T: ArrayValue>(
    data: Seq<T::V>,
    len: int,
    n: int,
    i: int,
    greatest: bool,
    last: bool,
) -> bool {
    &&& 0 <= i < n
    &&& forall|j: int| 0 <= j < n && j != i ==> #[trigger] beats::<T>(data, len, i, j, greatest, last)
}

/// Whether `r` is the place of the least row of an array, or of the
/// greatest, as a number: the first such row or the last. For an array
/// without rows it is the fill number. It is an error for a scalar, and
/// for an array without rows where there is no fill number.
pub open spec fn is_extreme_index<T: ArrayValue>(
    a: ArrayView<T::V>,
    fill: Option<ValueView>,
    greatest: bool,
    last: bool,
    r: Result<Num, ErrorView>,
) -> bool {
    let op = if greatest {
        Op::MaxIndex
    } else {
        Op::MinIndex
    };
    if a.rank() == 0 {
        r == Err::<Num, ErrorView>(failure(op, ErrorKind::Scalar))
    } else if a.row_count() == 0 {
        match Num::fill_of(fill) {
            Some(f) => r == Ok::<Num, ErrorView>(f),
            None => r == Err::<Num, ErrorView>(
                failure(op, ErrorKind::NoFill),
            ),
        }
    } else {
        r is Ok && exists|i: int|
            #[trigger] is_extreme::<T>(
                a.data,
                a.row_len() as int,
                a.row_count() as int,
                i,
                greatest,
                last,
            ) && r->Ok_0 == num_of_nat(i as nat)
    }
}

/// A row chosen over another that is chosen over a third is chosen over
/// the third; of two different rows exactly one is chosen over the other.
pub proof fn lemma_beats<T: ArrayValue>(
    data: Seq<T::V>,
    len: int,
    i: int,
    j: int,
    k: int,
    greatest: bool,
    last: bool,
)
    ensures
        beats::<T>(data, len, i, j, greatest, last) && beats::<T>(data, len, j, k, greatest, last)
            ==> beats::<T>(data, len, i, k, greatest, last),
        i != j ==> beats::<T>(data, len, i, j, greatest, last) != beats::<T>(
            data,
            len,
            j,
            i,
            greatest,
            last,
        ),
{
    lemma_rows_order_flip::<T>(data, len, i, j);
    lemma_rows_order_flip::<T>(data, len, j, k);
    lemma_rows_order_flip::<T>(data, len, i, k);
    lemma_elem_order_total::<T>();
    let ord = elem_order::<T>();
    let a = row_at(data, len, i);
    let b = row_at(data, len, j);
    let c = row_at(data, len, k);
    if beats::<T>(data, len, i, j, greatest, last) && beats::<T>(data, len, j, k, greatest, last) {
        if greatest {
            lemma_lex_by_trans(ord, c, b, a, 0);
            if rows_order::<T>(data, len, i, j) == Order::Equal && rows_order::<T>(
                data,
                len,
                j,
                k,
            ) == Order::Equal {
                lemma_lex_by_trans(ord, a, b, c, 0);
            }
        } else {
            lemma_lex_by_trans(ord, a, b, c, 0);
            if rows_order::<T>(data, len, i, j) == Order::Equal && rows_order::<T>(
                data,
                len,
                j,
                k,
            ) == Order::Equal {
                lemma_lex_by_trans(ord, c, b, a, 0);
            }
        }
    }
}

/// There is one row that is chosen over every other, and no second.
pub proof fn lemma_extreme_unique<T: ArrayValue>(
    data: Seq<T::V>,
    len: int,
    n: int,
    i: int,
    j: int,
    greatest: bool,
    last: bool,
)
    requires
        is_extreme::<T>(data, len, n, i, greatest, last),
        is_extreme::<T>(data, len, n, j, greatest, last),
    ensures
        i == j,
{
    if i != j {
        lemma_beats::<T>(data, len, i, j, i, greatest, last);
        assert(beats::<T>(data, len, i, j, greatest, last));
        assert(beats::<T>(data, len, j, i, greatest, last));
    }
}

impl<T: ArrayValue> Array<T> {
    /// The place of the least row, or the greatest: the first such row or
    /// the last.
    fn extreme_index(&self, env: &FillContext, greatest: bool, last: bool) -> (r: Result<
        Num,
        UiuaError,
    >)
        requires
            self.wf(),
            env.wf(),
        ensures
            is_extreme_index::<T>(self@, env.fill_view(), greatest, last, seen(r)),
    {
        let op = if greatest {
            Op::MaxIndex
        } else {
            Op::MinIndex
        };
        if self.shape.rank() == 0 {
            return Err(UiuaError::new(op, ErrorKind::Scalar));
        }
        let n = self.row_count();
        if n == 0 {
            return match Num::get_fill(env) {
                Some(f) => Ok(f),
                None => Err(UiuaError::new(op, ErrorKind::NoFill)),
            };
        }
        proof {
            crate::algorithm::rows::lemma_row_shape(self@);
            assert(self@.data.len() == self.data.len());
        }
        let row_len = self.row_len().unwrap();
        let ghost data = self@.data;
        let ghost len = row_len as int;
        let mut best: usize = 0;
        let mut k: usize = 1;
        while k < n
            invariant
                1 <= k <= n,
                best < k,
                data == views(self.data@),
                len == row_len as int,
                self.data@.len() == n * row_len,
                is_extreme::<T>(data, len, k as int, best as int, greatest, last),
            decreases n - k,
        {
            proof {
                lemma_row_bounds(k as int, len, n as int);
                lemma_row_bounds(best as int, len, n as int);
                lemma_rows_order_flip::<T>(data, len, k as int, best as int);
            }
            let o = compare_rows(&self.data, row_len, k, best);
            let better = match o {
                Order::Less => !greatest,
                Order::Greater => greatest,
                Order::Equal => last,
            };
            proof {
                assert(better == beats::<T>(data, len, k as int, best as int, greatest, last));
                lemma_beats::<T>(data, len, k as int, best as int, k as int, greatest, last);
                if better {
                    assert forall|j: int| 0 <= j < k + 1 && j != k implies #[trigger] beats::<T>(
                        data,
                        len,
                        k as int,
                        j,
                        greatest,
                        last,
                    ) by {
                        if j != best {
                            assert(beats::<T>(data, len, best as int, j, greatest, last));
                            lemma_beats::<T>(data, len, k as int, best as int, j, greatest, last);
                        }
                    }
                } else {
                    assert forall|j: int|
                        0 <= j < k + 1 && j != best implies #[trigger] beats::<T>(
                        data,
                        len,
                        best as int,
                        j,
                        greatest,
                        last,
                    ) by {
                        if j < k {
                            assert(beats::<T>(data, len, best as int, j, greatest, last));
                        }
                    }
                }
            }
            if better {
                best = k;
            }
            k += 1;
        }
        Ok(Num::from_usize(best))
    }

    /// The place of the first of the least rows
    pub fn first_min_index(&self, env: &FillContext) -> (r: Result<Num, UiuaError>)
        requires
            self.wf(),
            env.wf(),
        ensures
            is_extreme_index::<T>(self@, env.fill_view(), false, false, seen(r)),
    {
        self.extreme_index(env, false, false)
    }

    /// The place of the first of the greatest rows
    pub fn first_max_index(&self, env: &FillContext) -> (r: Result<Num, UiuaError>)
        requires
            self.wf(),
            env.wf(),
        ensures
            is_extreme_index::<T>(self@, env.fill_view(), true, false, seen(r)),
    {
        self.extreme_index(env, true, false)
    }

    /// The place of the last of the least rows
    pub fn last_min_index(&self, env: &FillContext) -> (r: Result<Num, UiuaError>)
        requires
            self.wf(),
            env.wf(),
        ensures
            is_extreme_index::<T>(self@, env.fill_view(), false, true, seen(r)),
    {
        self.extreme_index(env, false, true)
    }

    /// The place of the last of the greatest rows
    pub fn last_max_index(&self, env: &FillContext) -> (r: Result<Num, UiuaError>)
        requires
            self.wf(),
            env.wf(),
        ensures
            is_extreme_index::<T>(self@, env.fill_view(), true, true, seen(r)),
    {
        self.extreme_index(env, true, true)
    }
}

} // verus!
