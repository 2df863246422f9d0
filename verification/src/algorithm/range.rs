//! The grid of coordinates of a shape.

use vstd::prelude::*;
use crate::array::{
    agrees,
    checked_count,
    count,
    lemma_count_concat,
    lemma_count_one,
    lemma_count_zero,
    list_view,
    plain_view,
    views,
    Array,
};
use crate::algorithm::naturals::{coordinate, coordinates, nat_list_error, natural_valued, nats, unravel};
use crate::error::{ErrorKind, ErrorView, Op, UiuaError, failure};
use crate::num::{num_of_nat, Num};
use crate::value::{lemma_value_view, Value, ValueView};

verus! {

/// The largest number of elements that a grid of coordinates may have:
/// what two to the power 30 bytes hold of numbers of eight bytes
pub const RANGE_LIMIT: usize = 0x800_0000;

/// The naturals below `n`, in order, as numbers
pub open spec fn iota(n: nat) -> Seq<Num> {
    Seq::new(n, |i: int| num_of_nat(i as nat))
}

/// The coordinates of every place of an array of the given sizes, in
/// row-major order, one place after the other
pub open spec fn grid(sizes: Seq<usize>) -> Seq<Num> {
    let rank = sizes.len() as int;
    Seq::new(
        count(sizes) * sizes.len(),
        |x: int| num_of_nat(coordinate(sizes, x / rank, x % rank) as nat),
    )
}

/// The number of elements of the grid of the given sizes, as far as a
/// machine word holds it
pub open spec fn grid_len(sizes: Seq<usize>) -> Option<usize> {
    if count(sizes) * sizes.len() <= usize::MAX {
        Some((count(sizes) * sizes.len()) as usize)
    } else {
        None
    }
}

/// What the range of a value is: for a scalar natural, the list of the
/// naturals below it; for a list of naturals, taken as sizes, the
/// coordinates of every place of an array of those sizes, in row-major
/// order along a new last axis. It is an error where the value is not a
/// scalar or a list of naturals, and where the grid would have more
/// elements than the limit allows; that error names the sizes that were
/// asked for and, where a machine word holds it, the number of elements.
pub open spec fn range_model(v: ValueView) -> Result<ValueView, ErrorView> {
    let sizes = nats(v);
    if !(natural_valued(v) && v.shape().sizes.len() <= 1) {
        Err(nat_list_error(v, Op::Range))
    } else if v.shape().sizes.len() == 0 {
        Ok(ValueView::Num(list_view(iota(sizes[0] as nat))))
    } else if sizes.len() == 0 {
        Ok(ValueView::Num(plain_view(seq![0usize], Seq::empty())))
    } else if count(sizes) * sizes.len() > RANGE_LIMIT {
        Err(failure(Op::Range, ErrorKind::TooLarge(grid_len(sizes))).about(sizes))
    } else {
        Ok(ValueView::Num(plain_view(sizes.push(sizes.len() as usize), grid(sizes))))
    }
}

/// The naturals below `n`, in order, as numbers.
pub fn naturals_below(n: usize) -> (r: Vec<Num>)
    ensures
        r@ == iota(n as nat),
{
    let mut out: Vec<Num> = Vec::new();
    let mut i: usize = 0;
    while i < n
        invariant
            i <= n,
            out@.len() == i,
            forall|k: int| 0 <= k < i ==> out@[k] == num_of_nat(k as nat),
        decreases n - i,
    {
        out.push(Num::from_usize(i));
        i += 1;
    }
    assert(out@ =~= iota(n as nat));
    out
}

/// What `range_grid` gives where it gives numbers: the grid of the sizes,
/// and for no sizes at all the one number zero
pub open spec fn grid_data(sizes: Seq<usize>) -> Seq<Num> {
    if sizes.len() == 0 {
        seq![num_of_nat(0)]
    } else {
        grid(sizes)
    }
}

/// The coordinates of every place of an array of the given sizes; for no
/// sizes at all, the one number zero. It is an error where the coordinates
/// are more than the limit allows.
pub fn range_grid(sizes: &[usize]) -> (r: Result<Vec<Num>, UiuaError>)
    ensures
        match r {
            Ok(data) => count(sizes@) * sizes@.len() <= RANGE_LIMIT && data@ == grid_data(sizes@),
            Err(e) => count(sizes@) * sizes@.len() > RANGE_LIMIT && e@ == failure(
                Op::Range,
                ErrorKind::TooLarge(grid_len(sizes@)),
            ).about(sizes@),
        },
{
    let rank = sizes.len();
    if rank == 0 {
        let mut one: Vec<Num> = Vec::new();
        one.push(Num::from_usize(0));
        assert(one@ =~= seq![num_of_nat(0)]);
        return Ok(one);
    }
    assert(sizes@.subrange(0, rank as int) =~= sizes@);
    let places = match checked_count(sizes, 0, rank) {
        Some(places) => places,
        None => {
            assert(count(sizes@) * sizes@.len() > usize::MAX) by (nonlinear_arith)
                requires
                    count(sizes@) > usize::MAX,
                    sizes@.len() >= 1,
            ;
            return Err(
                UiuaError::new(Op::Range, ErrorKind::TooLarge(None)).about(
                    vstd::slice::slice_to_vec(sizes),
                ),
            );
        },
    };
    let total = match places.checked_mul(rank) {
        Some(total) => total,
        None => {
            return Err(
                UiuaError::new(Op::Range, ErrorKind::TooLarge(None)).about(
                    vstd::slice::slice_to_vec(sizes),
                ),
            );
        },
    };
    if total > RANGE_LIMIT {
        return Err(
            UiuaError::new(Op::Range, ErrorKind::TooLarge(Some(total))).about(
                vstd::slice::slice_to_vec(sizes),
            ),
        );
    }
    let ghost goal = grid(sizes@);
    proof {
        if places > 0 {
            lemma_count_zero(sizes@);
            assert forall|j: int| 0 <= j < sizes@.len() implies sizes@[j] > 0 by {
                if sizes@[j] == 0 {
                    assert(exists|k: int| 0 <= k < sizes@.len() && sizes@[k] == 0);
                }
            }
        }
    }
    let mut data: Vec<Num> = Vec::with_capacity(total);
    let mut i: usize = 0;
    while i < places
        invariant
            i <= places,
            rank == sizes@.len(),
            rank > 0,
            places * rank == total,
            goal == grid(sizes@),
            goal.len() == total,
            places > 0 ==> forall|j: int| 0 <= j < sizes@.len() ==> sizes@[j] > 0,
            data@.len() == i * rank,
            forall|x: int| 0 <= x < data@.len() ==> data@[x] == goal[x],
        decreases places - i,
    {
        let coords = unravel(sizes, i);
        proof {
            crate::index::lemma_row_bounds(i as int, rank as int, places as int);
        }
        let mut j: usize = 0;
        while j < rank
            invariant
                j <= rank,
                i < places,
                rank == sizes@.len(),
                places * rank == total,
                goal == grid(sizes@),
                goal.len() == total,
                forall|k: int| 0 <= k < sizes@.len() ==> sizes@[k] > 0,
                coords@ == coordinates(sizes@, i as int),
                data@.len() == i * rank + j,
                i * rank + rank <= places * rank,
                forall|x: int| 0 <= x < data@.len() ==> data@[x] == goal[x],
            decreases rank - j,
        {
            proof {
                crate::index::lemma_split(i as int, rank as int, j as int);
                let c = coordinate(sizes@, i as int, j as int);
                vstd::arithmetic::div_mod::lemma_mod_bound(
                    (i as int) / (count(sizes@.skip(j + 1)) as int),
                    sizes@[j as int] as int,
                );
                assert(0 <= c < sizes@[j as int]);
                assert(coords@[j as int] == c as usize);
            }
            data.push(Num::from_usize(coords[j]));
            j += 1;
        }
        i += 1;
    }
    assert(data@ =~= goal);
    Ok(data)
}

impl Value {
    /// Create a `range` array
    pub fn range(&self) -> (r: Result<Value, UiuaError>)
        requires
            self.wf(),
        ensures
            agrees(r, range_model(self@)),
            r is Ok ==> r->Ok_0.wf(),
    {
        let sizes = match self.as_nats(Op::Range) {
            Ok(sizes) => sizes,
            Err(e) => {
                return Err(e);
            },
        };
        if self.rank() == 0 {
            proof {
                crate::algorithm::wher::lemma_shape_len(self@);
            }
            let data = naturals_below(sizes[0]);
            let v = Value::Num(Array::from_vec(data));
            proof {
                lemma_value_view(v);
                assert(views(data@) =~= iota(sizes@[0] as nat));
            }
            return Ok(v);
        }
        if sizes.len() == 0 {
            let mut shape: Vec<usize> = Vec::new();
            shape.push(0);
            let data: Vec<Num> = Vec::new();
            proof {
                assert(shape@ =~= seq![0usize]);
                lemma_count_one(0);
                assert(views(data@) =~= Seq::<Num>::empty());
            }
            let v = Value::Num(Array::from_parts(shape.as_slice(), data));
            proof {
                lemma_value_view(v);
            }
            return Ok(v);
        }
        let data = match range_grid(sizes.as_slice()) {
            Ok(data) => data,
            Err(e) => {
                return Err(e);
            },
        };
        let mut shape = sizes;
        let rank = shape.len();
        let ghost asked = shape@;
        shape.push(rank);
        proof {
            lemma_count_concat(asked, seq![rank]);
            lemma_count_one(rank);
            assert(shape@ =~= asked + seq![rank]);
            assert(views(data@) =~= grid(asked));
        }
        let v = Value::Num(Array::from_parts(shape.as_slice(), data));
        proof {
            lemma_value_view(v);
        }
        Ok(v)
    }
}

} // verus!
