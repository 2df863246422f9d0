//! Reading the elements of a value as natural numbers, and the coordinates
//! of a place in an array.

use vstd::prelude::*;
use vstd::arithmetic::div_mod::lemma_div_denominator;
use crate::array::count;
use crate::algorithm::reverse::lemma_depth_counts;
use crate::error::{ErrorKind, ErrorView, Op, UiuaError, failure};
use crate::index::lemma_parts;
use crate::value::{Value, ValueView};

verus! {

/// The natural number that element `i` of the value is, if it is a number
/// or a byte that is one
pub open spec fn nat_at(v: ValueView, i: int) -> Option<usize> {
    match v {
        ValueView::Num(a) => a.data[i].index_value(),
        ValueView::Byte(a) => Some(a.data[i] as usize),
        _ => None,
    }
}

/// The value holds numbers or bytes.
pub open spec fn numeric(v: ValueView) -> bool {
    v is Num || v is Byte
}

/// Every element of the value is a natural number.
pub open spec fn natural_valued(v: ValueView) -> bool {
    numeric(v) && forall|i: int| 0 <= i < v.len() ==> (#[trigger] nat_at(v, i)).is_some()
}

/// The natural numbers that the elements of the value are
pub open spec fn nats(v: ValueView) -> Seq<usize> {
    Seq::new(v.len(), |i: int| nat_at(v, i).unwrap())
}

/// Why a value is refused as an array of naturals: its kind, or one of its
/// elements
pub open spec fn naturals_error(v: ValueView, op: Op) -> ErrorView {
    if numeric(v) {
        failure(op, ErrorKind::NotNatural)
    } else {
        failure(op, ErrorKind::WrongKind(v.kind()))
    }
}

/// Why a value is refused as a list of naturals: its kind, its rank, or one
/// of its elements
pub open spec fn nat_list_error(v: ValueView, op: Op) -> ErrorView {
    if numeric(v) && v.shape().sizes.len() > 1 {
        failure(op, ErrorKind::Rank(v.shape().sizes.len() as usize))
    } else {
        naturals_error(v, op)
    }
}

/// Coordinate `j` of the place `i` in an array of the given sizes, in
/// row-major order
pub open spec fn coordinate(sizes: Seq<usize>, i: int, j: int) -> int {
    (i / (count(sizes.skip(j + 1)) as int)) % (sizes[j] as int)
}

/// The coordinates of the place `i` in an array of the given sizes
pub open spec fn coordinates(sizes: Seq<usize>, i: int) -> Seq<usize> {
    Seq::new(sizes.len(), |j: int| coordinate(sizes, i, j) as usize)
}

/// The coordinates of the place `i` in an array of the given sizes, none
/// of which is zero.
pub fn unravel(sizes: &[usize], i: usize) -> (r: Vec<usize>)
    requires
        forall|j: int| 0 <= j < sizes@.len() ==> sizes@[j] > 0,
    ensures
        r@ == coordinates(sizes@, i as int),
{
    let rank = sizes.len();
    let mut out: Vec<usize> = Vec::with_capacity(rank);
    let mut j: usize = 0;
    while j < rank
        invariant
            j <= rank,
            rank == sizes@.len(),
            out@.len() == j,
        decreases rank - j,
    {
        out.push(0);
        j += 1;
    }
    let mut rest: usize = i;
    let mut j: usize = rank;
    assert(sizes@.skip(rank as int) =~= Seq::<usize>::empty());
    while j > 0
        invariant
            j <= rank,
            rank == sizes@.len(),
            out@.len() == rank,
            forall|k: int| 0 <= k < sizes@.len() ==> sizes@[k] > 0,
            count(sizes@.skip(j as int)) > 0,
            rest == (i as int) / (count(sizes@.skip(j as int)) as int),
            forall|k: int| j <= k < rank ==> out@[k] == coordinate(sizes@, i as int, k),
        decreases j,
    {
        j -= 1;
        let d = sizes[j];
        proof {
            let below = count(sizes@.skip(j + 1)) as int;
            lemma_depth_counts(sizes@, j as int);
            lemma_div_denominator(i as int, below, d as int);
            lemma_parts(rest as int, d as int);
            assert(count(sizes@.skip(j as int)) > 0) by (nonlinear_arith)
                requires
                    count(sizes@.skip(j as int)) == (d as nat) * (below as nat),
                    d > 0,
                    below > 0,
            ;
            assert(below * d == d * below) by (nonlinear_arith);
        }
        out.set(j, rest % d);
        rest = rest / d;
    }
    assert(out@ =~= coordinates(sizes@, i as int));
    out
}

impl Value {
    /// The elements as natural numbers, for a value of numbers or bytes of
    /// which each is a natural number that a machine word holds.
    pub fn naturals(&self, op: Op) -> (r: Result<Vec<usize>, UiuaError>)
        ensures
            match r {
                Ok(v) => natural_valued(self@) && v@ == nats(self@),
                Err(e) => !natural_valued(self@) && e@ == naturals_error(self@, op),
            },
    {
        match self {
            Value::Num(a) => {
                let mut out: Vec<usize> = Vec::with_capacity(a.data.len());
                let mut i: usize = 0;
                while i < a.data.len()
                    invariant
                        i <= a.data@.len(),
                        *self == Value::Num(*a),
                        out@.len() == i,
                        forall|k: int| 0 <= k < i ==> #[trigger] nat_at(self@, k) == Some(out@[k]),
                    decreases a.data@.len() - i,
                {
                    match a.data[i].as_nat() {
                        Some(n) => {
                            out.push(n);
                        },
                        None => {
                            assert(nat_at(self@, i as int).is_none());
                            return Err(UiuaError::new(op, ErrorKind::NotNatural));
                        },
                    }
                    i += 1;
                }
                assert(out@ =~= nats(self@));
                Ok(out)
            },
            Value::Byte(a) => {
                let mut out: Vec<usize> = Vec::with_capacity(a.data.len());
                let mut i: usize = 0;
                while i < a.data.len()
                    invariant
                        i <= a.data@.len(),
                        *self == Value::Byte(*a),
                        out@.len() == i,
                        forall|k: int| 0 <= k < i ==> #[trigger] nat_at(self@, k) == Some(out@[k]),
                    decreases a.data@.len() - i,
                {
                    out.push(a.data[i] as usize);
                    i += 1;
                }
                assert(out@ =~= nats(self@));
                Ok(out)
            },
            _ => Err(UiuaError::new(op, ErrorKind::WrongKind(self.kind()))),
        }
    }

    /// The elements as natural numbers, for a scalar or a list of numbers
    /// or bytes of which each is a natural number that a machine word
    /// holds.
    pub fn as_nats(&self, op: Op) -> (r: Result<Vec<usize>, UiuaError>)
        ensures
            match r {
                Ok(v) => natural_valued(self@) && self@.shape().sizes.len() <= 1 && v@ == nats(
                    self@,
                ),
                Err(e) => !(natural_valued(self@) && self@.shape().sizes.len() <= 1) && e@
                    == nat_list_error(self@, op),
            },
    {
        let rank = self.rank();
        match self {
            Value::Num(_) => {
                if rank > 1 {
                    return Err(UiuaError::new(op, ErrorKind::Rank(rank)));
                }
            },
            Value::Byte(_) => {
                if rank > 1 {
                    return Err(UiuaError::new(op, ErrorKind::Rank(rank)));
                }
            },
            _ => {},
        }
        self.naturals(op)
    }
}

} // verus!
