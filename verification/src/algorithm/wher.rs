//! The places where an array of naturals is not zero, and the array of
//! naturals that has given places.

use vstd::prelude::*;
use std::collections::HashMap;
use crate::array::{agrees, list_view, scalar_view, count, lemma_count_zero, Array, ArrayView};
use crate::algorithm::naturals::{coordinates, numeric, unravel};
use crate::element::ArrayValue;
use crate::error::{ErrorKind, ErrorView, Op, UiuaError, failure};
use crate::num::{num_of_nat, Num};
use crate::value::{lemma_value_view, FillContext, Value, ValueView};

verus! {

/// The numbers that the naturals are
pub open spec fn nums_of(s: Seq<usize>) -> Seq<Num> {
    Seq::new(s.len(), |i: int| num_of_nat(s[i] as nat))
}

/// The numbers that the naturals are.
pub fn to_nums(v: &Vec<usize>) -> (r: Vec<Num>)
    ensures
        r@ == nums_of(v@),
{
    let mut out: Vec<Num> = Vec::with_capacity(v.len());
    let mut i: usize = 0;
    while i < v.len()
        invariant
            i <= v@.len(),
            out@.len() == i,
            forall|k: int| 0 <= k < i ==> out@[k] == num_of_nat(v@[k] as nat),
        decreases v@.len() - i,
    {
        out.push(Num::from_usize(v[i]));
        i += 1;
    }
    assert(out@ =~= nums_of(v@));
    out
}

/// Element `i` ends the search for a place that is not zero: it is not
/// zero, or it is a number that is no natural number.
pub open spec fn stops(v: ValueView, i: int) -> bool {
    match v {
        ValueView::Num(a) => a.data[i].nat_value().is_none() || !a.data[i].zero(),
        ValueView::Byte(a) => a.data[i] != 0,
        _ => false,
    }
}

/// Element `i` is a number that is no natural number.
pub open spec fn unnatural(v: ValueView, i: int) -> bool {
    match v {
        ValueView::Num(a) => a.data[i].nat_value().is_none(),
        _ => false,
    }
}

/// The first place from `k` on whose element ends the search, or the
/// number of elements where there is none
pub open spec fn first_stop(v: ValueView, k: int) -> int
    decreases v.len() - k,
{
    if k < 0 || k >= v.len() {
        v.len() as int
    } else if stops(v, k) {
        k
    } else {
        first_stop(v, k + 1)
    }
}

/// What the first place where a value is not zero is: the place itself for
/// a scalar or a list, its coordinates for an array of more dimensions, and
/// the fill value where every element is zero. It is an error where the
/// value holds neither numbers nor bytes, where a number that is no natural
/// number comes before any place that is not zero, and where every element
/// is zero and there is no fill value.
pub open spec fn first_where_model(v: ValueView, fill: Option<ValueView>) -> Result<
    ArrayView<Num>,
    ErrorView,
> {
    let p = first_stop(v, 0);
    if !numeric(v) {
        Err(failure(Op::Where, ErrorKind::WrongKind(v.kind())))
    } else if p < v.len() {
        if unnatural(v, p) {
            Err(failure(Op::Where, ErrorKind::NotNatural))
        } else if v.shape().sizes.len() <= 1 {
            Ok(scalar_view(num_of_nat(p as nat)))
        } else {
            Ok(list_view(nums_of(coordinates(v.shape().sizes, p))))
        }
    } else {
        match Num::fill_of(fill) {
            Some(f) => Ok(scalar_view(f)),
            None => Err(failure(Op::Where, ErrorKind::NoFill)),
        }
    }
}

impl Value {
    /// The first place from which on the search for a place that is not
    /// zero ends, in a value of numbers or bytes.
    fn find_stop(&self) -> (p: usize)
        requires
            numeric(self@),
        ensures
            p == first_stop(self@, 0),
            p <= self@.len(),
            p < self@.len() ==> stops(self@, p as int),
    {
        match self {
            Value::Num(a) => {
                let mut i: usize = 0;
                while i < a.data.len()
                    invariant
                        i <= a.data@.len(),
                        *self == Value::Num(*a),
                        first_stop(self@, 0) == first_stop(self@, i as int),
                    decreases a.data@.len() - i,
                {
                    let x = a.data[i];
                    let natural = x.is_integral() && (!x.is_negative() || x.is_zero());
                    if !natural || !x.is_zero() {
                        return i;
                    }
                    i += 1;
                }
                i
            },
            Value::Byte(a) => {
                let mut i: usize = 0;
                while i < a.data.len()
                    invariant
                        i <= a.data@.len(),
                        *self == Value::Byte(*a),
                        first_stop(self@, 0) == first_stop(self@, i as int),
                    decreases a.data@.len() - i,
                {
                    if a.data[i] != 0 {
                        return i;
                    }
                    i += 1;
                }
                i
            },
            _ => 0,
        }
    }

    /// Whether element `i` is a number that is no natural number
    fn is_unnatural(&self, i: usize) -> (r: bool)
        requires
            i < self@.len(),
        ensures
            r == unnatural(self@, i as int),
    {
        match self {
            Value::Num(a) => {
                let x = a.data[i];
                !(x.is_integral() && (!x.is_negative() || x.is_zero()))
            },
            _ => false,
        }
    }

    /// Get the `first` index `where` the value is nonzero
    pub fn first_where(&self, env: &FillContext) -> (r: Result<Array<Num>, UiuaError>)
        requires
            self.wf(),
            env.wf(),
        ensures
            agrees(r, first_where_model(self@, env.fill_view())),
            r is Ok ==> r->Ok_0.wf(),
    {
        match self {
            Value::Num(_) => {},
            Value::Byte(_) => {},
            _ => {
                return Err(
                    UiuaError::new(Op::Where, ErrorKind::WrongKind(self.kind())),
                );
            },
        }
        let p = self.find_stop();
        let n = match self {
            Value::Num(a) => a.data.len(),
            Value::Byte(a) => a.data.len(),
            _ => 0,
        };
        if p < n {
            if self.is_unnatural(p) {
                return Err(UiuaError::new(Op::Where, ErrorKind::NotNatural));
            }
            if self.rank() <= 1 {
                Ok(Array::scalar(Num::from_usize(p)))
            } else {
                let sizes = self.shape().sizes();
                proof {
                    lemma_count_zero(sizes@);
                }
                let place = unravel(sizes, p);
                let data = to_nums(&place);
                let r = Array::from_vec(data);
                assert(r@.data =~= nums_of(coordinates(self@.shape().sizes, p as int)));
                Ok(r)
            }
        } else {
            match Num::get_fill(env) {
                Some(f) => Ok(Array::scalar(f)),
                None => Err(UiuaError::new(Op::Where, ErrorKind::NoFill)),
            }
        }
    }
}

/// The largest of the naturals at place `j` of the first `m` rows of `t`
/// naturals, and one more; zero where there is no row
pub open spec fn extent(data: Seq<usize>, t: int, m: int, j: int) -> nat
    decreases m,
{
    if m <= 0 {
        0
    } else {
        let below = extent(data, t, m - 1, j);
        let here = (data[(m - 1) * t + j] + 1) as nat;
        if here > below {
            here
        } else {
            below
        }
    }
}

/// The place in an array of the given sizes that has the given
/// coordinates, in row-major order
pub open spec fn place(sizes: Seq<usize>, coords: Seq<usize>) -> int
    decreases sizes.len(),
{
    if sizes.len() == 0 {
        0
    } else {
        place(sizes.drop_last(), coords.drop_last()) * (sizes.last() as int) + (
        coords[sizes.len() - 1] as int)
    }
}

/// Row `r` of rows of `t` naturals
pub open spec fn row_of(data: Seq<usize>, t: int, r: int) -> Seq<usize> {
    data.subrange(r * t, r * t + t)
}

/// How many of the first `m` rows of `t` naturals are the coordinates of
/// the place `x` in an array of the given sizes
pub open spec fn rows_at(data: Seq<usize>, t: int, sizes: Seq<usize>, m: int, x: int) -> nat
    decreases m,
{
    if m <= 0 {
        0
    } else {
        rows_at(data, t, sizes, m - 1, x) + if place(sizes, row_of(data, t, m - 1)) == x {
            1nat
        } else {
            0nat
        }
    }
}

/// The sizes that rows of coordinates ask for: at each place, the largest
/// coordinate there is and one more
pub open spec fn extents(data: Seq<usize>, t: int, m: int) -> Seq<nat> {
    Seq::new(t as nat, |j: int| extent(data, t, m, j))
}

/// The sizes as machine words
pub open spec fn as_sizes(s: Seq<nat>) -> Seq<usize> {
    Seq::new(s.len(), |j: int| s[j] as usize)
}

/// Every one of the sizes is one that a machine word holds.
pub open spec fn sizes_fit(s: Seq<nat>) -> bool {
    forall|j: int| 0 <= j < s.len() ==> #[trigger] s[j] <= usize::MAX
}

/// The array of counts that has the given rows of coordinates: its sizes
/// are the extents of the rows, and at each place stands the number of
/// rows that are the coordinates of the place.
pub open spec fn tallied(data: Seq<usize>, t: int, m: int) -> ArrayView<Num> {
    let sizes = as_sizes(extents(data, t, m));
    crate::array::plain_view(
        sizes,
        Seq::new(count(sizes), |x: int| num_of_nat(rows_at(data, t, sizes, m, x))),
    )
}

/// The coordinates that a value of naturals holds: the number of places in
/// a row and the number of rows. A scalar or a list holds one place in a
/// row for each of its elements.
pub open spec fn row_width(v: ValueView) -> int {
    if v.shape().sizes.len() == 2 {
        v.shape().sizes[1] as int
    } else {
        1
    }
}

/// The number of rows of coordinates that a value holds
pub open spec fn row_number(v: ValueView) -> int {
    if v.shape().sizes.len() == 2 {
        v.shape().sizes[0] as int
    } else {
        v.len() as int
    }
}

/// What the array is of which the given value holds the places that are
/// not zero, each as often as the element there says. It is an error where
/// the value has more than two dimensions, where it is not made of natural
/// numbers, and where the array would have more elements, or a longer
/// side, than a machine word counts.
pub open spec fn inverse_where_model(v: ValueView) -> Result<ValueView, ErrorView> {
    let rank = v.shape().sizes.len();
    let t = row_width(v);
    let m = row_number(v);
    let data = crate::algorithm::naturals::nats(v);
    if rank > 2 {
        Err(failure(Op::InverseWhere, ErrorKind::Rank(rank as usize)))
    } else if !crate::algorithm::naturals::natural_valued(v) {
        Err(crate::algorithm::naturals::naturals_error(v, Op::InverseWhere))
    } else if !sizes_fit(extents(data, t, m)) || count(as_sizes(extents(data, t, m)))
        > usize::MAX {
        Err(failure(Op::InverseWhere, ErrorKind::TooLarge(None)))
    } else {
        Ok(ValueView::Num(tallied(data, t, m)))
    }
}

/// The product of the first sizes is at most that of all, where none of
/// the others is zero.
pub proof fn lemma_count_prefix(sizes: Seq<usize>, j: int)
    requires
        0 <= j <= sizes.len(),
        forall|k: int| j <= k < sizes.len() ==> sizes[k] > 0,
    ensures
        count(sizes.subrange(0, j)) <= count(sizes),
{
    crate::array::lemma_count_split(sizes, j);
    let rest = sizes.subrange(j, sizes.len() as int);
    lemma_count_zero(rest);
    assert(count(sizes.subrange(0, j)) * count(rest) >= count(sizes.subrange(0, j)))
        by (nonlinear_arith)
        requires
            count(rest) >= 1,
    ;
}

/// The extents of `m` rows of `t` coordinates, or nothing where one of
/// them is beyond the machine words.
fn find_extents(data: &Vec<usize>, t: usize, m: usize) -> (r: Option<Vec<usize>>)
    requires
        data@.len() == m * t,
    ensures
        match r {
            Some(sizes) => sizes_fit(extents(data@, t as int, m as int)) && sizes@ == as_sizes(
                extents(data@, t as int, m as int),
            ),
            None => !sizes_fit(extents(data@, t as int, m as int)),
        },
{
    let mut sizes: Vec<usize> = Vec::with_capacity(t);
    let mut j: usize = 0;
    while j < t
        invariant
            j <= t,
            sizes@.len() == j,
            forall|k: int| 0 <= k < j ==> sizes@[k] == 0,
        decreases t - j,
    {
        sizes.push(0);
        j += 1;
    }
    let mut r: usize = 0;
    while r < m
        invariant
            r <= m,
            data@.len() == m * t,
            sizes@.len() == t,
            forall|k: int| 0 <= k < t ==> sizes@[k] == extent(data@, t as int, r as int, k),
        decreases m - r,
    {
        let mut j: usize = 0;
        while j < t
            invariant
                j <= t,
                r < m,
                data@.len() == m * t,
                sizes@.len() == t,
                forall|k: int| 0 <= k < j ==> sizes@[k] == extent(data@, t as int, r + 1, k),
                forall|k: int| j <= k < t ==> sizes@[k] == extent(data@, t as int, r as int, k),
            decreases t - j,
        {
            proof {
                crate::index::lemma_row_bounds(r as int, t as int, m as int);
            assert(data@.len() == data.len());
            }
            let c = data[r * t + j];
            if c == usize::MAX {
                proof {
                    let e = extents(data@, t as int, m as int);
                    lemma_extent_grows(data@, t as int, r + 1, m as int, j as int);
                    assert(e[j as int] > usize::MAX);
                }
                return None;
            }
            if c + 1 > sizes[j] {
                sizes.set(j, c + 1);
            }
            j += 1;
        }
        r += 1;
    }
    proof {
        let e = extents(data@, t as int, m as int);
        assert forall|k: int| 0 <= k < e.len() implies #[trigger] e[k] <= usize::MAX by {
            assert(sizes@[k] == e[k]);
        }
        assert(sizes@ =~= as_sizes(e));
    }
    Some(sizes)
}

/// The extent of more rows is at least that of fewer.
pub proof fn lemma_extent_grows(data: Seq<usize>, t: int, a: int, b: int, j: int)
    requires
        a <= b,
    ensures
        extent(data, t, a, j) <= extent(data, t, b, j),
    decreases b - a,
{
    if a < b {
        lemma_extent_grows(data, t, a, b - 1, j);
    }
}

/// A coordinate of a row is below the extent at its place.
pub proof fn lemma_below_extent(data: Seq<usize>, t: int, m: int, r: int, j: int)
    requires
        0 <= r < m,
    ensures
        data[r * t + j] < extent(data, t, m, j),
{
    lemma_extent_grows(data, t, r + 1, m, j);
}

/// The place of row `r` among the first `j` sizes.
fn find_place(data: &Vec<usize>, t: usize, m: usize, r: usize, sizes: &Vec<usize>) -> (p: usize)
    requires
        data@.len() == m * t,
        r < m,
        sizes@.len() == t,
        count(sizes@) <= usize::MAX,
        forall|j: int| 0 <= j < t ==> data@[r * t + j] < #[trigger] sizes@[j],
    ensures
        p == place(sizes@, row_of(data@, t as int, r as int)),
        p < count(sizes@),
{
    let ghost row = row_of(data@, t as int, r as int);
    let mut p: usize = 0;
    let mut j: usize = 0;
    assert(sizes@.subrange(0, 0) =~= Seq::<usize>::empty());
    proof {
        crate::index::lemma_row_bounds(r as int, t as int, m as int);
            assert(data@.len() == data.len());
    }
    while j < t
        invariant
            j <= t,
            r < m,
            data@.len() == m * t,
            sizes@.len() == t,
            count(sizes@) <= usize::MAX,
            row == row_of(data@, t as int, r as int),
            forall|k: int| 0 <= k < t ==> data@[r * t + k] < #[trigger] sizes@[k],
            p == place(sizes@.subrange(0, j as int), row.subrange(0, j as int)),
            p < count(sizes@.subrange(0, j as int)),
        decreases t - j,
    {
        proof {
            crate::index::lemma_row_bounds(r as int, t as int, m as int);
            assert(data@.len() == data.len());
            let next = sizes@.subrange(0, j + 1);
            assert(next.drop_last() =~= sizes@.subrange(0, j as int));
            assert(row.subrange(0, j + 1).drop_last() =~= row.subrange(0, j as int));
            assert(row.subrange(0, j + 1)[j as int] == data@[r * t + j]);
            assert(sizes@[j as int] > data@[r * t + j]);
            lemma_count_prefix(sizes@, j + 1);
            let before = count(sizes@.subrange(0, j as int));
            let d = sizes@[j as int] as int;
            let c = data@[r * t + j] as int;
            assert(p * d + c < before * d) by (nonlinear_arith)
                requires
                    0 <= p < before,
                    0 <= c < d,
            ;
            assert(0 <= p * d) by (nonlinear_arith)
                requires
                    0 <= p,
                    0 <= d,
            ;
        }
        p = p * sizes[j] + data[r * t + j];
        j += 1;
    }
    assert(sizes@.subrange(0, t as int) =~= sizes@);
    assert(row.subrange(0, t as int) =~= row);
    p
}

/// The array of counts that has the given rows of coordinates.
fn tally(data: &Vec<usize>, t: usize, m: usize) -> (r: Result<Array<Num>, UiuaError>)
    requires
        data@.len() == m * t,
    ensures
        match r {
            Ok(a) => {
                &&& a.wf()
                &&& sizes_fit(extents(data@, t as int, m as int))
                &&& count(as_sizes(extents(data@, t as int, m as int))) <= usize::MAX
                &&& a@ == tallied(data@, t as int, m as int)
            },
            Err(e) => {
                &&& e@ == failure(Op::InverseWhere, ErrorKind::TooLarge(None))
                &&& (!sizes_fit(extents(data@, t as int, m as int)) || count(
                    as_sizes(extents(data@, t as int, m as int)),
                ) > usize::MAX)
            },
        },
{
    let too_large = UiuaError::new(Op::InverseWhere, ErrorKind::TooLarge(None));
    let sizes = match find_extents(data, t, m) {
        Some(sizes) => sizes,
        None => {
            return Err(too_large);
        },
    };
    assert(sizes@.subrange(0, sizes@.len() as int) =~= sizes@);
    let total = match crate::array::checked_count(sizes.as_slice(), 0, sizes.len()) {
        Some(total) => total,
        None => {
            return Err(too_large);
        },
    };
    let mut counts: Vec<usize> = Vec::with_capacity(total);
    let mut x: usize = 0;
    while x < total
        invariant
            x <= total,
            counts@.len() == x,
            forall|k: int| 0 <= k < x ==> counts@[k] == 0,
        decreases total - x,
    {
        counts.push(0);
        x += 1;
    }
    let mut r: usize = 0;
    while r < m
        invariant
            r <= m,
            data@.len() == m * t,
            sizes@.len() == t,
            sizes@ == as_sizes(extents(data@, t as int, m as int)),
            sizes_fit(extents(data@, t as int, m as int)),
            total == count(sizes@),
            counts@.len() == total,
            forall|k: int|
                0 <= k < total ==> #[trigger] counts@[k] == rows_at(
                    data@,
                    t as int,
                    sizes@,
                    r as int,
                    k,
                ),
            forall|k: int| 0 <= k < total ==> #[trigger] counts@[k] <= r,
        decreases m - r,
    {
        proof {
            crate::index::lemma_row_bounds(r as int, t as int, m as int);
            assert(data@.len() == data.len());
            assert forall|j: int| 0 <= j < t implies data@[r * t + j] < #[trigger] sizes@[j] by {
                lemma_below_extent(data@, t as int, m as int, r as int, j);
                assert(extents(data@, t as int, m as int)[j] <= usize::MAX);
            }
        }
        let p = find_place(data, t, m, r, &sizes);
        let c = counts[p];
        counts.set(p, c + 1);
        r += 1;
    }
    let nums = to_nums(&counts);
    let a = Array::from_parts(sizes.as_slice(), nums);
    proof {
        assert(a@.data =~= tallied(data@, t as int, m as int).data);
    }
    Ok(a)
}

/// How often `x` stands in `s`
pub open spec fn how_often(s: Seq<usize>, x: int) -> nat
    decreases s.len(),
{
    if s.len() == 0 {
        0
    } else {
        how_often(s.drop_last(), x) + if s.last() == x {
            1nat
        } else {
            0nat
        }
    }
}

/// The items of `s` go up, or stay.
pub open spec fn is_sorted_list(s: Seq<usize>) -> bool {
    forall|i: int, j: int| 0 <= i <= j < s.len() ==> s[i] <= s[j]
}

/// As many of the first `m` rows of one coordinate stand at a place as
/// often as the place stands among them.
pub proof fn lemma_rows_at_how_often(s: Seq<usize>, sizes: Seq<usize>, m: int, x: int)
    requires
        sizes.len() == 1,
        0 <= m <= s.len(),
    ensures
        rows_at(s, 1, sizes, m, x) == how_often(s.subrange(0, m), x),
    decreases m,
{
    if m > 0 {
        lemma_rows_at_how_often(s, sizes, m - 1, x);
        assert(s.subrange(0, m).drop_last() =~= s.subrange(0, m - 1));
        let row = row_of(s, 1, m - 1);
        assert(row =~= seq![s[m - 1]]);
        lemma_place_single(sizes, row);
    }
}

/// Where `x` stands in `s` at the places of `lo..hi` and at no other, it
/// stands there as often as these places are.
pub proof fn lemma_run(s: Seq<usize>, lo: int, hi: int, x: int)
    requires
        0 <= lo <= hi <= s.len(),
        forall|k: int| 0 <= k < lo ==> s[k] != x,
        forall|k: int| lo <= k < hi ==> s[k] == x,
        forall|k: int| hi <= k < s.len() ==> s[k] != x,
    ensures
        how_often(s, x) == hi - lo,
    decreases s.len(),
{
    if s.len() > 0 {
        let front = s.drop_last();
        if hi == s.len() {
            if lo == hi {
                lemma_run(front, lo - 1, hi - 1, x);
            } else {
                lemma_run(front, lo, hi - 1, x);
            }
        } else {
            lemma_run(front, lo, hi, x);
        }
    }
}

/// Whether the items of the list go up, or stay.
pub fn list_is_sorted(list: &Vec<usize>) -> (r: bool)
    ensures
        r == is_sorted_list(list@),
{
    let mut k: usize = 1;
    while k < list.len()
        invariant
            1 <= k,
            forall|i: int, j: int| 0 <= i <= j < k && j < list@.len() ==> list@[i] <= list@[j],
        decreases list@.len() - k,
    {
        if list[k - 1] > list[k] {
            return false;
        }
        assert forall|i: int, j: int| 0 <= i <= j < k + 1 && j < list@.len() implies list@[i]
            <= list@[j] by {
            if j == k && i < k {
                assert(list@[i] <= list@[k - 1]);
            }
        }
        k += 1;
    }
    true
}

/// How often each of the places below `size` stands in a list that goes
/// up: the list is read once, from place to place.
fn count_sorted(list: &Vec<usize>, size: usize) -> (counts: Vec<usize>)
    requires
        is_sorted_list(list@),
    ensures
        counts@.len() == size,
        forall|x: int| 0 <= x < size ==> #[trigger] counts@[x] == how_often(list@, x),
{
    let n = list.len();
    let mut counts: Vec<usize> = Vec::with_capacity(size);
    let mut j: usize = 0;
    let mut i: usize = 0;
    while i < size
        invariant
            i <= size,
            j <= n,
            n == list@.len(),
            is_sorted_list(list@),
            counts@.len() == i,
            forall|k: int| 0 <= k < j ==> list@[k] < i,
            forall|k: int| j <= k < n ==> list@[k] >= i,
            forall|x: int| 0 <= x < i ==> #[trigger] counts@[x] == how_often(list@, x),
        decreases size - i,
    {
        let start = j;
        let mut count: usize = 0;
        while j < n && list[j] == i
            invariant
                start <= j <= n,
                n == list@.len(),
                count == j - start,
                forall|k: int| start <= k < j ==> list@[k] == i,
            decreases n - j,
        {
            j += 1;
            count += 1;
        }
        proof {
            assert forall|k: int| j <= k < n implies list@[k] != i by {
                if list@[k] == i {
                    assert(list@[j as int] <= list@[k]);
                }
            }
            lemma_run(list@, start as int, j as int, i as int);
            assert forall|k: int| j <= k < n implies list@[k] >= i + 1 by {
                assert(list@[k] != i);
            }
        }
        counts.push(count);
        i += 1;
    }
    counts
}

/// How often each of the places below `size` stands in a list: the places
/// are counted in a hash map, in the order of the list.
fn count_hashed(list: &Vec<usize>, size: usize) -> (counts: Vec<usize>)
    ensures
        counts@.len() == size,
        forall|x: int| 0 <= x < size ==> #[trigger] counts@[x] == how_often(list@, x),
{
    broadcast use vstd::std_specs::hash::group_hash_axioms;

    let n = list.len();
    let mut seen: HashMap<usize, usize> = HashMap::new();
    let mut k: usize = 0;
    assert(list@.subrange(0, 0) =~= Seq::<usize>::empty());
    while k < n
        invariant
            k <= n,
            n == list@.len(),
            forall|x: usize|
                seen@.contains_key(x) <==> how_often(list@.subrange(0, k as int), x as int) > 0,
            forall|x: usize|
                seen@.contains_key(x) ==> #[trigger] seen@[x] == how_often(
                    list@.subrange(0, k as int),
                    x as int,
                ),
            forall|x: usize| #[trigger] how_often(list@.subrange(0, k as int), x as int) <= k,
        decreases n - k,
    {
        let place = list[k];
        let ghost before = list@.subrange(0, k as int);
        let ghost after = list@.subrange(0, k + 1);
        proof {
            assert(after.drop_last() =~= before);
            assert(after.last() == place);
        }
        let so_far = match seen.get(&place) {
            Some(c) => *c,
            None => 0,
        };
        assert(so_far == how_often(before, place as int));
        proof {
            assert forall|x: usize| #[trigger] how_often(after, x as int) <= k + 1 by {
                assert(how_often(before, x as int) <= k);
            }
        }
        seen.insert(place, so_far + 1);
        k += 1;
    }
    assert(list@.subrange(0, n as int) =~= list@);
    let mut counts: Vec<usize> = Vec::with_capacity(size);
    let mut i: usize = 0;
    while i < size
        invariant
            i <= size,
            counts@.len() == i,
            forall|x: usize| seen@.contains_key(x) <==> how_often(list@, x as int) > 0,
            forall|x: usize| seen@.contains_key(x) ==> #[trigger] seen@[x] == how_often(list@, x as int),
            forall|x: int| 0 <= x < i ==> #[trigger] counts@[x] == how_often(list@, x),
        decreases size - i,
    {
        let c = match seen.get(&i) {
            Some(c) => *c,
            None => 0,
        };
        counts.push(c);
        i += 1;
    }
    counts
}

/// The list of counts that has the given list of places: a list that goes
/// up is read once, from place to place, and any other is counted in a
/// hash map.
fn tally_list(list: &Vec<usize>) -> (r: Result<Array<Num>, UiuaError>)
    ensures
        match r {
            Ok(a) => {
                &&& a.wf()
                &&& sizes_fit(extents(list@, 1, list@.len() as int))
                &&& count(as_sizes(extents(list@, 1, list@.len() as int))) <= usize::MAX
                &&& a@ == tallied(list@, 1, list@.len() as int)
            },
            Err(e) => {
                &&& e@ == failure(Op::InverseWhere, ErrorKind::TooLarge(None))
                &&& (!sizes_fit(extents(list@, 1, list@.len() as int)) || count(
                    as_sizes(extents(list@, 1, list@.len() as int)),
                ) > usize::MAX)
            },
        },
{
    let n = list.len();
    assert(n * 1 == n) by (nonlinear_arith);
    let sizes = match find_extents(list, 1, n) {
        Some(sizes) => sizes,
        None => {
            return Err(UiuaError::new(Op::InverseWhere, ErrorKind::TooLarge(None)));
        },
    };
    let size = sizes[0];
    proof {
        assert(sizes@ =~= seq![size]);
        crate::array::lemma_count_one(size);
    }
    let counts = if list_is_sorted(list) {
        count_sorted(list, size)
    } else {
        count_hashed(list, size)
    };
    let nums = to_nums(&counts);
    let a = Array::from_parts(sizes.as_slice(), nums);
    proof {
        let goal = tallied(list@, 1, n as int);
        assert(list@.subrange(0, n as int) =~= list@);
        assert forall|x: int| 0 <= x < size implies a@.data[x] == goal.data[x] by {
            lemma_rows_at_how_often(list@, sizes@, n as int, x);
        }
        assert(a@.data =~= goal.data);
    }
    Ok(a)
}

impl Value {
    /// `invert` `where`
    pub fn inverse_where(&self) -> (r: Result<Value, UiuaError>)
        requires
            self.wf(),
        ensures
            agrees(r, inverse_where_model(self@)),
            r is Ok ==> r->Ok_0.wf(),
    {
        let rank = self.rank();
        if rank > 2 {
            return Err(
                UiuaError::new(Op::InverseWhere, ErrorKind::Rank(rank)),
            );
        }
        let data = match self.naturals(Op::InverseWhere) {
            Ok(data) => data,
            Err(e) => {
                return Err(e);
            },
        };
        let (m, t) = if rank == 2 {
            let sizes = self.shape().sizes();
            proof {
                crate::algorithm::reverse::lemma_depth_counts(sizes@, 0);
                assert(sizes@.skip(0) =~= sizes@);
                assert(sizes@.skip(1) =~= seq![sizes@[1]]);
                crate::array::lemma_count_one(sizes@[1]);
                lemma_shape_len(self@);
            }
            (sizes[0], sizes[1])
        } else {
            assert(data@.len() * 1 == data@.len()) by (nonlinear_arith);
            (data.len(), 1usize)
        };
        let counted = if rank == 2 {
            tally(&data, t, m)
        } else {
            tally_list(&data)
        };
        match counted {
            Ok(a) => {
                let v = Value::Num(a);
                proof {
                    lemma_value_view(v);
                }
                Ok(v)
            },
            Err(e) => Err(e),
        }
    }
}

/// A valid value has as many elements as its shape asks for.
pub proof fn lemma_shape_len(v: ValueView)
    requires
        crate::value::value_wf(v),
    ensures
        v.len() == count(v.shape().sizes),
{
}

/// The places of a list of counts, each as often as its count says, in
/// order
pub open spec fn spread(counts: Seq<usize>) -> Seq<usize>
    decreases counts.len(),
{
    if counts.len() == 0 {
        Seq::empty()
    } else {
        spread(counts.drop_last()) + Seq::new(
            counts.last() as nat,
            |k: int| (counts.len() - 1) as usize,
        )
    }
}

/// The coordinates of the given places in an array of the given sizes, one
/// place after the other
pub open spec fn coordinate_rows(sizes: Seq<usize>, places: Seq<usize>) -> Seq<Num> {
    let rank = sizes.len() as int;
    Seq::new(
        places.len() * sizes.len(),
        |x: int|
            num_of_nat(
                crate::algorithm::naturals::coordinate(sizes, places[x / rank] as int, x % rank)
                    as nat,
            ),
    )
}

/// What the places are where a value of natural numbers is not zero, each
/// as often as the number there says: a list of places for a scalar or a
/// list, and for an array of more dimensions a table with a row of
/// coordinates for each place. It is an error where the value is not made
/// of natural numbers.
pub open spec fn where_model(v: ValueView) -> Result<ArrayView<Num>, ErrorView> {
    let places = spread(crate::algorithm::naturals::nats(v));
    let sizes = v.shape().sizes;
    if !crate::algorithm::naturals::natural_valued(v) {
        Err(crate::algorithm::naturals::naturals_error(v, Op::Where))
    } else if sizes.len() <= 1 {
        Ok(list_view(nums_of(places)))
    } else {
        Ok(
            crate::array::plain_view(
                seq![places.len() as usize, sizes.len() as usize],
                coordinate_rows(sizes, places),
            ),
        )
    }
}

/// The places of a list of counts, each as often as its count says.
pub fn spread_places(counts: &Vec<usize>) -> (r: Vec<usize>)
    ensures
        r@ == spread(counts@),
{
    let mut out: Vec<usize> = Vec::new();
    let mut i: usize = 0;
    assert(counts@.subrange(0, 0) =~= Seq::<usize>::empty());
    while i < counts.len()
        invariant
            i <= counts@.len(),
            out@ == spread(counts@.subrange(0, i as int)),
        decreases counts@.len() - i,
    {
        let ghost done = out@;
        let ghost next = counts@.subrange(0, i + 1);
        proof {
            assert(next.drop_last() =~= counts@.subrange(0, i as int));
            assert(next.last() == counts@[i as int]);
        }
        let mut k: usize = 0;
        while k < counts[i]
            invariant
                i < counts@.len(),
                k <= counts@[i as int],
                out@ == done + Seq::new(k as nat, |x: int| i),
            decreases counts@[i as int] - k,
        {
            out.push(i);
            assert(out@ =~= done + Seq::new((k + 1) as nat, |x: int| i));
            k += 1;
        }
        assert(out@ =~= spread(next));
        i += 1;
    }
    assert(counts@.subrange(0, counts@.len() as int) =~= counts@);
    out
}

impl Value {
    /// Get the indices `where` the value is nonzero
    pub fn wher(&self) -> (r: Result<Array<Num>, UiuaError>)
        requires
            self.wf(),
        ensures
            agrees(r, where_model(self@)),
            r is Ok ==> r->Ok_0.wf(),
    {
        let counts = match self.naturals(Op::Where) {
            Ok(counts) => counts,
            Err(e) => {
                return Err(e);
            },
        };
        let places = spread_places(&counts);
        let rank = self.rank();
        if rank <= 1 {
            let data = to_nums(&places);
            assert(crate::array::views(data@) =~= nums_of(places@));
            Ok(Array::from_vec(data))
        } else {
            let sizes = self.shape().sizes();
            let total = places.len();
            let mut data: Vec<Num> = Vec::new();
            let mut i: usize = 0;
            let ghost goal = coordinate_rows(sizes@, places@);
            proof {
                lemma_shape_len(self@);
                lemma_spread_bounds(counts@);
                if total > 0 {
                    lemma_count_zero(sizes@);
                    assert(spread(counts@)[0] < counts@.len());
                    assert forall|j: int| 0 <= j < sizes@.len() implies sizes@[j] > 0 by {
                        if sizes@[j] == 0 {
                            assert(exists|k: int| 0 <= k < sizes@.len() && sizes@[k] == 0);
                        }
                    }
                }
                assert(goal.len() == total * rank);
            }
            while i < total
                invariant
                    i <= total,
                    total == places@.len(),
                    rank == sizes@.len(),
                    rank >= 2,
                    goal == coordinate_rows(sizes@, places@),
                    goal.len() == total * rank,
                    total > 0 ==> forall|j: int| 0 <= j < sizes@.len() ==> sizes@[j] > 0,
                    data@.len() == i * rank,
                    forall|x: int| 0 <= x < data@.len() ==> data@[x] == goal[x],
                decreases total - i,
            {
                let coords = unravel(sizes, places[i]);
                let ghost done = data@;
                let mut j: usize = 0;
                proof {
                    crate::index::lemma_row_bounds(i as int, rank as int, total as int);
                }
                while j < rank
                    invariant
                        j <= rank,
                        i < total,
                        total == places@.len(),
                        rank == sizes@.len(),
                        goal == coordinate_rows(sizes@, places@),
                        goal.len() == total * rank,
                        forall|k: int| 0 <= k < sizes@.len() ==> sizes@[k] > 0,
                        coords@ == coordinates(sizes@, places@[i as int] as int),
                        data@.len() == i * rank + j,
                        i * rank + rank <= total * rank,
                        forall|x: int| 0 <= x < data@.len() ==> data@[x] == goal[x],
                    decreases rank - j,
                {
                    proof {
                        crate::index::lemma_split(i as int, rank as int, j as int);
                        let c = crate::algorithm::naturals::coordinate(
                            sizes@,
                            places@[i as int] as int,
                            j as int,
                        );
                        vstd::arithmetic::div_mod::lemma_mod_bound(
                            (places@[i as int] as int) / (count(sizes@.skip(j + 1)) as int),
                            sizes@[j as int] as int,
                        );
                        assert(0 <= c < sizes@[j as int]);
                        assert(coords@[j as int] == c as usize);
                    }
                    data.push(Num::from_usize(coords[j]));
                    j += 1;
                }
                proof {
                    crate::index::lemma_row_bounds(i as int, rank as int, total as int);
                }
                i += 1;
            }
            let mut shape: Vec<usize> = Vec::new();
            shape.push(total);
            shape.push(rank);
            proof {
                assert(shape@ =~= seq![total, rank]);
                assert(data@ =~= goal);
                assert(crate::array::views(data@) =~= goal);
                lemma_count_pair(total, rank);
            }
            Ok(Array::from_parts(shape.as_slice(), data))
        }
    }
}

/// The product of two sizes.
pub proof fn lemma_count_pair(a: usize, b: usize)
    ensures
        count(seq![a, b]) == a * b,
{
    let s = seq![a, b];
    assert(s.drop_last() =~= seq![a]);
    crate::array::lemma_count_one(a);
    assert(s.last() == b);
}

/// Every place that spreading a list of counts gives lies in the list, and
/// there is no place where there is no count that is not zero.
pub proof fn lemma_spread_bounds(counts: Seq<usize>)
    ensures
        forall|x: int| 0 <= x < spread(counts).len() ==> #[trigger] spread(counts)[x] < counts.len(),
        spread(counts).len() > 0 ==> counts.len() > 0,
    decreases counts.len(),
{
    if counts.len() > 0 {
        lemma_spread_bounds(counts.drop_last());
        let before = spread(counts.drop_last());
        assert forall|x: int| 0 <= x < spread(counts).len() implies #[trigger] spread(counts)[x]
            < counts.len() by {
            if x < before.len() {
                assert(spread(counts)[x] == before[x]);
            }
        }
    }
}

/// The number of rows that stand at a place depends on the rows counted
/// alone, not on what comes after them.
pub proof fn lemma_rows_at_prefix(
    a: Seq<usize>,
    b: Seq<usize>,
    sizes: Seq<usize>,
    m: int,
    x: int,
)
    requires
        0 <= m <= a.len(),
    ensures
        rows_at(a + b, 1, sizes, m, x) == rows_at(a, 1, sizes, m, x),
    decreases m,
{
    if m > 0 {
        lemma_rows_at_prefix(a, b, sizes, m - 1, x);
        assert(row_of(a + b, 1, m - 1) =~= row_of(a, 1, m - 1));
    }
}

/// The place of a single coordinate in a list is that coordinate.
pub proof fn lemma_place_single(sizes: Seq<usize>, row: Seq<usize>)
    requires
        sizes.len() == 1,
        row.len() == 1,
    ensures
        place(sizes, row) == row[0],
{
    reveal_with_fuel(place, 2);
    assert(0 * (sizes.last() as int) == 0) by (nonlinear_arith);
}

/// After `r` more rows that hold the place `k`, so many more rows stand at
/// `k`, and as many as before at every other place.
pub proof fn lemma_rows_at_repeat(a: Seq<usize>, k: usize, r: nat, sizes: Seq<usize>, x: int)
    requires
        sizes.len() == 1,
    ensures
        rows_at(a + Seq::new(r, |i: int| k), 1, sizes, (a.len() + r) as int, x) == rows_at(
            a,
            1,
            sizes,
            a.len() as int,
            x,
        ) + if x == k {
            r
        } else {
            0
        },
    decreases r,
{
    let all = a + Seq::new(r, |i: int| k);
    if r == 0 {
        assert(all =~= a);
    } else {
        let fewer = a + Seq::new((r - 1) as nat, |i: int| k);
        lemma_rows_at_repeat(a, k, (r - 1) as nat, sizes, x);
        assert(all =~= fewer + seq![k]);
        lemma_rows_at_prefix(fewer, seq![k], sizes, fewer.len() as int, x);
        let row = row_of(all, 1, a.len() + r - 1);
        assert(row =~= seq![k]);
        lemma_place_single(sizes, row);
    }
}

/// As many rows of the spread of a list of counts stand at a place as the
/// count there says.
pub proof fn lemma_rows_at_spread(counts: Seq<usize>, sizes: Seq<usize>, x: int)
    requires
        sizes.len() == 1,
        counts.len() <= usize::MAX,
        0 <= x,
    ensures
        rows_at(spread(counts), 1, sizes, spread(counts).len() as int, x) == if x
            < counts.len() {
            counts[x] as nat
        } else {
            0
        },
    decreases counts.len(),
{
    if counts.len() > 0 {
        let before = counts.drop_last();
        lemma_rows_at_spread(before, sizes, x);
        let k = (counts.len() - 1) as usize;
        let r = counts.last() as nat;
        lemma_rows_at_repeat(spread(before), k, r, sizes, x);
        assert(spread(counts) =~= spread(before) + Seq::new(r, |i: int| k));
        assert(spread(counts).len() == spread(before).len() + r);
        if x < before.len() {
            assert(before[x] == counts[x]);
        }
    }
}

/// The extent of a list of places is no more than a bound that all the
/// places are below, and is that bound where the last place is the one
/// just below it.
pub proof fn lemma_extent_bounds(data: Seq<usize>, m: int, bound: nat)
    requires
        0 <= m <= data.len(),
        forall|i: int| 0 <= i < m ==> #[trigger] data[i] < bound,
    ensures
        extent(data, 1, m, 0) <= bound,
        m > 0 && data[m - 1] + 1 == bound ==> extent(data, 1, m, 0) == bound,
    decreases m,
{
    if m > 0 {
        lemma_extent_bounds(data, m - 1, bound);
        assert((m - 1) * 1 + 0 == m - 1) by (nonlinear_arith);
        assert(data[m - 1] < bound);
    }
}

/// The array that has the places where a list of naturals is not zero,
/// each as often as the natural there says, is that list again, as
/// numbers. This holds of a list that is empty or does not end in zero,
/// and is no longer than the naturals go that numbers tell apart.
pub proof fn lemma_where_round_trip(v: ValueView)
    requires
        crate::value::value_wf(v),
        crate::algorithm::naturals::natural_valued(v),
        v.shape().sizes.len() == 1,
        v.len() <= 2 * crate::num::HIDDEN_BIT,
        v.len() <= usize::MAX,
        v.len() == 0 || crate::algorithm::naturals::nats(v).last() > 0,
    ensures
        where_model(v) is Ok,
        inverse_where_model(ValueView::Num(where_model(v)->Ok_0)) == Ok::<ValueView, ErrorView>(
            ValueView::Num(list_view(nums_of(crate::algorithm::naturals::nats(v)))),
        ),
{
    let counts = crate::algorithm::naturals::nats(v);
    let places = spread(counts);
    let w = where_model(v)->Ok_0;
    let back = ValueView::Num(w);
    let n = counts.len();
    lemma_spread_bounds(counts);
    assert(w.data.len() == places.len());
    assert forall|i: int| 0 <= i < back.len() implies #[trigger] crate::algorithm::naturals::nat_at(
        back,
        i,
    ) == Some(places[i]) by {
        assert(places[i] < n);
        crate::num::lemma_num_of_small(places[i] as nat);
    }
    assert(crate::algorithm::naturals::natural_valued(back));
    assert(crate::algorithm::naturals::nats(back) =~= places);
    let m = places.len() as int;
    lemma_extent_bounds(places, m, n as nat);
    if n > 0 {
        assert(m > 0 && places[m - 1] == n - 1) by {
            let before = spread(counts.drop_last());
            assert(places =~= before + Seq::new(counts.last() as nat, |k: int| (n - 1) as usize));
        }
    }
    let e = extents(places, 1, m);
    assert(e =~= seq![n]);
    assert(sizes_fit(e));
    let sizes = as_sizes(e);
    assert(sizes =~= seq![n as usize]);
    crate::array::lemma_count_one(n as usize);
    let t = tallied(places, 1, m);
    assert forall|x: int| 0 <= x < n implies t.data[x] == num_of_nat(counts[x] as nat) by {
        lemma_rows_at_spread(counts, sizes, x);
    }
    assert(t.data =~= nums_of(counts));
    assert(row_width(back) == 1);
    assert(row_number(back) == m);
}

} // verus!
