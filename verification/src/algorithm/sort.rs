//! The order of the rows of an array: the permutations that sort them, and
//! the sorted arrays.

use vstd::prelude::*;
use crate::array::{views, Array, ArrayView};
use crate::algorithm::parallel::par_sort_rows;
use crate::element::ArrayValue;
use crate::error::{ErrorKind, Op, UiuaError, failure};
use crate::index::{lemma_parts, lemma_quotient_below, lemma_row_bounds, lemma_split};
use crate::order::{
    int_order,
    is_total,
    lemma_int_order_total,
    lemma_lex_by_flip,
    lemma_lex_by_trans,
    lex,
    lex_by,
    Order,
};

verus! {

/// The order of two elements: that of their keys
pub open spec fn elem_order<T: ArrayValue>() -> spec_fn(T::V, T::V) -> Order {
    |x: T::V, y: T::V| lex(T::key(x), T::key(y))
}

/// Row `i` of rows of `len` elements
pub open spec fn row_at<V>(data: Seq<V>, len: int, i: int) -> Seq<V> {
    data.subrange(i * len, i * len + len)
}

/// The order of rows `i` and `j`: position by position, the first pair of
/// elements that are not equal decides
pub open spec fn rows_order<T: ArrayValue>(data: Seq<T::V>, len: int, i: int, j: int) -> Order {
    lex_by(elem_order::<T>(), row_at(data, len, i), row_at(data, len, j), 0)
}

/// Row `i` comes before row `j` in the sorted order, ascending or
/// descending: it is the lesser (or the greater) of the two, or the two
/// are equal and `i` is the first of them in the array.
pub open spec fn comes_before<T: ArrayValue>(
    data: Seq<T::V>,
    len: int,
    i: int,
    j: int,
    descending: bool,
) -> bool {
    let o = if descending {
        rows_order::<T>(data, len, j, i)
    } else {
        rows_order::<T>(data, len, i, j)
    };
    o == Order::Less || (o == Order::Equal && i < j)
}

/// The order in which a sort takes rows `a` and `b` of rows of `row_len`
/// elements: the order of the two rows for an ascending sort, and that
/// order with the two exchanged for a descending one
pub open spec fn sort_order<T: ArrayValue>(
    data: Seq<T>,
    row_len: usize,
    a: usize,
    b: usize,
    descending: bool,
) -> Order {
    if descending {
        rows_order::<T>(views(data), row_len as int, b as int, a as int)
    } else {
        rows_order::<T>(views(data), row_len as int, a as int, b as int)
    }
}

/// `p` lists the row `x`.
pub open spec fn lists(p: Seq<usize>, x: int) -> bool {
    exists|i: int| 0 <= i < p.len() && #[trigger] p[i] == x
}

/// `p` lists the `n` rows in sorted order: each row once, and each before
/// all that come later.
pub open spec fn is_ordering<T: ArrayValue>(
    data: Seq<T::V>,
    len: int,
    n: int,
    p: Seq<usize>,
    descending: bool,
) -> bool {
    &&& p.len() == n
    &&& forall|i: int| 0 <= i < n ==> #[trigger] p[i] < n
    &&& forall|x: int| 0 <= x < n ==> #[trigger] lists(p, x)
    &&& forall|i: int, j: int|
        0 <= i < j < n ==> comes_before::<T>(
            data,
            len,
            #[trigger] p[i] as int,
            #[trigger] p[j] as int,
            descending,
        )
}

/// The rows of `data` in the order that `p` lists them
pub open spec fn taken_rows<V>(data: Seq<V>, len: int, p: Seq<usize>) -> Seq<V> {
    Seq::new((p.len() * len) as nat, |x: int| data[p[x / len] * len + x % len])
}

/// Every row that `p` lists lies inside `data`.
pub open spec fn rows_inside<T>(data: Seq<T>, row_len: usize, p: Seq<usize>) -> bool {
    forall|i: int| 0 <= i < p.len() ==> (#[trigger] p[i]) * row_len + row_len <= data.len()
}

/// The items of `p` go up.
pub open spec fn ascending(p: Seq<usize>) -> bool {
    forall|i: int, j: int| 0 <= i < j < p.len() ==> p[i] < p[j]
}

/// Each row that `p` lists comes before all that it lists later.
pub open spec fn in_order<T: ArrayValue>(
    data: Seq<T>,
    row_len: usize,
    p: Seq<usize>,
    descending: bool,
) -> bool {
    forall|i: int, j: int|
        0 <= i < j < p.len() ==> comes_before::<T>(
            views(data),
            row_len as int,
            #[trigger] p[i] as int,
            #[trigger] p[j] as int,
            descending,
        )
}

/// The order of elements is a total preorder.
pub proof fn lemma_elem_order_total<T: ArrayValue>()
    ensures
        is_total(elem_order::<T>()),
{
    let ord = elem_order::<T>();
    let ints = |x: int, y: int| int_order(x, y);
    lemma_int_order_total();
    assert forall|x: T::V, y: T::V| #[trigger] ord(y, x) == ord(x, y).flipped() by {
        lemma_lex_by_flip(ints, T::key(x), T::key(y), 0);
    }
    assert forall|x: T::V, y: T::V, z: T::V|
        #[trigger] ord(x, y) != Order::Greater && #[trigger] ord(y, z)
            != Order::Greater implies ord(x, z) != Order::Greater by {
        lemma_lex_by_trans(ints, T::key(x), T::key(y), T::key(z), 0);
    }
}

/// Exchanging two rows flips their order, and a row is equal to itself.
pub proof fn lemma_rows_order_flip<T: ArrayValue>(data: Seq<T::V>, len: int, i: int, j: int)
    ensures
        rows_order::<T>(data, len, j, i) == rows_order::<T>(data, len, i, j).flipped(),
        rows_order::<T>(data, len, i, i) == Order::Equal,
{
    lemma_elem_order_total::<T>();
    let ord = elem_order::<T>();
    lemma_lex_by_flip(ord, row_at(data, len, i), row_at(data, len, j), 0);
    lemma_lex_by_flip(ord, row_at(data, len, i), row_at(data, len, i), 0);
}

/// There is one sorted order of the rows and no other.
pub proof fn lemma_ordering_unique<T: ArrayValue>(
    data: Seq<T::V>,
    len: int,
    n: int,
    p: Seq<usize>,
    q: Seq<usize>,
    descending: bool,
)
    requires
        is_ordering::<T>(data, len, n, p, descending),
        is_ordering::<T>(data, len, n, q, descending),
    ensures
        p == q,
{
    lemma_same_prefix::<T>(data, len, n, p, q, descending, n);
    assert(p =~= q);
}

/// Two sorted orders of the rows agree on their first `k` places.
proof fn lemma_same_prefix<T: ArrayValue>(
    data: Seq<T::V>,
    len: int,
    n: int,
    p: Seq<usize>,
    q: Seq<usize>,
    descending: bool,
    k: int,
)
    requires
        is_ordering::<T>(data, len, n, p, descending),
        is_ordering::<T>(data, len, n, q, descending),
        0 <= k <= n,
    ensures
        forall|i: int| 0 <= i < k ==> p[i] == q[i],
    decreases k,
{
    if k > 0 {
        lemma_same_prefix::<T>(data, len, n, p, q, descending, k - 1);
        let at = k - 1;
        let x = p[at];
        let y = q[at];
        if x != y {
            // where p has y, and where q has x
            assert(y < n);
            assert(lists(p, y as int));
            assert(lists(q, x as int));
            let jy = choose|i: int| 0 <= i < p.len() && #[trigger] p[i] == y;
            let jx = choose|i: int| 0 <= i < q.len() && #[trigger] q[i] == x;
            lemma_rows_order_flip::<T>(data, len, x as int, y as int);
            lemma_rows_order_flip::<T>(data, len, y as int, y as int);
            lemma_rows_order_flip::<T>(data, len, x as int, x as int);
            if jy < at {
                // q has y twice
                assert(q[jy] == y);
                assert(comes_before::<T>(data, len, q[jy] as int, q[at] as int, descending));
            }
            if jx < at {
                assert(p[jx] == x);
                assert(comes_before::<T>(data, len, p[jx] as int, p[at] as int, descending));
            }
            assert(comes_before::<T>(data, len, p[at] as int, p[jy] as int, descending));
            assert(comes_before::<T>(data, len, q[at] as int, q[jx] as int, descending));
        }
    }
}

/// Where no two rows are equal, the descending order of the rows is the
/// ascending one read backwards.
pub proof fn lemma_fall_reverses_rise<T: ArrayValue>(
    data: Seq<T::V>,
    len: int,
    n: int,
    rise: Seq<usize>,
    fall: Seq<usize>,
)
    requires
        is_ordering::<T>(data, len, n, rise, false),
        is_ordering::<T>(data, len, n, fall, true),
        forall|i: int, j: int|
            0 <= i < n && 0 <= j < n && i != j ==> rows_order::<T>(data, len, i, j)
                != Order::Equal,
    ensures
        fall == rise.reverse(),
{
    let back = rise.reverse();
    assert forall|x: int| 0 <= x < n implies #[trigger] lists(back, x) by {
        assert(lists(rise, x));
        let i = choose|i: int| 0 <= i < rise.len() && #[trigger] rise[i] == x;
        assert(back[n - 1 - i] == x);
    }
    assert forall|i: int, j: int| 0 <= i < j < n implies comes_before::<T>(
        data,
        len,
        #[trigger] back[i] as int,
        #[trigger] back[j] as int,
        true,
    ) by {
        let a = n - 1 - j;
        let b = n - 1 - i;
        assert(comes_before::<T>(data, len, rise[a] as int, rise[b] as int, false));
        lemma_rows_order_flip::<T>(data, len, rise[a] as int, rise[a] as int);
        assert(rise[a] != rise[b]);
    }
    lemma_ordering_unique::<T>(data, len, n, fall, back, true);
}

/// Compares rows `a` and `b` of rows of `row_len` elements.
pub fn compare_rows<T: ArrayValue>(data: &Vec<T>, row_len: usize, a: usize, b: usize) -> (o: Order)
    requires
        a * row_len + row_len <= data@.len(),
        b * row_len + row_len <= data@.len(),
    ensures
        o == rows_order::<T>(views(data@), row_len as int, a as int, b as int),
{
    let ghost ord = elem_order::<T>();
    let ghost left = row_at(views(data@), row_len as int, a as int);
    let ghost right = row_at(views(data@), row_len as int, b as int);
    proof {
        assert(0 <= a * row_len && 0 <= b * row_len) by (nonlinear_arith)
            requires
                a >= 0,
                b >= 0,
                row_len >= 0,
        ;
    }
    let mut k: usize = 0;
    while k < row_len
        invariant
            k <= row_len,
            a * row_len + row_len <= data@.len(),
            b * row_len + row_len <= data@.len(),
            0 <= a * row_len,
            0 <= b * row_len,
            ord == elem_order::<T>(),
            left == row_at(views(data@), row_len as int, a as int),
            right == row_at(views(data@), row_len as int, b as int),
            lex_by(ord, left, right, 0) == lex_by(ord, left, right, k as int),
        decreases row_len - k,
    {
        assert(data@.len() == data.len());
        let o = data[a * row_len + k].compare(&data[b * row_len + k]);
        proof {
            assert(left[k as int] == data@[a * row_len + k]@);
            assert(right[k as int] == data@[b * row_len + k]@);
            assert(ord(left[k as int], right[k as int]) == o);
        }
        match o {
            Order::Equal => {},
            _ => {
                return o;
            },
        }
        k += 1;
    }
    Order::Equal
}

/// The naturals below `n`, in order.
pub fn positions(n: usize) -> (r: Vec<usize>)
    ensures
        r@.len() == n,
        forall|i: int| 0 <= i < n ==> r@[i] == i,
{
    let mut out: Vec<usize> = Vec::with_capacity(n);
    let mut i: usize = 0;
    while i < n
        invariant
            i <= n,
            out@.len() == i,
            forall|k: int| 0 <= k < i ==> out@[k] == k,
        decreases n - i,
    {
        out.push(i);
        i += 1;
    }
    out
}

/// The rows of `data` in the order that `p` lists them.
pub fn take_rows<T: ArrayValue>(data: &Vec<T>, row_len: usize, p: &Vec<usize>) -> (r: Vec<T>)
    requires
        rows_inside(data@, row_len, p@),
    ensures
        views(r@) == taken_rows(views(data@), row_len as int, p@),
{
    let ghost goal = taken_rows(views(data@), row_len as int, p@);
    let mut out: Vec<T> = Vec::new();
    let mut i: usize = 0;
    while i < p.len()
        invariant
            i <= p@.len(),
            rows_inside(data@, row_len, p@),
            goal == taken_rows(views(data@), row_len as int, p@),
            out@.len() == i * row_len,
            forall|x: int| 0 <= x < out@.len() ==> (#[trigger] out@[x])@ == goal[x],
        decreases p@.len() - i,
    {
        proof {
            lemma_row_bounds(i as int, row_len as int, p@.len() as int);
            assert(p@[i as int] * row_len + row_len <= data@.len());
            assert(0 <= p@[i as int] * row_len) by (nonlinear_arith)
                requires
                    p@[i as int] >= 0,
                    row_len >= 0,
            ;
            assert(data@.len() == data.len());
        }
        let start = p[i] * row_len;
        let mut k: usize = 0;
        while k < row_len
            invariant
                k <= row_len,
                i < p@.len(),
                start == p@[i as int] * row_len,
                start + row_len <= data@.len(),
                goal == taken_rows(views(data@), row_len as int, p@),
                data@.len() <= usize::MAX,
                i * row_len + row_len <= p@.len() * row_len,
                out@.len() == i * row_len + k,
                forall|x: int| 0 <= x < out@.len() ==> (#[trigger] out@[x])@ == goal[x],
            decreases row_len - k,
        {
            proof {
                lemma_split(i as int, row_len as int, k as int);
            }
            out.push(data[start + k].duplicate());
            k += 1;
        }
        proof {
            lemma_row_bounds(i as int, row_len as int, p@.len() as int);
        }
        i += 1;
    }
    assert(views(out@) =~= goal);
    out
}

impl<T: ArrayValue> Array<T> {
    /// The rows in sorted order, ascending or descending; none for an
    /// array without elements.
    fn ordering(&self, descending: bool) -> (p: Vec<usize>)
        requires
            self.wf(),
            self@.rank() > 0,
        ensures
            self@.data.len() == 0 ==> p@.len() == 0,
            self@.data.len() > 0 ==> self@.row_len() <= usize::MAX && is_ordering::<T>(
                self@.data,
                self@.row_len() as int,
                self@.row_count() as int,
                p@,
                descending,
            ) && rows_inside(self.data@, self@.row_len() as usize, p@),
    {
        assert(self@.data.len() == self.data.len());
        if self.data.len() == 0 {
            return Vec::new();
        }
        let row_len = self.row_len().unwrap();
        let n = self.row_count();
        let mut p = positions(n);
        let ghost start = p@;
        proof {
            crate::array::lemma_rows(self@);
            assert forall|i: int| 0 <= i < n implies (#[trigger] start[i]) * row_len + row_len
                <= self.data@.len() by {
                lemma_row_bounds(i, row_len as int, n as int);
            }
        }
        par_sort_rows(&mut p, &self.data, row_len, descending);
        proof {
            start.to_multiset_ensures();
            p@.to_multiset_ensures();
            assert forall|i: int| 0 <= i < n implies #[trigger] p@[i] < n by {
                assert(p@.contains(p@[i]));
                assert(p@.to_multiset().count(p@[i]) > 0);
                assert(start.to_multiset().count(p@[i]) > 0);
                assert(start.contains(p@[i]));
            }
            assert forall|x: int| 0 <= x < n implies #[trigger] lists(p@, x) by {
                assert(start[x] == x);
                assert(start.contains(x as usize));
                assert(start.to_multiset().count(x as usize) > 0);
                assert(p@.to_multiset().count(x as usize) > 0);
                assert(p@.contains(x as usize));
                let i = choose|i: int| 0 <= i < p@.len() && p@[i] == x as usize;
                assert(p@[i] == x);
            }
            assert forall|i: int| 0 <= i < p@.len() implies (#[trigger] p@[i]) * row_len + row_len
                <= self.data@.len() by {
                lemma_row_bounds(p@[i] as int, row_len as int, n as int);
            }
        }
        p
    }

    /// Get the `rise` of the array: its rows in ascending order, equal rows
    /// in the order they have in the array
    pub fn rise(&self) -> (r: Result<Vec<usize>, UiuaError>)
        requires
            self.wf(),
        ensures
            match r {
                Ok(p) => self@.rank() > 0 && if self@.data.len() == 0 {
                    p@.len() == 0
                } else {
                    is_ordering::<T>(
                        self@.data,
                        self@.row_len() as int,
                        self@.row_count() as int,
                        p@,
                        false,
                    )
                },
                Err(e) => self@.rank() == 0 && e@ == failure(Op::Rise, ErrorKind::Scalar),
            },
    {
        if self.shape.rank() == 0 {
            return Err(UiuaError::new(Op::Rise, ErrorKind::Scalar));
        }
        Ok(self.ordering(false))
    }

    /// Get the `fall` of the array: its rows in descending order, equal
    /// rows in the order they have in the array
    pub fn fall(&self) -> (r: Result<Vec<usize>, UiuaError>)
        requires
            self.wf(),
        ensures
            match r {
                Ok(p) => self@.rank() > 0 && if self@.data.len() == 0 {
                    p@.len() == 0
                } else {
                    is_ordering::<T>(
                        self@.data,
                        self@.row_len() as int,
                        self@.row_count() as int,
                        p@,
                        true,
                    )
                },
                Err(e) => self@.rank() == 0 && e@ == failure(Op::Fall, ErrorKind::Scalar),
            },
    {
        if self.shape.rank() == 0 {
            return Err(UiuaError::new(Op::Fall, ErrorKind::Scalar));
        }
        Ok(self.ordering(true))
    }

    /// Puts the rows in sorted order.
    fn sort(&mut self, descending: bool)
        requires
            old(self).wf(),
            old(self)@.rank() > 0,
        ensures
            final(self).wf(),
            final(self)@.shape == old(self)@.shape,
            final(self)@.boolean == old(self)@.boolean,
            is_sorted::<T>(old(self)@, final(self)@.data, descending),
    {
        let p = self.ordering(descending);
        assert(self@.data.len() == self.data.len());
        if self.data.len() == 0 {
            return ;
        }
        let row_len = self.row_len().unwrap();
        let ghost before = self@;
        let data = take_rows(&self.data, row_len, &p);
        proof {
            crate::array::lemma_rows(before);
        }
        self.data = data;
    }

    /// Sort an array ascending
    pub fn sort_up(&mut self) -> (r: Result<(), UiuaError>)
        requires
            old(self).wf(),
        ensures
            final(self).wf(),
            final(self)@.shape == old(self)@.shape,
            final(self)@.boolean == old(self)@.boolean,
            match r {
                Ok(_) => old(self)@.rank() > 0 && is_sorted::<T>(
                    old(self)@,
                    final(self)@.data,
                    false,
                ),
                Err(e) => old(self)@.rank() == 0 && final(self)@ == old(self)@ && e@ == failure(Op::Rise, ErrorKind::Scalar),
            },
    {
        if self.shape.rank() == 0 {
            return Err(UiuaError::new(Op::Rise, ErrorKind::Scalar));
        }
        self.sort(false);
        Ok(())
    }

    /// Sort an array descending
    pub fn sort_down(&mut self) -> (r: Result<(), UiuaError>)
        requires
            old(self).wf(),
        ensures
            final(self).wf(),
            final(self)@.shape == old(self)@.shape,
            final(self)@.boolean == old(self)@.boolean,
            match r {
                Ok(_) => old(self)@.rank() > 0 && is_sorted::<T>(
                    old(self)@,
                    final(self)@.data,
                    true,
                ),
                Err(e) => old(self)@.rank() == 0 && final(self)@ == old(self)@ && e@ == failure(Op::Fall, ErrorKind::Scalar),
            },
    {
        if self.shape.rank() == 0 {
            return Err(UiuaError::new(Op::Fall, ErrorKind::Scalar));
        }
        self.sort(true);
        Ok(())
    }
}

/// `sorted` holds the rows of `a` in sorted order: the elements of `a`
/// where it has none, and else its rows as their one sorted order lists
/// them.
pub open spec fn is_sorted<T: ArrayValue>(
    a: ArrayView<T::V>,
    sorted: Seq<T::V>,
    descending: bool,
) -> bool {
    if a.data.len() == 0 {
        sorted == a.data
    } else {
        exists|p: Seq<usize>|
            #[trigger] is_ordering::<T>(
                a.data,
                a.row_len() as int,
                a.row_count() as int,
                p,
                descending,
            ) && sorted == taken_rows(a.data, a.row_len() as int, p)
    }
}

/// The sorted array holds the rows in the order that the rise, or the
/// fall, of the array lists them.
pub proof fn lemma_sorted_by_ordering<T: ArrayValue>(
    a: ArrayView<T::V>,
    sorted: Seq<T::V>,
    p: Seq<usize>,
    descending: bool,
)
    requires
        a.data.len() > 0,
        is_sorted::<T>(a, sorted, descending),
        is_ordering::<T>(a.data, a.row_len() as int, a.row_count() as int, p, descending),
    ensures
        sorted == taken_rows(a.data, a.row_len() as int, p),
{
    let q = choose|q: Seq<usize>|
        #[trigger] is_ordering::<T>(
            a.data,
            a.row_len() as int,
            a.row_count() as int,
            q,
            descending,
        ) && sorted == taken_rows(a.data, a.row_len() as int, q);
    lemma_ordering_unique::<T>(a.data, a.row_len() as int, a.row_count() as int, p, q, descending);
}

/// The elements of an array with its rows in sorted order
pub open spec fn sorted_data<T: ArrayValue>(a: ArrayView<T::V>, descending: bool) -> Seq<T::V> {
    choose|s: Seq<T::V>| is_sorted::<T>(a, s, descending)
}

/// The array with its rows in sorted order
pub open spec fn sorted<T: ArrayValue>(a: ArrayView<T::V>, descending: bool) -> ArrayView<T::V> {
    ArrayView { shape: a.shape, data: sorted_data::<T>(a, descending), boolean: a.boolean }
}

/// There is one way to put the rows of an array in sorted order.
pub proof fn lemma_sorted_data<T: ArrayValue>(a: ArrayView<T::V>, s: Seq<T::V>, descending: bool)
    requires
        is_sorted::<T>(a, s, descending),
    ensures
        s == sorted_data::<T>(a, descending),
{
    let t = sorted_data::<T>(a, descending);
    assert(is_sorted::<T>(a, t, descending));
    if a.data.len() > 0 {
        let p = choose|p: Seq<usize>|
            #[trigger] is_ordering::<T>(
                a.data,
                a.row_len() as int,
                a.row_count() as int,
                p,
                descending,
            ) && s == taken_rows(a.data, a.row_len() as int, p);
        lemma_sorted_by_ordering::<T>(a, t, p, descending);
    }
}

/// The rows that a list of rows takes from an array are made of elements
/// of the array, and are as many as the list is long.
pub proof fn lemma_taken_rows<V>(data: Seq<V>, len: int, n: int, p: Seq<usize>)
    requires
        0 <= len,
        data.len() == n * len,
        forall|i: int| 0 <= i < p.len() ==> #[trigger] p[i] < n,
    ensures
        taken_rows(data, len, p).len() == p.len() * len,
        forall|x: int|
            0 <= x < p.len() * len ==> data.contains(#[trigger] taken_rows(data, len, p)[x]),
{
    assert(0 <= p.len() * len) by (nonlinear_arith)
        requires
            0 <= len,
    ;
    assert forall|x: int| 0 <= x < p.len() * len implies data.contains(
        #[trigger] taken_rows(data, len, p)[x],
    ) by {
        assert(len > 0) by (nonlinear_arith)
            requires
                0 <= x < p.len() * len,
                0 <= len,
        ;
        lemma_parts(x, len);
        lemma_quotient_below(x, len, p.len() as int);
        let r = p[x / len] as int;
        crate::index::lemma_index_below(r, len, x % len, n);
        assert(taken_rows(data, len, p)[x] == data[r * len + x % len]);
    }
}

/// The elements of a sorted array are elements of the array, and as many.
pub proof fn lemma_sorted_items<T: ArrayValue>(a: ArrayView<T::V>, s: Seq<T::V>, descending: bool)
    requires
        a.wf(),
        a.rank() > 0,
        is_sorted::<T>(a, s, descending),
    ensures
        s.len() == a.data.len(),
        forall|x: int| 0 <= x < s.len() ==> a.data.contains(#[trigger] s[x]),
{
    if a.data.len() > 0 {
        let len = a.row_len() as int;
        let n = a.row_count() as int;
        let p = choose|p: Seq<usize>|
            #[trigger] is_ordering::<T>(a.data, len, n, p, descending) && s == taken_rows(
                a.data,
                len,
                p,
            );
        crate::array::lemma_rows(a);
        lemma_taken_rows(a.data, len, n, p);
    }
}

/// Row `i` of the rows that a list takes from an array is the row of the
/// array that the list names at place `i`.
pub proof fn lemma_taken_row<V>(data: Seq<V>, len: int, n: int, p: Seq<usize>, i: int)
    requires
        0 <= len,
        data.len() == n * len,
        forall|i: int| 0 <= i < p.len() ==> #[trigger] p[i] < n,
        0 <= i < p.len(),
    ensures
        row_at(taken_rows(data, len, p), len, i) == row_at(data, len, p[i] as int),
{
    let taken = taken_rows(data, len, p);
    lemma_row_bounds(i, len, p.len() as int);
    lemma_row_bounds(p[i] as int, len, n);
    assert forall|k: int| 0 <= k < len implies row_at(taken, len, i)[k] == row_at(
        data,
        len,
        p[i] as int,
    )[k] by {
        lemma_split(i, len, k);
    }
    assert(row_at(taken, len, i) =~= row_at(data, len, p[i] as int));
}

/// The rows of an array, taken in the order that its rise lists them, go
/// up: no row is greater than a later one. Taken in the order that its
/// fall lists them, they go down.
pub proof fn lemma_ordering_sorts<T: ArrayValue>(
    a: ArrayView<T::V>,
    p: Seq<usize>,
    descending: bool,
    i: int,
    j: int,
)
    requires
        a.wf(),
        a.rank() > 0,
        is_ordering::<T>(a.data, a.row_len() as int, a.row_count() as int, p, descending),
        0 <= i < j < a.row_count(),
    ensures
        rows_order::<T>(taken_rows(a.data, a.row_len() as int, p), a.row_len() as int, i, j)
            != if descending {
            Order::Less
        } else {
            Order::Greater
        },
{
    let len = a.row_len() as int;
    let n = a.row_count() as int;
    crate::array::lemma_rows(a);
    lemma_taken_row(a.data, len, n, p, i);
    lemma_taken_row(a.data, len, n, p, j);
    assert(comes_before::<T>(a.data, len, p[i] as int, p[j] as int, descending));
    lemma_rows_order_flip::<T>(a.data, len, p[i] as int, p[j] as int);
}

} // verus!
