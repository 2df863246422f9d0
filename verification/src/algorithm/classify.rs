//! Telling the rows of an array apart: the class of each row, and the
//! array without its repeated rows.

use vstd::prelude::*;
use crate::array::{views, Array, ArrayView};
use crate::algorithm::sort::{
    compare_rows, elem_order, lemma_elem_order_total, lemma_rows_order_flip, row_at, rows_order,
    take_rows, taken_rows, rows_inside,
};
use crate::element::ArrayValue;
use crate::error::{ErrorKind, Op, UiuaError, failure};
use crate::index::lemma_row_bounds;
use crate::order::{lemma_lex_by_trans, Order};

verus! {

/// Rows `i` and `j` are the same: equal at every position.
pub open spec fn same_row<T: ArrayValue>(data: Seq<T::V>, len: int, i: int, j: int) -> bool {
    rows_order::<T>(data, len, i, j) == Order::Equal
}

/// No row before row `i` is the same as it.
pub open spec fn first_of_kind<T: ArrayValue>(data: Seq<T::V>, len: int, i: int) -> bool {
    forall|j: int| 0 <= j < i ==> !#[trigger] same_row::<T>(data, len, j, i)
}

/// Those of the first `m` rows that are the first of their kind, in order
pub open spec fn first_rows<T: ArrayValue>(data: Seq<T::V>, len: int, m: int) -> Seq<usize>
    decreases m,
{
    if m <= 0 {
        Seq::empty()
    } else if first_of_kind::<T>(data, len, m - 1) {
        first_rows::<T>(data, len, m - 1).push((m - 1) as usize)
    } else {
        first_rows::<T>(data, len, m - 1)
    }
}

/// The first row from `k` on that is the same as row `i`
pub open spec fn first_same<T: ArrayValue>(data: Seq<T::V>, len: int, i: int, k: int) -> int
    decreases i - k,
{
    if k >= i || same_row::<T>(data, len, k, i) {
        k
    } else {
        first_same::<T>(data, len, i, k + 1)
    }
}

/// The class of row `i`: the number of different rows that come before the
/// first row that is the same as row `i`
pub open spec fn class_of<T: ArrayValue>(data: Seq<T::V>, len: int, i: int) -> nat {
    first_rows::<T>(data, len, first_same::<T>(data, len, i, 0)).len()
}

/// The classes of the first `n` rows
pub open spec fn classes<T: ArrayValue>(data: Seq<T::V>, len: int, n: int) -> Seq<usize> {
    Seq::new(n as nat, |i: int| class_of::<T>(data, len, i) as usize)
}

/// The array without the rows that repeat an earlier row. A scalar stays
/// as it is.
pub open spec fn deduplicated<T: ArrayValue>(a: ArrayView<T::V>) -> ArrayView<T::V> {
    if a.rank() == 0 {
        a
    } else {
        let kept = first_rows::<T>(a.data, a.row_len() as int, a.row_count() as int);
        ArrayView {
            shape: crate::shape::ShapeView {
                sizes: a.shape.sizes.update(0, kept.len() as usize),
                markers: a.shape.markers,
            },
            data: taken_rows(a.data, a.row_len() as int, kept),
            boolean: a.boolean,
        }
    }
}

/// Being the same row is symmetric and transitive, and every row is the
/// same as itself.
pub proof fn lemma_same_row<T: ArrayValue>(data: Seq<T::V>, len: int, i: int, j: int, k: int)
    ensures
        same_row::<T>(data, len, i, i),
        same_row::<T>(data, len, i, j) == same_row::<T>(data, len, j, i),
        same_row::<T>(data, len, i, j) && same_row::<T>(data, len, j, k) ==> same_row::<T>(
            data,
            len,
            i,
            k,
        ),
{
    lemma_rows_order_flip::<T>(data, len, i, j);
    lemma_rows_order_flip::<T>(data, len, j, k);
    lemma_rows_order_flip::<T>(data, len, i, k);
    lemma_elem_order_total::<T>();
    let ord = elem_order::<T>();
    let a = row_at(data, len, i);
    let b = row_at(data, len, j);
    let c = row_at(data, len, k);
    if same_row::<T>(data, len, i, j) && same_row::<T>(data, len, j, k) {
        lemma_lex_by_trans(ord, a, b, c, 0);
        lemma_lex_by_trans(ord, c, b, a, 0);
    }
}

/// The first row that is the same as row `i` is at or before `i`, is the
/// same as it, is the first of its kind, and no row before it is the same
/// as row `i`.
pub proof fn lemma_first_same<T: ArrayValue>(data: Seq<T::V>, len: int, i: int, k: int)
    requires
        0 <= k <= i,
        forall|j: int| 0 <= j < k ==> !#[trigger] same_row::<T>(data, len, j, i),
    ensures
        k <= first_same::<T>(data, len, i, k) <= i,
        same_row::<T>(data, len, first_same::<T>(data, len, i, k), i),
        forall|j: int|
            0 <= j < first_same::<T>(data, len, i, k) ==> !#[trigger] same_row::<T>(
                data,
                len,
                j,
                i,
            ),
        first_of_kind::<T>(data, len, first_same::<T>(data, len, i, k)),
    decreases i - k,
{
    lemma_same_row::<T>(data, len, i, i, i);
    if k >= i || same_row::<T>(data, len, k, i) {
        assert forall|j: int| 0 <= j < k implies !#[trigger] same_row::<T>(data, len, j, k) by {
            lemma_same_row::<T>(data, len, j, k, i);
        }
    } else {
        lemma_first_same::<T>(data, len, i, k + 1);
    }
}

/// The rows that are the first of their kind: each of the first `m` rows
/// that is one stands in the list, at the place that the number of such
/// rows before it gives; and the list holds nothing else.
pub proof fn lemma_first_rows<T: ArrayValue>(data: Seq<T::V>, len: int, m: int)
    requires
        0 <= m <= usize::MAX,
    ensures
        first_rows::<T>(data, len, m).len() <= m,
        forall|c: int|
            0 <= c < first_rows::<T>(data, len, m).len() ==> {
                let j = #[trigger] first_rows::<T>(data, len, m)[c];
                &&& j < m
                &&& first_of_kind::<T>(data, len, j as int)
                &&& first_rows::<T>(data, len, j as int).len() == c
            },
        forall|j: int|
            0 <= j < m && first_of_kind::<T>(data, len, j) ==> {
                let c = #[trigger] first_rows::<T>(data, len, j).len() as int;
                &&& c < first_rows::<T>(data, len, m).len()
                &&& first_rows::<T>(data, len, m)[c] == j
            },
    decreases m,
{
    if m > 0 {
        lemma_first_rows::<T>(data, len, m - 1);
        let before = first_rows::<T>(data, len, m - 1);
        let now = first_rows::<T>(data, len, m);
        assert forall|c: int| 0 <= c < now.len() implies {
            let j = #[trigger] now[c];
            &&& j < m
            &&& first_of_kind::<T>(data, len, j as int)
            &&& first_rows::<T>(data, len, j as int).len() == c
        } by {
            if c < before.len() {
                assert(now[c] == before[c]);
            }
        }
        assert forall|j: int| 0 <= j < m && first_of_kind::<T>(data, len, j) implies {
            let c = #[trigger] first_rows::<T>(data, len, j).len() as int;
            &&& c < now.len()
            &&& now[c] == j
        } by {
            if j < m - 1 {
                let c = first_rows::<T>(data, len, j).len() as int;
                assert(before[c] == j);
            }
        }
    }
}

impl<T: ArrayValue> Array<T> {
    /// The rows that are the first of their kind, and the class of every
    /// row, for an array whose rows have `row_len` elements.
    fn tell_apart(&self, row_len: usize) -> (r: (Vec<usize>, Vec<usize>))
        requires
            self.wf(),
            self@.rank() > 0,
            row_len == self@.row_len(),
        ensures
            r.0@ == first_rows::<T>(self@.data, row_len as int, self@.row_count() as int),
            r.1@ == classes::<T>(self@.data, row_len as int, self@.row_count() as int),
            rows_inside(self.data@, row_len, r.0@),
    {
        let n = self.row_count();
        let ghost data = self@.data;
        let ghost len = row_len as int;
        let mut firsts: Vec<usize> = Vec::new();
        let mut found: Vec<usize> = Vec::with_capacity(n);
        let mut i: usize = 0;
        proof {
            crate::array::lemma_rows(self@);
            assert(self@.data.len() == self.data@.len());
        }
        while i < n
            invariant
                i <= n,
                data == views(self.data@),
                len == row_len as int,
                self.data@.len() == n * row_len,
                firsts@ == first_rows::<T>(data, len, i as int),
                found@.len() == i,
                forall|k: int| 0 <= k < i ==> #[trigger] found@[k] == class_of::<T>(data, len, k),
            decreases n - i,
        {
            proof {
                lemma_first_rows::<T>(data, len, i as int);
                lemma_row_bounds(i as int, len, n as int);
            }
            let mut c: usize = 0;
            let mut class: usize = firsts.len();
            while c < firsts.len() && class == firsts.len()
                invariant
                    c <= firsts@.len(),
                    i < n,
                    data == views(self.data@),
                    len == row_len as int,
                    self.data@.len() == n * row_len,
                    i * row_len + row_len <= n * row_len,
                    firsts@ == first_rows::<T>(data, len, i as int),
                    class == firsts@.len() || (class < firsts@.len() && same_row::<T>(
                        data,
                        len,
                        firsts@[class as int] as int,
                        i as int,
                    )),
                    forall|k: int| 0 <= k < firsts@.len() ==> (#[trigger] firsts@[k]) < i,
                    forall|k: int|
                        0 <= k < c ==> !same_row::<T>(data, len, (#[trigger] firsts@[k]) as int, i as int),
                decreases
                        firsts@.len() - c + if class == firsts@.len() {
                            1int
                        } else {
                            0int
                        },
            {
                proof {
                    lemma_row_bounds(firsts@[c as int] as int, len, n as int);
                }
                match compare_rows(&self.data, row_len, firsts[c], i) {
                    Order::Equal => {
                        class = c;
                    },
                    _ => {
                        c += 1;
                    },
                }
            }
            proof {
                lemma_first_same::<T>(data, len, i as int, 0);
                let f = first_same::<T>(data, len, i as int, 0);
                lemma_first_rows::<T>(data, len, f);
                if class < firsts@.len() {
                    // the row is the same as one that is the first of its kind
                    let j = firsts@[class as int] as int;
                    assert(same_row::<T>(data, len, j, i as int));
                    lemma_same_row::<T>(data, len, f, i as int, j);
                    lemma_same_row::<T>(data, len, j, i as int, f);
                    assert(same_row::<T>(data, len, f, j));
                    assert(f == j) by {
                        if f < j {
                            assert(!same_row::<T>(data, len, f, j));
                        } else if j < f {
                            assert(!same_row::<T>(data, len, j, i as int));
                        }
                    }
                } else {
                    // no row before it is the same
                    assert(f == i) by {
                        if f < i {
                            let at = first_rows::<T>(data, len, f).len() as int;
                            assert(firsts@[at] == f);
                            assert(!same_row::<T>(data, len, firsts@[at] as int, i as int));
                        }
                    }
                }
            }
            if class == firsts.len() {
                firsts.push(i);
            }
            found.push(class);
            i += 1;
        }
        proof {
            lemma_first_rows::<T>(data, len, n as int);
            assert(found@ =~= classes::<T>(data, len, n as int));
            assert forall|k: int| 0 <= k < firsts@.len() implies (#[trigger] firsts@[k]) * row_len
                + row_len <= self.data@.len() by {
                lemma_row_bounds(firsts@[k] as int, len, n as int);
            }
        }
        (firsts, found)
    }

    /// `classify` the rows of the array: each row gets the number that its
    /// kind of row has in the order in which the kinds first appear
    pub fn classify(&self) -> (r: Result<Vec<usize>, UiuaError>)
        requires
            self.wf(),
        ensures
            match r {
                Ok(found) => self@.rank() > 0 && found@ == classes::<T>(
                    self@.data,
                    self@.row_len() as int,
                    self@.row_count() as int,
                ),
                Err(e) => self@.rank() == 0 && e@ == failure(Op::Classify, ErrorKind::Scalar),
            },
    {
        if self.shape.rank() == 0 {
            return Err(UiuaError::new(Op::Classify, ErrorKind::Scalar));
        }
        match self.row_len() {
            Some(row_len) => Ok(self.tell_apart(row_len).1),
            None => {
                // rows too long to count: there is none of them
                proof {
                    crate::array::lemma_rows(self@);
                    let n = self@.row_count();
                    let len = self@.row_len();
                    assert(n == 0) by (nonlinear_arith)
                        requires
                            self@.data.len() == n * len,
                            len > usize::MAX,
                            self@.data.len() <= usize::MAX,
                    ;
                }
                let found: Vec<usize> = Vec::new();
                assert(found@ =~= classes::<T>(self@.data, self@.row_len() as int, 0));
                Ok(found)
            },
        }
    }

    /// `deduplicate` the rows of the array: of rows that are the same, only
    /// the first stays
    pub fn deduplicate(&mut self)
        requires
            old(self).wf(),
        ensures
            final(self).wf(),
            final(self)@ == deduplicated::<T>(old(self)@),
    {
        if self.shape.rank() == 0 {
            return ;
        }
        let ghost before = self@;
        assert(self@.data.len() == self.data.len());
        match self.row_len() {
            Some(row_len) => {
                let firsts = self.tell_apart(row_len).0;
                let data = take_rows(&self.data, row_len, &firsts);
                proof {
                    lemma_kept_count(before, firsts@.len() as usize);
                }
                self.data = data;
                self.shape.set_size(0, firsts.len());
            },
            None => {
                proof {
                    crate::array::lemma_rows(self@);
                    let n = self@.row_count();
                    let len = self@.row_len();
                    assert(n == 0) by (nonlinear_arith)
                        requires
                            self@.data.len() == n * len,
                            len > usize::MAX,
                            self@.data.len() <= usize::MAX,
                    ;
                    assert(before.shape.sizes.update(0, 0usize) =~= before.shape.sizes);
                    assert(taken_rows(before.data, len as int, Seq::<usize>::empty())
                        =~= before.data);
                }
            },
        }
    }
}

/// With another number of rows, a valid array has that many times the
/// elements of a row.
pub proof fn lemma_kept_count<V>(a: ArrayView<V>, rows: usize)
    requires
        a.wf(),
        a.rank() > 0,
    ensures
        crate::array::count(a.shape.sizes.update(0, rows)) == rows * a.row_len(),
        a.shape.sizes.update(0, rows).skip(1) == a.shape.sizes.skip(1),
{
    let s = a.shape.sizes.update(0, rows);
    crate::array::lemma_count_split(s, 1);
    assert(s.subrange(0, 1) =~= seq![rows]);
    crate::array::lemma_count_one(rows);
    assert(s.subrange(1, s.len() as int) =~= a.shape.sizes.skip(1));
    assert(s.skip(1) =~= a.shape.sizes.skip(1));
}

/// The elements of an array without its repeated rows are elements of
/// the array.
pub proof fn lemma_dedup_items<T: ArrayValue>(a: ArrayView<T::V>)
    requires
        a.wf(),
        a.data.len() <= usize::MAX,
    ensures
        forall|x: int|
            0 <= x < deduplicated::<T>(a).data.len() ==> a.data.contains(
                #[trigger] deduplicated::<T>(a).data[x],
            ),
{
    let r = deduplicated::<T>(a);
    if a.rank() > 0 {
        let len = a.row_len() as int;
        let n = a.row_count() as int;
        let kept = first_rows::<T>(a.data, len, n);
        lemma_first_rows::<T>(a.data, len, n);
        crate::array::lemma_rows(a);
        crate::algorithm::sort::lemma_taken_rows(a.data, len, n, kept);
    } else {
        assert forall|x: int| 0 <= x < r.data.len() implies a.data.contains(
            #[trigger] r.data[x],
        ) by {
            assert(r.data[x] == a.data[x]);
        }
    }
}

/// Where every one of the first `m` rows is the first of its kind, the
/// rows that are so are all of them.
pub proof fn lemma_all_first<T: ArrayValue>(data: Seq<T::V>, len: int, m: int)
    requires
        0 <= m <= usize::MAX,
        forall|c: int| 0 <= c < m ==> #[trigger] first_of_kind::<T>(data, len, c),
    ensures
        first_rows::<T>(data, len, m) == Seq::new(m as nat, |i: int| i as usize),
    decreases m,
{
    if m > 0 {
        lemma_all_first::<T>(data, len, m - 1);
        assert(first_of_kind::<T>(data, len, m - 1));
    }
    assert(first_rows::<T>(data, len, m) =~= Seq::new(m as nat, |i: int| i as usize));
}

/// Taking the repeated rows out of an array a second time changes
/// nothing. What the first time leaves has no more rows than the array,
/// no two of them the same, each the first of its kind in the array and in
/// the order that they have there.
pub proof fn lemma_deduplicate_twice<T: ArrayValue>(a: ArrayView<T::V>)
    requires
        a.wf(),
        a.data.len() <= usize::MAX,
    ensures
        deduplicated::<T>(deduplicated::<T>(a)) == deduplicated::<T>(a),
        deduplicated::<T>(a).wf(),
        deduplicated::<T>(a).row_count() <= a.row_count(),
        a.rank() > 0 ==> forall|c: int, d: int|
            0 <= c < d < deduplicated::<T>(a).row_count() ==> !#[trigger] same_row::<T>(
                deduplicated::<T>(a).data,
                a.row_len() as int,
                c,
                d,
            ),
{
    let b = deduplicated::<T>(a);
    if a.rank() > 0 {
        let len = a.row_len() as int;
        let n = a.row_count() as int;
        let kept = first_rows::<T>(a.data, len, n);
        let m = kept.len() as int;
        lemma_first_rows::<T>(a.data, len, n);
        crate::array::lemma_rows(a);
        lemma_kept_count(a, m as usize);
        crate::algorithm::sort::lemma_taken_rows(a.data, len, n, kept);
        assert(b.row_len() == len);
        assert(b.row_count() == m);
        assert(b.wf());
        assert forall|c: int, d: int| 0 <= c < d < m implies !#[trigger] same_row::<T>(
            b.data,
            len,
            c,
            d,
        ) by {
            crate::algorithm::sort::lemma_taken_row(a.data, len, n, kept, c);
            crate::algorithm::sort::lemma_taken_row(a.data, len, n, kept, d);
            lemma_first_rows::<T>(a.data, len, kept[c] as int);
            lemma_first_rows::<T>(a.data, len, kept[d] as int);
            assert(first_of_kind::<T>(a.data, len, kept[d] as int));
            assert(kept[c] < kept[d]) by {
                if kept[c] >= kept[d] {
                    if kept[c] > kept[d] {
                        assert(first_rows::<T>(a.data, len, kept[d] as int).len() < first_rows::<T>(
                            a.data,
                            len,
                            kept[c] as int,
                        ).len());
                    }
                }
            }
            assert(!same_row::<T>(a.data, len, kept[c] as int, kept[d] as int));
        }
        assert forall|d: int| 0 <= d < m implies #[trigger] first_of_kind::<T>(b.data, len, d) by {
            assert forall|c: int| 0 <= c < d implies !#[trigger] same_row::<T>(
                b.data,
                len,
                c,
                d,
            ) by {}
        }
        lemma_all_first::<T>(b.data, len, m);
        let again = deduplicated::<T>(b);
        let all = Seq::new(m as nat, |i: int| i as usize);
        assert forall|x: int| 0 <= x < b.data.len() implies again.data[x] == b.data[x] by {
            assert(len > 0) by (nonlinear_arith)
                requires
                    0 <= x < m * len,
                    0 <= len,
            ;
            crate::index::lemma_parts(x, len);
            crate::index::lemma_quotient_below(x, len, m);
        }
        assert(again.data =~= b.data);
        assert(again.shape.sizes =~= b.shape.sizes);
    }
}

/// Two rows have one class exactly when they are the same row. The
/// classes are the naturals below the number of rows that the array has
/// without its repeated rows, and the last of those rows has the greatest
/// class.
pub proof fn lemma_classes<T: ArrayValue>(a: ArrayView<T::V>, i: int, j: int)
    requires
        a.wf(),
        a.rank() > 0,
        0 <= i < a.row_count(),
        0 <= j < a.row_count(),
    ensures
        class_of::<T>(a.data, a.row_len() as int, i) == class_of::<T>(
            a.data,
            a.row_len() as int,
            j,
        ) <==> same_row::<T>(a.data, a.row_len() as int, i, j),
        class_of::<T>(a.data, a.row_len() as int, i) < deduplicated::<T>(a).row_count(),
        exists|k: int|
            0 <= k < a.row_count() && #[trigger] class_of::<T>(a.data, a.row_len() as int, k) + 1
                == deduplicated::<T>(a).row_count(),
{
    let data = a.data;
    let len = a.row_len() as int;
    let n = a.row_count() as int;
    let fi = first_same::<T>(data, len, i, 0);
    let fj = first_same::<T>(data, len, j, 0);
    lemma_first_same::<T>(data, len, i, 0);
    lemma_first_same::<T>(data, len, j, 0);
    lemma_first_rows::<T>(data, len, n);
    lemma_first_rows::<T>(data, len, fi);
    lemma_first_rows::<T>(data, len, fj);
    let kept = first_rows::<T>(data, len, n);
    lemma_same_row::<T>(data, len, fi, i, j);
    lemma_same_row::<T>(data, len, fj, j, i);
    lemma_same_row::<T>(data, len, i, fi, j);
    lemma_same_row::<T>(data, len, i, j, fj);
    lemma_same_row::<T>(data, len, j, i, fi);
    lemma_same_row::<T>(data, len, fi, j, i);
    if same_row::<T>(data, len, i, j) {
        // the first row that is the same as one is that of the other
        assert(same_row::<T>(data, len, fj, i));
        assert(same_row::<T>(data, len, fi, j));
        assert(fi == fj);
    }
    if class_of::<T>(data, len, i) == class_of::<T>(data, len, j) {
        assert(fi == fj) by {
            if fi < fj {
                assert(first_rows::<T>(data, len, fi).len() < first_rows::<T>(data, len, fj).len());
            } else if fj < fi {
                assert(first_rows::<T>(data, len, fj).len() < first_rows::<T>(data, len, fi).len());
            }
        }
        lemma_same_row::<T>(data, len, i, fi, j);
        assert(same_row::<T>(data, len, i, j));
    }
    assert(first_rows::<T>(data, len, fi).len() < kept.len());
    // the last of the rows that are the first of their kind
    let top = kept[kept.len() - 1] as int;
    lemma_first_same::<T>(data, len, top, 0);
    let ft = first_same::<T>(data, len, top, 0);
    assert(ft == top) by {
        if ft < top {
            assert(!same_row::<T>(data, len, ft, top));
        }
    }
    assert(class_of::<T>(data, len, top) + 1 == kept.len());
}

} // verus!
