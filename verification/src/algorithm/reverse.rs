//! Reversing the rows of an array.

use vstd::prelude::*;
use crate::array::{count, lemma_count_split, lemma_count_one, checked_count, Array, ArrayView};
use crate::element::ArrayValue;
use crate::index::{lemma_index_below, lemma_parts, lemma_quotient_below, lemma_split};

verus! {

/// The place from which the element at `i` comes when the rows of `row`
/// elements are reversed inside each run of `chunk` elements
pub open spec fn mirror(i: int, chunk: int, row: int) -> int {
    let within = i % chunk;
    let place = within % row;
    i - within + (chunk - row - (within - place)) + place
}

/// The array with its rows reversed at the given depth: the first `depth`
/// dimensions stay, and below them the order of the rows is turned round.
/// Nothing changes where no dimension is left at that depth or the array
/// has no elements.
pub open spec fn reversed<V>(a: ArrayView<V>, depth: nat) -> ArrayView<V> {
    let d = if depth < a.rank() {
        depth
    } else {
        a.rank()
    };
    let chunk = count(a.shape.sizes.skip(d as int));
    if d == a.rank() || chunk == 0 {
        a
    } else {
        let row = count(a.shape.sizes.skip(d as int + 1));
        ArrayView {
            shape: a.shape,
            data: Seq::new(a.data.len(), |i: int| a.data[mirror(i, chunk as int, row as int)]),
            boolean: a.boolean,
        }
    }
}

/// The mirror of a place is a place in the same run, and its mirror is the
/// place itself.
pub proof fn lemma_mirror(i: int, chunk: int, row: int, rows: int, runs: int)
    requires
        row > 0,
        rows > 0,
        chunk == rows * row,
        0 <= i < runs * chunk,
    ensures
        0 <= mirror(i, chunk, row) < runs * chunk,
        mirror(mirror(i, chunk, row), chunk, row) == i,
        mirror(i, chunk, row) / chunk == i / chunk,
        0 <= i % chunk - (i % chunk) % row <= chunk - row,
{
    assert(chunk > 0) by (nonlinear_arith)
        requires
            chunk == rows * row,
            row > 0,
            rows > 0,
    ;
    lemma_parts(i, chunk);
    let q = i / chunk;
    let w = i % chunk;
    lemma_parts(w, row);
    let r = w / row;
    let k = w % row;
    lemma_quotient_below(w, row, rows);
    lemma_quotient_below(i, chunk, runs);
    let r2 = rows - 1 - r;
    let w2 = r2 * row + k;
    assert(w2 == chunk - row - (w - k) + k) by (nonlinear_arith)
        requires
            w2 == (rows - 1 - r) * row + k,
            chunk == rows * row,
            w == r * row + k,
    ;
    lemma_index_below(r2, row, k, rows);
    let j = mirror(i, chunk, row);
    assert(j == q * chunk + w2);
    lemma_split(q, chunk, w2);
    lemma_split(r2, row, k);
    assert(mirror(j, chunk, row) == j - w2 + (chunk - row - (w2 - k)) + k);
    assert(chunk - row - (w2 - k) == r * row) by (nonlinear_arith)
        requires
            w2 == (rows - 1 - r) * row + k,
            chunk == rows * row,
    ;
    lemma_index_below(q, chunk, w2, runs);
    assert(w - k == r * row);
    assert(r * row <= chunk - row) by (nonlinear_arith)
        requires
            r <= rows - 1,
            chunk == rows * row,
            row > 0,
    ;
    assert(0 <= r * row) by (nonlinear_arith)
        requires
            0 <= r,
            row > 0,
    ;
}

/// Reversing the rows twice at one depth restores the array.
pub proof fn lemma_reverse_twice<V>(a: ArrayView<V>, depth: nat)
    requires
        a.wf(),
    ensures
        reversed(reversed(a, depth), depth) == a,
{
    let d = if depth < a.rank() {
        depth
    } else {
        a.rank()
    };
    let sizes = a.shape.sizes;
    let chunk = count(sizes.skip(d as int));
    if d < a.rank() && chunk != 0 {
        let row = count(sizes.skip(d as int + 1));
        let once = reversed(a, depth);
        lemma_depth_counts(sizes, d as int);
        let runs = count(sizes.subrange(0, d as int));
        let rows = sizes[d as int] as int;
        assert forall|i: int| 0 <= i < a.data.len() implies reversed(once, depth).data[i]
            == a.data[i] by {
            lemma_mirror(i, chunk as int, row as int, rows, runs as int);
            let j = mirror(i, chunk as int, row as int);
            assert(once.data[j] == a.data[mirror(j, chunk as int, row as int)]);
        }
        assert(reversed(once, depth).data =~= a.data);
    }
}

/// The array with its rows reversed is valid, and each of its elements is
/// an element of the array.
pub proof fn lemma_reversed_items<V>(a: ArrayView<V>, depth: nat)
    requires
        a.wf(),
    ensures
        reversed(a, depth).wf(),
        reversed(a, depth).data.len() == a.data.len(),
        forall|i: int|
            0 <= i < a.data.len() ==> a.data.contains(#[trigger] reversed(a, depth).data[i]),
{
    let d = if depth < a.rank() {
        depth
    } else {
        a.rank()
    };
    let sizes = a.shape.sizes;
    let chunk = count(sizes.skip(d as int));
    if d < a.rank() && chunk != 0 {
        let row = count(sizes.skip(d as int + 1));
        lemma_depth_counts(sizes, d as int);
        let runs = count(sizes.subrange(0, d as int));
        let rows = sizes[d as int] as int;
        assert forall|i: int| 0 <= i < a.data.len() implies a.data.contains(
            #[trigger] reversed(a, depth).data[i],
        ) by {
            lemma_mirror(i, chunk as int, row as int, rows, runs as int);
            let j = mirror(i, chunk as int, row as int);
            assert(reversed(a, depth).data[i] == a.data[j]);
        }
    } else {
        assert forall|i: int| 0 <= i < a.data.len() implies a.data.contains(
            #[trigger] reversed(a, depth).data[i],
        ) by {
            assert(reversed(a, depth).data[i] == a.data[i]);
        }
    }
}

/// At a depth below the rank, the elements fall into runs, one for each
/// choice of the dimensions above the depth, and each run into rows.
pub proof fn lemma_depth_counts(sizes: Seq<usize>, d: int)
    requires
        0 <= d < sizes.len(),
    ensures
        count(sizes) == count(sizes.subrange(0, d)) * count(sizes.skip(d)),
        count(sizes.skip(d)) == (sizes[d] as nat) * count(sizes.skip(d + 1)),
        count(sizes.skip(d)) != 0 ==> sizes[d] > 0 && count(sizes.skip(d + 1)) > 0,
{
    lemma_count_split(sizes, d);
    assert(sizes.subrange(d, sizes.len() as int) =~= sizes.skip(d));
    let tail = sizes.skip(d);
    lemma_count_split(tail, 1);
    assert(tail.subrange(0, 1) =~= seq![sizes[d]]);
    assert(tail.subrange(1, tail.len() as int) =~= sizes.skip(d + 1));
    lemma_count_one(sizes[d]);
    if count(tail) != 0 {
        assert(sizes[d] > 0 && count(sizes.skip(d + 1)) > 0) by (nonlinear_arith)
            requires
                count(tail) == (sizes[d] as nat) * count(sizes.skip(d + 1)),
                count(tail) != 0,
        ;
    }
}

/// Exchanges the elements at `i` and `j`.
pub fn swap_items<T>(data: &mut Vec<T>, i: usize, j: usize)
    requires
        i < j < old(data)@.len(),
    ensures
        final(data)@ == old(data)@.update(i as int, old(data)@[j as int]).update(
            j as int,
            old(data)@[i as int],
        ),
{
    let (left, right) = data.as_mut_slice().split_at_mut(j);
    core::mem::swap(&mut left[i], &mut right[0]);
    assert(data@ =~= old(data)@.update(i as int, old(data)@[j as int]).update(
        j as int,
        old(data)@[i as int],
    ));
}

impl<T: ArrayValue> Array<T> {
    /// Reverse the rows of the array
    pub fn reverse(&mut self)
        requires
            old(self).wf(),
        ensures
            final(self).wf(),
            final(self)@ == reversed(old(self)@, 0),
    {
        self.reverse_depth(0);
    }

    /// Reverse the rows of the array at the given depth, in place
    pub fn reverse_depth(&mut self, depth: usize)
        requires
            old(self).wf(),
        ensures
            final(self).wf(),
            final(self)@ == reversed(old(self)@, depth as nat),
    {
        let rank = self.shape.rank();
        let d = if depth < rank {
            depth
        } else {
            rank
        };
        let n = self.data.len();
        let ghost before = self@;
        let ghost sizes = self@.shape.sizes;
        assert(self@.data.len() == n);
        if d == rank {
            return ;
        }
        proof {
            lemma_depth_counts(sizes, d as int);
            assert(sizes.subrange(d as int, sizes.len() as int) =~= sizes.skip(d as int));
            assert(sizes.subrange(d + 1, sizes.len() as int) =~= sizes.skip(d + 1));
        }
        if n == 0 {
            assert(reversed(before, depth as nat).data =~= before.data);
            return ;
        }
        let ghost runs = count(sizes.subrange(0, d as int));
        proof {
            // the array has elements, so every run and every row has
            assert(count(sizes.skip(d as int)) != 0 && count(sizes.skip(d as int)) <= n)
                by (nonlinear_arith)
                requires
                    n == runs * count(sizes.skip(d as int)),
                    n > 0,
            ;
            let rows = sizes[d as int] as nat;
            let row = count(sizes.skip(d as int + 1));
            assert(row <= count(sizes.skip(d as int))) by (nonlinear_arith)
                requires
                    count(sizes.skip(d as int)) == rows * row,
                    rows > 0,
            ;
        }
        let chunk = checked_count(self.shape.sizes(), d, rank).unwrap();
        let row = checked_count(self.shape.sizes(), d + 1, rank).unwrap();
        let ghost rows = sizes[d as int] as int;
        let ghost old_items = self.data@;
        let mut i: usize = 0;
        proof {
            assert forall|x: int| 0 <= x < n implies 0 <= mirror(x, chunk as int, row as int) by {
                lemma_mirror(x, chunk as int, row as int, rows, runs as int);
            }
        }
        while i < n
            invariant
                i <= n,
                self.shape@ == before.shape,
                self.flags.boolean == before.boolean,
                n == self.data@.len(),
                n == old_items.len(),
                n == runs * chunk,
                chunk == rows * row,
                row > 0,
                rows > 0,
                forall|x: int|
                    0 <= x < n ==> #[trigger] self.data@[x] == if x < i || mirror(
                        x,
                        chunk as int,
                        row as int,
                    ) < i {
                        old_items[mirror(x, chunk as int, row as int)]
                    } else {
                        old_items[x]
                    },
            decreases n - i,
        {
            proof {
                lemma_mirror(i as int, chunk as int, row as int, rows, runs as int);
                lemma_parts(i as int, chunk as int);
                lemma_parts((i % chunk) as int, row as int);
                assert(chunk > 0) by (nonlinear_arith)
                    requires
                        chunk == rows * row,
                        row > 0,
                        rows > 0,
                ;
            }
            let within = i % chunk;
            let place = within % row;
            let j = i - within + (chunk - row - (within - place)) + place;
            let ghost current = self.data@;
            if i < j {
                swap_items(&mut self.data, i, j);
            }
            proof {
                assert forall|x: int| 0 <= x < n implies #[trigger] self.data@[x] == if x < i + 1
                    || mirror(x, chunk as int, row as int) < i + 1 {
                    old_items[mirror(x, chunk as int, row as int)]
                } else {
                    old_items[x]
                } by {
                    lemma_mirror(x, chunk as int, row as int, rows, runs as int);
                    assert(current[x] == if x < i || mirror(x, chunk as int, row as int) < i {
                        old_items[mirror(x, chunk as int, row as int)]
                    } else {
                        old_items[x]
                    });
                    assert(current[i as int] == if i < i || mirror(
                        i as int,
                        chunk as int,
                        row as int,
                    ) < i {
                        old_items[mirror(i as int, chunk as int, row as int)]
                    } else {
                        old_items[i as int]
                    });
                    assert(current[j as int] == if j < i || mirror(
                        j as int,
                        chunk as int,
                        row as int,
                    ) < i {
                        old_items[mirror(j as int, chunk as int, row as int)]
                    } else {
                        old_items[j as int]
                    });
                }
            }
            i += 1;
        }
        proof {
            let goal = reversed(before, depth as nat);
            assert forall|x: int| 0 <= x < n implies self@.data[x] == goal.data[x] by {
                lemma_mirror(x, chunk as int, row as int, rows, runs as int);
                let y = mirror(x, chunk as int, row as int);
                assert(self.data@[x] == old_items[y]);
                assert(before.data[y] == old_items[y]@);
            }
            assert(self@.data =~= goal.data);
        }
    }
}

} // verus!
