//! Transposing an array: rotating its axes.

use vstd::prelude::*;
use crate::array::{checked_count, count, lemma_count_concat, views, Array, ArrayView};

use crate::element::ArrayValue;
use crate::index::{lemma_index_below, lemma_parts, lemma_quotient_below, lemma_split};
use crate::shape::{lemma_turn_round_trip, rotated_left, rotated_right};

verus! {

/// The number of axes that a rotation by `amount` moves in a range of
/// `width` axes: the size of the amount, modulo the width.
pub open spec fn turn_count(amount: int, width: int) -> int {
    if amount >= 0 {
        amount % width
    } else {
        (-amount) % width
    }
}

/// The place from which the element at `i` comes when each run of `chunk`
/// elements, taken as a matrix with `subs` rows, is transposed
pub open spec fn source(i: int, chunk: int, subs: int) -> int {
    let within = i % chunk;
    i - within + (within % subs) * (chunk / subs) + within / subs
}

/// The array with `c` of the axes from `d` on moved: the first `c` of
/// them to the end where `forward` holds, the last `c` of them to the
/// front where it does not. The elements move with their axes.
pub open spec fn turned<V>(a: ArrayView<V>, d: int, c: int, forward: bool) -> ArrayView<V> {
    let rank = a.rank() as int;
    let sizes = a.shape.sizes;
    let chunk = count(sizes.skip(d)) as int;
    let subs = if forward {
        count(sizes.subrange(d, d + c)) as int
    } else {
        count(sizes.subrange(d, rank - c)) as int
    };
    ArrayView {
        shape: if forward {
            a.shape.turned_left(d, rank, c)
        } else {
            a.shape.turned_right(d, rank, c)
        },
        data: if chunk == 0 {
            a.data
        } else {
            Seq::new(a.data.len(), |i: int| a.data[source(i, chunk, subs)])
        },
        boolean: a.boolean,
    }
}

/// The array with the axes from `depth` on rotated by `amount`: to the
/// left, so that the first of them become the last, for a positive amount,
/// and to the right for a negative one. The elements move with their axes.
/// Nothing changes where fewer than two axes are left at that depth, or
/// the amount is a multiple of their number.
pub open spec fn transposed<V>(a: ArrayView<V>, depth: nat, amount: int) -> ArrayView<V> {
    let rank = a.rank() as int;
    let d = if depth < rank {
        depth as int
    } else {
        rank
    };
    let width = rank - d;
    if width < 2 || turn_count(amount, width) == 0 {
        a
    } else {
        turned(a, d, turn_count(amount, width), amount > 0)
    }
}

/// The source of a place is a place in the same run, and transposing back
/// leads to the place itself.
pub proof fn lemma_source(i: int, chunk: int, subs: int, stride: int, runs: int)
    requires
        subs > 0,
        stride > 0,
        chunk == subs * stride,
        0 <= i < runs * chunk,
    ensures
        0 <= source(i, chunk, subs) < runs * chunk,
        source(source(i, chunk, stride), chunk, subs) == i,
        chunk / subs == stride,
        0 <= i % chunk <= i,
        0 <= (i % chunk) % subs * stride + (i % chunk) / subs < chunk,
{
    assert(chunk > 0) by (nonlinear_arith)
        requires
            chunk == subs * stride,
            subs > 0,
            stride > 0,
    ;
    assert(chunk == stride * subs) by (nonlinear_arith)
        requires
            chunk == subs * stride,
    ;
    lemma_split(stride, subs, 0);
    lemma_split(subs, stride, 0);
    lemma_parts(i, chunk);
    lemma_quotient_below(i, chunk, runs);
    let q = i / chunk;
    let w = i % chunk;
    // the source of i
    lemma_parts(w, subs);
    lemma_quotient_below(w, subs, stride);
    let t = w / subs;
    let c = w % subs;
    lemma_index_below(c, stride, t, subs);
    lemma_index_below(q, chunk, c * stride + t, runs);
    // the place that i is the source of, with the two factors exchanged
    lemma_parts(w, stride);
    lemma_quotient_below(w, stride, subs);
    let t2 = w / stride;
    let c2 = w % stride;
    let y = c2 * subs + t2;
    lemma_index_below(c2, subs, t2, stride);
    let j = source(i, chunk, stride);
    assert(chunk / stride == subs);
    assert(j == q * chunk + y);
    lemma_split(q, chunk, y);
    lemma_split(c2, subs, t2);
    assert(source(j, chunk, subs) == j - y + (y % subs) * (chunk / subs) + y / subs);
}

/// The product of sizes stays the same when a range of them is rotated.
pub proof fn lemma_count_rotated(s: Seq<usize>, start: int, end: int, n: int)
    requires
        0 <= start <= end <= s.len(),
        0 <= n <= end - start,
    ensures
        count(rotated_left(s, start, end, n)) == count(s),
        count(rotated_right(s, start, end, n)) == count(s),
        count(rotated_left(s, start, end, n).skip(start)) == count(s.skip(start)),
        count(rotated_right(s, start, end, n).skip(start)) == count(s.skip(start)),
{
    let a = s.subrange(0, start);
    let z = s.subrange(end, s.len() as int);
    lemma_count_middle(a, s.subrange(start, start + n), s.subrange(start + n, end), z);
    lemma_count_middle(a, s.subrange(start, end - n), s.subrange(end - n, end), z);
    assert(s =~= a + s.subrange(start, start + n) + s.subrange(start + n, end) + z);
    assert(s =~= a + s.subrange(start, end - n) + s.subrange(end - n, end) + z);
    let e = Seq::<usize>::empty();
    lemma_count_middle(e, s.subrange(start, start + n), s.subrange(start + n, end), z);
    lemma_count_middle(e, s.subrange(start, end - n), s.subrange(end - n, end), z);
    assert(s.skip(start) =~= e + s.subrange(start, start + n) + s.subrange(start + n, end) + z);
    assert(s.skip(start) =~= e + s.subrange(start, end - n) + s.subrange(end - n, end) + z);
    assert(rotated_left(s, start, end, n).skip(start) =~= e + s.subrange(start + n, end)
        + s.subrange(start, start + n) + z);
    assert(rotated_right(s, start, end, n).skip(start) =~= e + s.subrange(end - n, end)
        + s.subrange(start, end - n) + z);
}

/// The product of four lists of sizes put together stays the same when the
/// two in the middle change places.
pub proof fn lemma_count_middle(a: Seq<usize>, b: Seq<usize>, c: Seq<usize>, z: Seq<usize>)
    ensures
        count(a + b + c + z) == count(a + c + b + z),
        count(a + b + c + z) == count(a) * count(b) * count(c) * count(z),
{
    lemma_count_concat(a, b);
    lemma_count_concat(a + b, c);
    lemma_count_concat(a + b + c, z);
    lemma_count_concat(a, c);
    lemma_count_concat(a + c, b);
    lemma_count_concat(a + c + b, z);
    assert(count(a) * count(b) * count(c) == count(a) * count(c) * count(b))
        by (nonlinear_arith);
}

/// The parts into which a rotation by `c` axes cuts the sizes from `d` on:
/// both have a product above zero where the run has, and the two products
/// make up that of the run.
pub proof fn lemma_turn_parts(sizes: Seq<usize>, d: int, cut: int)
    requires
        0 <= d <= cut <= sizes.len(),
    ensures
        count(sizes.skip(d)) == count(sizes.subrange(d, cut)) * count(
            sizes.subrange(cut, sizes.len() as int),
        ),
        count(sizes) == count(sizes.subrange(0, d)) * count(sizes.skip(d)),
        count(sizes.skip(d)) != 0 ==> count(sizes.subrange(d, cut)) > 0 && count(
            sizes.subrange(cut, sizes.len() as int),
        ) > 0,
{
    let tail = sizes.skip(d);
    assert(tail =~= sizes.subrange(d, cut) + sizes.subrange(cut, sizes.len() as int));
    lemma_count_concat(sizes.subrange(d, cut), sizes.subrange(cut, sizes.len() as int));
    assert(sizes =~= sizes.subrange(0, d) + tail);
    lemma_count_concat(sizes.subrange(0, d), tail);
    let x = count(sizes.subrange(d, cut));
    let y = count(sizes.subrange(cut, sizes.len() as int));
    if count(tail) != 0 {
        assert(x > 0 && y > 0) by (nonlinear_arith)
            requires
                count(tail) == x * y,
                count(tail) != 0,
        ;
    }
}

/// Moving axes one way and then the same number the other way restores
/// the array; and an array with axes moved is valid.
pub proof fn lemma_turned_back<V>(a: ArrayView<V>, d: int, c: int, forward: bool)
    requires
        a.wf(),
        0 <= d,
        0 < c < a.rank() - d,
    ensures
        turned(a, d, c, forward).wf(),
        turned(a, d, c, forward).rank() == a.rank(),
        turned(turned(a, d, c, forward), d, c, !forward) == a,
{
    let rank = a.rank() as int;
    let sizes = a.shape.sizes;
    let b = turned(a, d, c, forward);
    let back = turned(b, d, c, !forward);
    lemma_turn_round_trip(a.shape, d, rank, c);
    lemma_count_rotated(sizes, d, rank, c);
    let chunk = count(sizes.skip(d)) as int;
    assert(b.shape.sizes.len() == rank);
    assert(back.shape == a.shape);
    assert(count(b.shape.sizes.skip(d)) == chunk);
    if chunk != 0 {
        let cut = if forward {
            d + c
        } else {
            rank - c
        };
        lemma_turn_parts(sizes, d, cut);
        let subs = count(sizes.subrange(d, cut)) as int;
        let stride = count(sizes.subrange(cut, rank)) as int;
        let runs = count(sizes.subrange(0, d)) as int;
        let cut_back = if forward {
            rank - c
        } else {
            d + c
        };
        assert(b.shape.sizes.subrange(d, cut_back) =~= sizes.subrange(cut, rank));
        assert(a.data.len() == runs * chunk);
        assert(chunk == stride * subs) by (nonlinear_arith)
            requires
                chunk == subs * stride,
        ;
        assert forall|i: int| 0 <= i < a.data.len() implies back.data[i] == a.data[i] by {
            lemma_source(i, chunk, subs, stride, runs);
            lemma_source(i, chunk, stride, subs, runs);
            let j = source(i, chunk, stride);
            assert(back.data[i] == b.data[j]);
            assert(b.data[j] == a.data[source(j, chunk, subs)]);
        }
        assert(back.data =~= a.data);
    } else {
        assert(back.data =~= a.data);
    }
}

/// Transposing by an amount and then by its opposite, at one depth,
/// restores the array.
pub proof fn lemma_transpose_back<V>(a: ArrayView<V>, depth: nat, amount: int)
    requires
        a.wf(),
    ensures
        transposed(transposed(a, depth, amount), depth, -amount) == a,
        transposed(a, depth, amount).wf(),
{
    let rank = a.rank() as int;
    let d = if depth < rank {
        depth as int
    } else {
        rank
    };
    let width = rank - d;
    if width >= 2 && turn_count(amount, width) != 0 {
        let c = turn_count(amount, width);
        assert(0 < c < width) by {
            if amount >= 0 {
                lemma_parts(amount, width);
            } else {
                lemma_parts(-amount, width);
            }
        }
        assert(turn_count(-amount, width) == c);
        lemma_turned_back(a, d, c, amount > 0);
        let b = turned(a, d, c, amount > 0);
        assert(transposed(a, depth, amount) == b);
        assert(b.rank() == rank);
        assert(transposed(b, depth, -amount) == turned(b, d, c, !(amount > 0)));
    } else {
        assert(width >= 2 ==> turn_count(-amount, width) == 0);
    }
}

/// The transposed array is valid, and each of its elements is an element
/// of the array.
pub proof fn lemma_transposed_items<V>(a: ArrayView<V>, depth: nat, amount: int)
    requires
        a.wf(),
    ensures
        transposed(a, depth, amount).wf(),
        transposed(a, depth, amount).data.len() == a.data.len(),
        forall|i: int|
            0 <= i < a.data.len() ==> a.data.contains(
                #[trigger] transposed(a, depth, amount).data[i],
            ),
{
    lemma_transpose_back(a, depth, amount);
    let rank = a.rank() as int;
    let d = if depth < rank {
        depth as int
    } else {
        rank
    };
    let width = rank - d;
    let t = transposed(a, depth, amount);
    let sizes = a.shape.sizes;
    let chunk = count(sizes.skip(d)) as int;
    if width >= 2 && turn_count(amount, width) != 0 && chunk != 0 {
        let c = turn_count(amount, width);
        assert(0 < c < width) by {
            if amount >= 0 {
                lemma_parts(amount, width);
            } else {
                lemma_parts(-amount, width);
            }
        }
        let cut = if amount > 0 {
            d + c
        } else {
            rank - c
        };
        lemma_turn_parts(sizes, d, cut);
        let subs = count(sizes.subrange(d, cut)) as int;
        let stride = count(sizes.subrange(cut, rank)) as int;
        let runs = count(sizes.subrange(0, d)) as int;
        assert forall|i: int| 0 <= i < a.data.len() implies a.data.contains(
            #[trigger] t.data[i],
        ) by {
            lemma_source(i, chunk, subs, stride, runs);
            let j = source(i, chunk, subs);
            assert(t.data[i] == a.data[j]);
        }
    } else {
        assert forall|i: int| 0 <= i < a.data.len() implies a.data.contains(
            #[trigger] t.data[i],
        ) by {
            assert(t.data[i] == a.data[i]);
        }
    }
}

/// The number of rows from which on a run is transposed in parallel
pub const PARALLEL_ROWS: usize = 500;

/// The elements fall into runs of `chunk` elements, each a matrix of
/// `subs` rows of `stride` elements.
pub open spec fn runs_of<T>(data: Seq<T>, chunk: usize, subs: usize, stride: usize) -> bool {
    &&& subs > 0
    &&& stride > 0
    &&& chunk == subs * stride
    &&& (data.len() as int) % (chunk as int) == 0
}

/// `out` holds the elements of `data` with each run transposed.
pub open spec fn is_gathered<T: ArrayValue>(
    out: Seq<T>,
    data: Seq<T>,
    chunk: usize,
    subs: usize,
) -> bool {
    &&& out.len() == data.len()
    &&& forall|x: int|
        0 <= x < out.len() ==> (#[trigger] out[x])@ == data[source(x, chunk as int, subs as int)]@
}

/// Fills block `g` of a vector that is cut into blocks of as many elements
/// as a run has rows: the block is column `g % stride` of run `g / stride`
/// of `data`.
pub fn gather_block<T: ArrayValue>(
    data: &Vec<T>,
    chunk: usize,
    stride: usize,
    g: usize,
    block: &mut [T],
)
    requires
        stride > 0,
        chunk == old(block)@.len() * stride,
        (g / stride) * chunk + chunk <= data@.len(),
    ensures
        final(block)@.len() == old(block)@.len(),
        forall|c: int|
            0 <= c < old(block)@.len() ==> (#[trigger] final(block)@[c])@ == data@[(g / stride)
                * chunk + c * stride + g % stride]@,
{
    let subs = block.len();
    let run = g / stride;
    let column = g % stride;
    let mut c: usize = 0;
    proof {
        assert(0 <= run * chunk) by (nonlinear_arith)
            requires
                run >= 0,
                chunk >= 0,
        ;
        assert(data@.len() == data.len());
    }
    while c < subs
        invariant
            c <= subs,
            subs == block@.len(),
            stride > 0,
            column < stride,
            chunk == subs * stride,
            0 <= run * chunk,
            run * chunk + chunk <= data@.len(),
            data@.len() <= usize::MAX,
            forall|k: int|
                0 <= k < c ==> (#[trigger] block@[k])@ == data@[run * chunk + k * stride
                    + column]@,
        decreases subs - c,
    {
        proof {
            lemma_index_below(c as int, stride as int, column as int, subs as int);
        }
        let x = data[run * chunk + c * stride + column].duplicate();
        block[c] = x;
        c += 1;
    }
}

/// The elements of `data` with each run of `chunk` elements, taken as a
/// matrix with `subs` rows, transposed.
fn gather<T: ArrayValue>(data: &Vec<T>, runs: usize, chunk: usize, subs: usize, stride: usize) -> (out:
    Vec<T>)
    requires
        subs > 0,
        stride > 0,
        chunk == subs * stride,
        data@.len() == runs * chunk,
    ensures
        out@.len() == data@.len(),
        forall|x: int|
            0 <= x < out@.len() ==> (#[trigger] out@[x])@ == data@[source(
                x,
                chunk as int,
                subs as int,
            )]@,
{
    let n = data.len();
    let mut out: Vec<T> = Vec::with_capacity(n);
    let mut i: usize = 0;
    while i < n
        invariant
            i <= n,
            n == data@.len(),
            out@.len() == i,
            n == runs * chunk,
            chunk == subs * stride,
            subs > 0,
            stride > 0,
            forall|x: int|
                0 <= x < i ==> (#[trigger] out@[x])@ == data@[source(
                    x,
                    chunk as int,
                    subs as int,
                )]@,
        decreases n - i,
    {
        proof {
            lemma_source(i as int, chunk as int, subs as int, stride as int, runs as int);
            let w = (i % chunk) as int;
            assert(0 <= (w % (subs as int)) * stride) by (nonlinear_arith)
                requires
                    0 <= w % (subs as int),
                    stride > 0,
            ;
        }
        let within = i % chunk;
        let src = i - within + (within % subs) * stride + within / subs;
        out.push(data[src].duplicate());
        i += 1;
    }
    out
}

/// A copy of every element.
pub fn duplicate_all<T: ArrayValue>(data: &Vec<T>) -> (r: Vec<T>)
    ensures
        views(r@) == views(data@),
{
    let mut out: Vec<T> = Vec::with_capacity(data.len());
    let mut i: usize = 0;
    while i < data.len()
        invariant
            i <= data@.len(),
            out@.len() == i,
            forall|k: int| 0 <= k < i ==> (#[trigger] out@[k])@ == data@[k]@,
        decreases data@.len() - i,
    {
        out.push(data[i].duplicate());
        i += 1;
    }
    assert(views(out@) =~= views(data@));
    out
}

impl<T: ArrayValue> Array<T> {
    /// Transpose the array
    pub fn transpose(&mut self)
        requires
            old(self).wf(),
        ensures
            final(self).wf(),
            final(self)@ == transposed(old(self)@, 0, 1),
    {
        self.transpose_depth(0, 1);
    }

    /// Rotate the axes of the array from `depth` on by `amnt`, to the left
    /// for a positive amount, and move the elements with them
    pub fn transpose_depth(&mut self, depth: usize, amnt: i32)
        requires
            old(self).wf(),
        ensures
            final(self).wf(),
            final(self)@ == transposed(old(self)@, depth as nat, amnt as int),
    {
        let rank = self.shape.rank();
        let d = if depth < rank {
            depth
        } else {
            rank
        };
        let width = rank - d;
        if width < 2 {
            return ;
        }
        let size: usize = if amnt >= 0 {
            amnt as usize
        } else if amnt == i32::MIN {
            0x8000_0000
        } else {
            (-amnt) as usize
        };
        let c = size % width;
        if c == 0 {
            return ;
        }
        let forward = amnt > 0;
        self.turn(d, c, forward);
    }

    /// Move `c` of the axes from `d` on, and the elements with them: the
    /// first `c` of them to the end where `forward` holds, the last `c` of
    /// them to the front where it does not.
    fn turn(&mut self, d: usize, c: usize, forward: bool)
        requires
            old(self).wf(),
            0 < c < old(self)@.rank() - d,
        ensures
            final(self).wf(),
            final(self)@ == turned(old(self)@, d as int, c as int, forward),
    {
        let rank = self.shape.rank();
        let n = self.data.len();
        let ghost before = self@;
        let ghost sizes = self@.shape.sizes;
        let cut = if forward {
            d + c
        } else {
            rank - c
        };
        proof {
            assert(self@.data.len() == n);
            lemma_turn_parts(sizes, d as int, cut as int);
            lemma_turned_back(before, d as int, c as int, forward);
            assert(sizes.subrange(d as int, rank as int) =~= sizes.skip(d as int));
        }
        if n > 0 {
            let ghost runs = count(sizes.subrange(0, d as int));
            let ghost stride_n = count(sizes.subrange(cut as int, rank as int));
            let ghost whole = count(sizes.skip(d as int));
            let ghost x = count(sizes.subrange(d as int, cut as int));
            proof {
                assert(whole != 0 && whole <= n) by (nonlinear_arith)
                    requires
                        n == runs * whole,
                        n > 0,
                ;
                assert(x <= whole) by (nonlinear_arith)
                    requires
                        whole == x * stride_n,
                        stride_n > 0,
                ;
            }
            let chunk = checked_count(self.shape.sizes(), d, rank).unwrap();
            let subs = checked_count(self.shape.sizes(), d, cut).unwrap();
            proof {
                lemma_split(stride_n as int, subs as int, 0);
                assert(chunk == stride_n * subs) by (nonlinear_arith)
                    requires
                        chunk == subs * stride_n,
                ;
                lemma_split(runs as int, chunk as int, 0);
            }
            let stride = chunk / subs;
            let runs_n = n / chunk;
            let ghost old_items = self.data@;
            let out = if subs > PARALLEL_ROWS {
                let mut out = duplicate_all(&self.data);
                proof {
                    lemma_split(runs as int, chunk as int, 0);
                }
                crate::algorithm::parallel::par_gather(&mut out, &self.data, chunk, subs, stride);
                out
            } else {
                gather(&self.data, runs_n, chunk, subs, stride)
            };
            self.data = out;
            proof {
                let goal = turned(before, d as int, c as int, forward).data;
                assert forall|i: int| 0 <= i < n implies self@.data[i] == goal[i] by {
                    lemma_source(i, chunk as int, subs as int, stride as int, runs as int);
                    let j = source(i, chunk as int, subs as int);
                    assert(before.data[j] == old_items[j]@);
                }
                assert(self@.data =~= goal);
            }
        } else {
            assert(self@.data =~= turned(before, d as int, c as int, forward).data);
        }
        if forward {
            self.shape.rotate_left_at(d, rank, c);
        } else {
            self.shape.rotate_right_at(d, rank, c);
        }
    }
}

} // verus!
