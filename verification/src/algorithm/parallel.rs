//! Sorting and gathering in parallel.
//!
//! The sort and the division of the work are those of the `rayon` crate,
//! and what this file says of them is not proved.

use vstd::prelude::*;
use std::cmp::Ordering;
use rayon::iter::{IndexedParallelIterator, ParallelIterator};
use rayon::slice::ParallelSliceMut;
use crate::algorithm::sort::{ascending, compare_rows, in_order, rows_inside, sort_order};
use crate::algorithm::transpose::{gather_block, is_gathered, runs_of};
use crate::element::ArrayValue;
use crate::order::Order;

verus! {

/// The result of a comparison that the standard ordering stands for
pub open spec fn order_of(o: Ordering) -> Order {
    match o {
        Ordering::Less => Order::Less,
        Ordering::Equal => Order::Equal,
        Ordering::Greater => Order::Greater,
    }
}

/// Compares rows `a` and `b` of rows of `row_len` elements, for an
/// ascending sort, or `b` and `a`, for a descending one.
pub fn index_ordering<T: ArrayValue>(
    data: &Vec<T>,
    row_len: usize,
    a: usize,
    b: usize,
    descending: bool,
) -> (o: Ordering)
    requires
        a * row_len + row_len <= data@.len(),
        b * row_len + row_len <= data@.len(),
    ensures
        order_of(o) == sort_order::<T>(data@, row_len, a, b, descending),
{
    let o = if descending {
        compare_rows(data, row_len, b, a)
    } else {
        compare_rows(data, row_len, a, b)
    };
    match o {
        Order::Less => Ordering::Less,
        Order::Equal => Ordering::Equal,
        Order::Greater => Ordering::Greater,
    }
}

/// `par_sort_by` of `rayon`, on a list of rows, with the order of the rows
/// as the comparison: the list holds the same rows afterwards, each before
/// all that come later in the sorted order. The sort is stable, so of two
/// equal rows the one that came first in the list stays first; the list is
/// asked to go up, so that this is the row that is first in the array.
#[verifier::external_body]
pub(crate) fn par_sort_rows<T: ArrayValue>(
    indices: &mut Vec<usize>,
    data: &Vec<T>,
    row_len: usize,
    descending: bool,
)
    requires
        rows_inside(data@, row_len, old(indices)@),
        ascending(old(indices)@),
    ensures
        final(indices)@.to_multiset() == old(indices)@.to_multiset(),
        in_order(data@, row_len, final(indices)@, descending),
{
    indices.par_sort_by(|a, b| index_ordering(data, row_len, *a, *b, descending));
}

/// `par_chunks_mut` of `rayon`, with `enumerate` and `for_each`: the
/// vector is cut into blocks of `subs` elements, one after the other, and
/// each block is filled, once, with the number that it has among the
/// blocks. What fills a block is a verified function of this library, so
/// that afterwards the vector holds the transposed elements of `data`.
#[verifier::external_body]
pub(crate) fn par_gather<T: ArrayValue>(
    out: &mut Vec<T>,
    data: &Vec<T>,
    chunk: usize,
    subs: usize,
    stride: usize,
)
    requires
        old(out)@.len() == data@.len(),
        runs_of(data@, chunk, subs, stride),
    ensures
        is_gathered(final(out)@, data@, chunk, subs),
{
    out.par_chunks_mut(subs).enumerate().for_each(
        |(g, block)| gather_block(data, chunk, stride, g, block),
    );
}

} // verus!
