//! The storage of a shape's dimension sizes: an inline-first vector.
//!
//! Nothing in this file is proved. Each function states what the vector
//! type of the `tinyvec` crate does to its contents.

use vstd::prelude::*;
use tinyvec::TinyVec;

verus! {

/// The dimension sizes of a shape, kept inline while there are at most three.
#[verifier::external_body]
pub struct Sizes {
    inner: TinyVec<[usize; 3]>,
}

/// The sizes that the storage holds, first to last.
pub uninterp spec fn sizes_items(s: Sizes) -> Seq<usize>;

/// `TinyVec::new`: the new vector holds nothing.
#[verifier::external_body]
pub(crate) fn sizes_new() -> (s: Sizes)
    ensures
        sizes_items(s) == Seq::<usize>::empty(),
{
    Sizes { inner: TinyVec::new() }
}

/// `TinyVec::with_capacity`: the new vector holds nothing, whatever the
/// capacity asked for. It panics for a capacity of more bytes than the
/// largest signed machine word counts.
#[verifier::external_body]
pub(crate) fn sizes_with_capacity(capacity: usize) -> (s: Sizes)
    requires
        capacity <= isize::MAX / 8,
    ensures
        sizes_items(s) == Seq::<usize>::empty(),
{
    Sizes { inner: TinyVec::with_capacity(capacity) }
}

/// `TinyVec::clone`: the copy holds the same items.
#[verifier::external_body]
pub(crate) fn sizes_clone(s: &Sizes) -> (r: Sizes)
    ensures
        sizes_items(r) == sizes_items(*s),
{
    Sizes { inner: s.inner.clone() }
}

/// `TinyVec::len`: the number of items held.
#[verifier::external_body]
pub(crate) fn sizes_len(s: &Sizes) -> (n: usize)
    ensures
        n == sizes_items(*s).len(),
{
    s.inner.len()
}

/// `TinyVec::as_slice`: the items as a slice, in order.
#[verifier::external_body]
pub(crate) fn sizes_as_slice(s: &Sizes) -> (r: &[usize])
    ensures
        r@ == sizes_items(*s),
{
    s.inner.as_slice()
}

/// Indexing a `TinyVec` by a position inside it gives the item there.
#[verifier::external_body]
pub(crate) fn sizes_get(s: &Sizes, index: usize) -> (r: usize)
    requires
        index < sizes_items(*s).len(),
    ensures
        r == sizes_items(*s)[index as int],
{
    s.inner[index]
}

/// Mutable indexing of a `TinyVec` by a position inside it: the reference
/// starts at the item there, and what is written through it replaces that
/// item and no other.
#[verifier::external_body]
pub(crate) fn sizes_get_mut(s: &mut Sizes, index: usize) -> (r: &mut usize)
    requires
        index < sizes_items(*old(s)).len(),
    ensures
        *r == sizes_items(*old(s))[index as int],
        sizes_items(*final(s)) == sizes_items(*old(s)).update(index as int, *final(r)),
{
    &mut s.inner[index]
}

/// `TinyVec::push`: the item is added at the end.
#[verifier::external_body]
pub(crate) fn sizes_push(s: &mut Sizes, item: usize)
    ensures
        sizes_items(*final(s)) == sizes_items(*old(s)).push(item),
{
    s.inner.push(item)
}

/// `TinyVec::pop`: the last item leaves and is returned; nothing happens to
/// an empty vector.
#[verifier::external_body]
pub(crate) fn sizes_pop(s: &mut Sizes) -> (r: Option<usize>)
    ensures
        sizes_items(*old(s)).len() == 0 ==> r.is_none() && sizes_items(*final(s)) == sizes_items(
            *old(s),
        ),
        sizes_items(*old(s)).len() > 0 ==> r == Some(sizes_items(*old(s)).last())
            && sizes_items(*final(s)) == sizes_items(*old(s)).drop_last(),
{
    s.inner.pop()
}

/// `TinyVec::insert`: the item is placed at `index`, and what stood there or
/// later moves up by one. It panics for an index past the length.
#[verifier::external_body]
pub(crate) fn sizes_insert(s: &mut Sizes, index: usize, item: usize)
    requires
        index <= sizes_items(*old(s)).len(),
    ensures
        sizes_items(*final(s)) == sizes_items(*old(s)).insert(index as int, item),
{
    s.inner.insert(index, item)
}

/// `TinyVec::remove`: the item at `index` leaves and is returned, and what
/// stood later moves down by one. It panics for an index out of bounds.
#[verifier::external_body]
pub(crate) fn sizes_remove(s: &mut Sizes, index: usize) -> (r: usize)
    requires
        index < sizes_items(*old(s)).len(),
    ensures
        r == sizes_items(*old(s))[index as int],
        sizes_items(*final(s)) == sizes_items(*old(s)).remove(index as int),
{
    s.inner.remove(index)
}

/// `TinyVec::drain` over `start..end`, the iterator dropped at once: the
/// items of the range leave. It panics unless `start <= end <= len`.
#[verifier::external_body]
pub(crate) fn sizes_drain(s: &mut Sizes, start: usize, end: usize)
    requires
        start <= end <= sizes_items(*old(s)).len(),
    ensures
        sizes_items(*final(s)) == sizes_items(*old(s)).subrange(0, start as int) + sizes_items(
            *old(s),
        ).subrange(end as int, sizes_items(*old(s)).len() as int),
{
    s.inner.drain(start..end);
}

/// `TinyVec::extend_from_slice`: the items of the slice are added at the
/// end, in order.
#[verifier::external_body]
pub(crate) fn sizes_extend_from_slice(s: &mut Sizes, items: &[usize])
    ensures
        sizes_items(*final(s)) == sizes_items(*old(s)) + items@,
{
    s.inner.extend_from_slice(items)
}

/// `TinyVec::split_off`: the items before `at` stay, the others are
/// returned in a new vector. It panics for `at` past the length.
#[verifier::external_body]
pub(crate) fn sizes_split_off(s: &mut Sizes, at: usize) -> (r: Sizes)
    requires
        at <= sizes_items(*old(s)).len(),
    ensures
        sizes_items(*final(s)) == sizes_items(*old(s)).subrange(0, at as int),
        sizes_items(r) == sizes_items(*old(s)).subrange(
            at as int,
            sizes_items(*old(s)).len() as int,
        ),
{
    Sizes { inner: s.inner.split_off(at) }
}

} // verus!
