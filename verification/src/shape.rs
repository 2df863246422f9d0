//! Array shapes: a list of dimension sizes with optional per-dimension markers.

use vstd::prelude::*;
use crate::storage::{
    sizes_as_slice, sizes_clone, sizes_drain, sizes_extend_from_slice, sizes_get, sizes_get_mut,
    sizes_insert, sizes_items, sizes_len, sizes_new, sizes_pop, sizes_push, sizes_remove,
    sizes_split_off, sizes_with_capacity, Sizes,
};

verus! {

/// A marker for a dimension
pub type Marker = char;

/// The empty marker
pub const EMPTY_MARKER: Marker = '\0';

/// A dimension in an array shape
#[derive(Clone, Copy, PartialEq, Eq, Structural, PartialOrd, Ord, Hash, Default, Debug)]
pub struct Dimension {
    /// The size of the dimension
    pub size: usize,
    /// The marker of the dimension
    pub marker: Marker,
}

impl Dimension {
    /// An unmarked dimension of the given size
    pub fn unmarked(size: usize) -> (d: Dimension)
        ensures
            d == (Dimension { size, marker: EMPTY_MARKER }),
    {
        Dimension { size, marker: EMPTY_MARKER }
    }
}

impl From<usize> for Dimension {
    fn from(size: usize) -> (d: Dimension) {
        Dimension { size, marker: EMPTY_MARKER }
    }
}

impl vstd::std_specs::convert::FromSpecImpl<usize> for Dimension {
    open spec fn obeys_from_spec() -> bool {
        true
    }

    open spec fn from_spec(size: usize) -> Dimension {
        Dimension { size, marker: EMPTY_MARKER }
    }
}

/// How far the dimensions from `depth` on must be rotated to bring a marker
/// into place
#[derive(Clone, Copy, PartialEq, Eq, Structural, Debug)]
pub struct DepthRotation {
    /// The first dimension that takes part in the rotation
    pub depth: usize,
    /// The signed number of places, positive to the left
    pub amount: i32,
}

/// What a shape is: its sizes and, where it has any, one marker for each size.
pub struct ShapeView {
    pub sizes: Seq<usize>,
    pub markers: Seq<Marker>,
}

impl ShapeView {
    /// The marker list is absent or has one entry for each dimension.
    pub open spec fn wf(self) -> bool {
        self.markers.len() == 0 || self.markers.len() == self.sizes.len()
    }

    /// The marker of every dimension, the empty marker where none is kept.
    pub open spec fn all_markers(self) -> Seq<Marker> {
        if self.markers.len() == 0 {
            Seq::new(self.sizes.len(), |i: int| EMPTY_MARKER)
        } else {
            self.markers
        }
    }

    /// The marker of dimension `i`, the empty marker where none is kept.
    pub open spec fn marker_at(self, i: int) -> Marker {
        if self.markers.len() == 0 {
            EMPTY_MARKER
        } else {
            self.markers[i]
        }
    }

    /// The dimensions, each size with its marker.
    pub open spec fn dims(self) -> Seq<Dimension> {
        Seq::new(
            self.sizes.len(),
            |i: int| Dimension { size: self.sizes[i], marker: self.marker_at(i) },
        )
    }

    /// The markers after a dimension with `marker` has been put at `index`.
    pub open spec fn markers_with(self, index: int, marker: Marker) -> Seq<Marker> {
        if marker != EMPTY_MARKER {
            self.all_markers().insert(index, marker)
        } else if self.markers.len() > 0 {
            self.markers.insert(index, EMPTY_MARKER)
        } else {
            self.markers
        }
    }
}

/// The items of `s` with those of `start..end` moved `n` places to the left,
/// the first `n` of them going to the end of the range.
pub open spec fn rotated_left<T>(s: Seq<T>, start: int, end: int, n: int) -> Seq<T> {
    s.subrange(0, start) + s.subrange(start + n, end) + s.subrange(start, start + n) + s.subrange(
        end,
        s.len() as int,
    )
}

/// The items of `s` with those of `start..end` moved `n` places to the
/// right, the last `n` of them going to the start of the range.
pub open spec fn rotated_right<T>(s: Seq<T>, start: int, end: int, n: int) -> Seq<T> {
    s.subrange(0, start) + s.subrange(end - n, end) + s.subrange(start, end - n) + s.subrange(
        end,
        s.len() as int,
    )
}

/// The items of `s` without those of `start..end`.
pub open spec fn without_range<T>(s: Seq<T>, start: int, end: int) -> Seq<T> {
    s.subrange(0, start) + s.subrange(end, s.len() as int)
}

/// The distinct items of `s`, each at the place of its first occurrence.
pub open spec fn first_occurrences(s: Seq<Marker>) -> Seq<Marker>
    decreases s.len(),
{
    if s.len() == 0 {
        s
    } else {
        let rest = first_occurrences(s.drop_last());
        if rest.contains(s.last()) {
            rest
        } else {
            rest.push(s.last())
        }
    }
}

/// `p` is the first place of `s` that holds `x`.
pub open spec fn is_first_place(s: Seq<Marker>, x: Marker, p: int) -> bool {
    &&& 0 <= p < s.len()
    &&& s[p] == x
    &&& forall|k: int| 0 <= k < p ==> s[k] != x
}

/// The marker `wanted[j]` asks for no rotation: the shape lacks it, or has
/// it first at place `j` already.
pub open spec fn in_place(markers: Seq<Marker>, wanted: Seq<Marker>, j: int) -> bool {
    !markers.contains(wanted[j]) || is_first_place(markers, wanted[j], j)
}

/// Whether `rotation` is what aligning `markers` to `other` asks for: the
/// first of the distinct markers of `other` that the shape has at another
/// place than its own, with the distance between the two places.
pub open spec fn is_alignment(
    markers: Seq<Marker>,
    other: Seq<Marker>,
    rotation: Option<DepthRotation>,
) -> bool {
    let wanted = first_occurrences(other);
    match rotation {
        Some(r) => {
            &&& markers.len() > 1
            &&& r.depth < wanted.len()
            &&& r.amount != 0
            &&& is_first_place(markers, wanted[r.depth as int], r.depth + r.amount)
            &&& forall|j: int| 0 <= j < r.depth ==> in_place(markers, wanted, j)
        },
        None => {
            ||| markers.len() <= 1
            ||| other.len() == 0
            ||| forall|j: int| 0 <= j < wanted.len() ==> in_place(markers, wanted, j)
        },
    }
}

/// An array shape
pub struct Shape {
    sizes: Sizes,
    markers: Vec<Marker>,
}

impl View for Shape {
    type V = ShapeView;

    closed spec fn view(&self) -> ShapeView {
        ShapeView { sizes: sizes_items(self.sizes), markers: self.markers@ }
    }
}

impl Clone for Shape {
    fn clone(&self) -> (r: Self)
        ensures
            r@ == self@,
    {
        let markers = self.markers.clone();
        assert(markers@ =~= self.markers@);
        Shape { sizes: sizes_clone(&self.sizes), markers }
    }
}

impl PartialEq for Shape {
    /// Two shapes are equal when their sizes are: markers do not count.
    fn eq(&self, other: &Self) -> (r: bool) {
        let a = sizes_as_slice(&self.sizes);
        let b = sizes_as_slice(&other.sizes);
        if a.len() != b.len() {
            return false;
        }
        let mut i: usize = 0;
        while i < a.len()
            invariant
                a@ == self@.sizes,
                b@ == other@.sizes,
                a@.len() == b@.len(),
                i <= a@.len(),
                forall|k: int| 0 <= k < i ==> a@[k] == b@[k],
            decreases a@.len() - i,
        {
            if a[i] != b[i] {
                return false;
            }
            i += 1;
        }
        assert(a@ =~= b@);
        true
    }
}

impl vstd::std_specs::cmp::PartialEqSpecImpl for Shape {
    open spec fn obeys_eq_spec() -> bool {
        true
    }

    open spec fn eq_spec(&self, other: &Self) -> bool {
        self@.sizes == other@.sizes
    }
}

impl Eq for Shape {

}

/// Rotates the items of `start..end` of `v` by `n` places to the left.
fn rotate_markers_left(v: &mut Vec<Marker>, start: usize, end: usize, n: usize)
    requires
        start <= end <= old(v)@.len(),
        n <= end - start,
    ensures
        final(v)@ == rotated_left(old(v)@, start as int, end as int, n as int),
{
    let mut tail = v.split_off(end);
    let mut back = v.split_off(start + n);
    let mut front = v.split_off(start);
    v.append(&mut back);
    v.append(&mut front);
    v.append(&mut tail);
    assert(v@ =~= rotated_left(old(v)@, start as int, end as int, n as int));
}

/// Rotates the items of `start..end` of `s` by `n` places to the left.
fn rotate_sizes_left(s: &mut Sizes, start: usize, end: usize, n: usize)
    requires
        start <= end <= sizes_items(*old(s)).len(),
        n <= end - start,
    ensures
        sizes_items(*final(s)) == rotated_left(
            sizes_items(*old(s)),
            start as int,
            end as int,
            n as int,
        ),
{
    let tail = sizes_split_off(s, end);
    let back = sizes_split_off(s, start + n);
    let front = sizes_split_off(s, start);
    sizes_extend_from_slice(s, sizes_as_slice(&back));
    sizes_extend_from_slice(s, sizes_as_slice(&front));
    sizes_extend_from_slice(s, sizes_as_slice(&tail));
    assert(sizes_items(*s) =~= rotated_left(
        sizes_items(*old(s)),
        start as int,
        end as int,
        n as int,
    ));
}

/// Turning a range right by `n` is turning it left by what is left of its
/// width.
pub proof fn lemma_rotated_right_is_left<T>(s: Seq<T>, start: int, end: int, n: int)
    requires
        0 <= start <= end <= s.len(),
        0 <= n <= end - start,
    ensures
        rotated_right(s, start, end, n) == rotated_left(s, start, end, end - start - n),
{
}

/// Turning a range left and then right by the same amount restores it, and
/// so does turning it right and then left.
pub proof fn lemma_rotation_round_trip<T>(s: Seq<T>, start: int, end: int, n: int)
    requires
        0 <= start <= end <= s.len(),
        0 <= n <= end - start,
    ensures
        rotated_right(rotated_left(s, start, end, n), start, end, n) == s,
        rotated_left(rotated_right(s, start, end, n), start, end, n) == s,
{
    assert(rotated_right(rotated_left(s, start, end, n), start, end, n) =~= s);
    assert(rotated_left(rotated_right(s, start, end, n), start, end, n) =~= s);
}

impl Shape {
    /// The marker list is absent or has one entry for each dimension.
    pub open spec fn wf(&self) -> bool {
        self@.wf()
    }

    /// Create a new shape with no dimensions
    pub fn scalar() -> (s: Self)
        ensures
            s@.sizes.len() == 0,
            s@.markers.len() == 0,
            s.wf(),
    {
        Shape { sizes: sizes_new(), markers: Vec::new() }
    }

    /// Create a new scalar shape with the given capacity
    pub fn with_capacity(capacity: usize) -> (s: Self)
        requires
            capacity <= isize::MAX / 8,
        ensures
            s@.sizes.len() == 0,
            s@.markers.len() == 0,
            s.wf(),
    {
        Shape { sizes: sizes_with_capacity(capacity), markers: Vec::new() }
    }

    /// Create an unmarked shape with the given sizes
    pub fn from_sizes(dims: &[usize]) -> (s: Self)
        ensures
            s@.sizes == dims@,
            s@.markers.len() == 0,
            s.wf(),
    {
        let mut sizes = sizes_new();
        sizes_extend_from_slice(&mut sizes, dims);
        assert(sizes_items(sizes) =~= dims@);
        Shape { sizes, markers: Vec::new() }
    }

    /// Create the unmarked shape of a list of the given length
    pub fn from_length(len: usize) -> (s: Self)
        ensures
            s@.sizes == seq![len],
            s@.markers.len() == 0,
            s.wf(),
    {
        let mut sizes = sizes_new();
        sizes_push(&mut sizes, len);
        assert(sizes_items(sizes) =~= seq![len]);
        Shape { sizes, markers: Vec::new() }
    }

    /// Create a shape from dimensions. Markers are kept only if one of them
    /// is not empty.
    pub fn from_dims(dims: &[Dimension]) -> (s: Self)
        ensures
            s.wf(),
            s@.dims() == dims@,
            s@.markers.len() == 0 <==> forall|i: int|
                0 <= i < dims@.len() ==> (#[trigger] dims@[i]).marker == EMPTY_MARKER,
    {
        let mut shape = Shape::scalar();
        let mut i: usize = 0;
        while i < dims.len()
            invariant
                i <= dims@.len(),
                shape.wf(),
                shape@.dims() == dims@.subrange(0, i as int),
                shape@.markers.len() == 0 <==> forall|k: int|
                    0 <= k < i ==> (#[trigger] dims@[k]).marker == EMPTY_MARKER,
            decreases dims@.len() - i,
        {
            let ghost before = shape@;
            shape.push(dims[i]);
            proof {
                assert(shape@.dims() =~= before.dims().push(dims@[i as int]));
                assert(dims@.subrange(0, i + 1) =~= dims@.subrange(0, i as int).push(
                    dims@[i as int],
                ));
                if dims@[i as int].marker == EMPTY_MARKER {
                    assert(shape@.markers.len() == 0 <==> before.markers.len() == 0);
                }
            }
            i += 1;
        }
        assert(dims@.subrange(0, dims@.len() as int) =~= dims@);
        shape
    }

    /// Gives every dimension a marker entry, the empty marker where none
    /// was kept.
    fn spell_out_markers(&mut self)
        requires
            old(self).wf(),
        ensures
            final(self)@.sizes == old(self)@.sizes,
            final(self)@.markers == old(self)@.all_markers(),
    {
        if self.markers.len() == 0 {
            let n = sizes_len(&self.sizes);
            let mut i: usize = 0;
            while i < n
                invariant
                    i <= n,
                    n == self@.sizes.len(),
                    self@.sizes == old(self)@.sizes,
                    self@.markers == Seq::new(i as nat, |k: int| EMPTY_MARKER),
                decreases n - i,
            {
                self.markers.push(EMPTY_MARKER);
                assert(self@.markers =~= Seq::new((i + 1) as nat, |k: int| EMPTY_MARKER));
                i += 1;
            }
        }
    }

    /// Remove dimensions in the given range
    pub fn drain(&mut self, start: usize, end: usize)
        requires
            old(self).wf(),
            start <= end <= old(self)@.sizes.len(),
        ensures
            final(self).wf(),
            final(self)@.sizes == without_range(old(self)@.sizes, start as int, end as int),
            final(self)@.markers == if old(self)@.markers.len() == 0 {
                old(self)@.markers
            } else {
                without_range(old(self)@.markers, start as int, end as int)
            },
    {
        sizes_drain(&mut self.sizes, start, end);
        if self.markers.len() > 0 {
            let mut tail = self.markers.split_off(end);
            self.markers.truncate(start);
            self.markers.append(&mut tail);
        }
    }

    /// Add a trailing dimension
    pub fn push(&mut self, dim: Dimension)
        requires
            old(self).wf(),
        ensures
            final(self).wf(),
            final(self)@.sizes == old(self)@.sizes.push(dim.size),
            final(self)@.markers == old(self)@.markers_with(
                old(self)@.sizes.len() as int,
                dim.marker,
            ),
    {
        let rank = sizes_len(&self.sizes);
        self.insert(rank, dim);
        assert(self@.sizes =~= old(self)@.sizes.push(dim.size));
    }

    /// Remove the last dimension
    pub fn pop(&mut self) -> (r: Option<Dimension>)
        requires
            old(self).wf(),
        ensures
            final(self).wf(),
            old(self)@.sizes.len() == 0 ==> r.is_none() && final(self)@ == old(self)@,
            old(self)@.sizes.len() > 0 ==> r == Some(old(self)@.dims().last())
                && final(self)@.sizes == old(self)@.sizes.drop_last() && final(self)@.markers
                == if old(self)@.markers.len() == 0 {
                old(self)@.markers
            } else {
                old(self)@.markers.drop_last()
            },
    {
        match sizes_pop(&mut self.sizes) {
            None => None,
            Some(size) => {
                let marker = match self.markers.pop() {
                    None => EMPTY_MARKER,
                    Some(m) => m,
                };
                Some(Dimension { size, marker })
            },
        }
    }

    /// Insert a dimension at the given index
    pub fn insert(&mut self, index: usize, dim: Dimension)
        requires
            old(self).wf(),
            index <= old(self)@.sizes.len(),
        ensures
            final(self).wf(),
            final(self)@.sizes == old(self)@.sizes.insert(index as int, dim.size),
            final(self)@.markers == old(self)@.markers_with(index as int, dim.marker),
    {
        if dim.marker != EMPTY_MARKER {
            self.spell_out_markers();
            self.markers.insert(index, dim.marker);
        } else if self.markers.len() > 0 {
            self.markers.insert(index, EMPTY_MARKER);
        }
        sizes_insert(&mut self.sizes, index, dim.size);
    }

    /// Remove the dimension at the given index
    pub fn remove(&mut self, index: usize) -> (r: Dimension)
        requires
            old(self).wf(),
            index < old(self)@.sizes.len(),
        ensures
            final(self).wf(),
            r == old(self)@.dims()[index as int],
            final(self)@.sizes == old(self)@.sizes.remove(index as int),
            final(self)@.markers == if old(self)@.markers.len() == 0 {
                old(self)@.markers
            } else {
                old(self)@.markers.remove(index as int)
            },
    {
        let size = sizes_remove(&mut self.sizes, index);
        let marker = if self.markers.len() == 0 {
            EMPTY_MARKER
        } else {
            self.markers.remove(index)
        };
        Dimension { size, marker }
    }

    /// Extend the shape with the dimensions of `start..end` of another, and
    /// with their markers where either of the two shapes keeps markers
    pub fn extend_from_shape(&mut self, shape: &Shape, start: usize, end: usize)
        requires
            old(self).wf(),
            shape.wf(),
            start <= end <= shape@.sizes.len(),
        ensures
            final(self).wf(),
            final(self)@.sizes == old(self)@.sizes + shape@.sizes.subrange(
                start as int,
                end as int,
            ),
            final(self)@.markers == if old(self)@.markers.len() == 0 && shape@.markers.len()
                == 0 {
                old(self)@.markers
            } else {
                old(self)@.all_markers() + shape@.all_markers().subrange(start as int, end as int)
            },
    {
        if self.markers.len() > 0 || shape.markers.len() > 0 {
            self.spell_out_markers();
            let mut i: usize = start;
            while i < end
                invariant
                    start <= i <= end <= shape@.sizes.len(),
                    shape.wf(),
                    self@.sizes == old(self)@.sizes,
                    self@.markers == old(self)@.all_markers() + shape@.all_markers().subrange(
                        start as int,
                        i as int,
                    ),
                decreases end - i,
            {
                let m = if shape.markers.len() == 0 {
                    EMPTY_MARKER
                } else {
                    shape.markers[i]
                };
                self.markers.push(m);
                assert(self@.markers =~= old(self)@.all_markers()
                    + shape@.all_markers().subrange(start as int, i + 1));
                i += 1;
            }
        }
        let from = sizes_as_slice(&shape.sizes);
        let part = vstd::slice::slice_subrange(from, start, end);
        sizes_extend_from_slice(&mut self.sizes, part);
    }

    /// Split the shape at the given index
    pub fn split_off(&mut self, at: usize) -> (r: Self)
        requires
            old(self).wf(),
            at <= old(self)@.sizes.len(),
        ensures
            final(self).wf(),
            r.wf(),
            final(self)@.sizes == old(self)@.sizes.subrange(0, at as int),
            r@.sizes == old(self)@.sizes.subrange(at as int, old(self)@.sizes.len() as int),
            final(self)@.markers == if old(self)@.markers.len() == 0 {
                old(self)@.markers
            } else {
                old(self)@.markers.subrange(0, at as int)
            },
            r@.markers == if old(self)@.markers.len() == 0 {
                old(self)@.markers
            } else {
                old(self)@.markers.subrange(at as int, old(self)@.sizes.len() as int)
            },
    {
        let sizes = sizes_split_off(&mut self.sizes, at);
        let markers = if self.markers.len() == 0 {
            Vec::new()
        } else {
            self.markers.split_off(at)
        };
        Shape { sizes, markers }
    }

    /// Get a reference to the dimension sizes
    pub fn sizes(&self) -> (r: &[usize])
        ensures
            r@ == self@.sizes,
    {
        sizes_as_slice(&self.sizes)
    }

    /// Get a reference to the dimension markers
    pub fn markers(&self) -> (r: Option<&[Marker]>)
        ensures
            self@.markers.len() == 0 ==> r.is_none(),
            self@.markers.len() > 0 ==> r.is_some() && r.unwrap()@ == self@.markers,
    {
        if self.markers.len() == 0 {
            None
        } else {
            Some(self.markers.as_slice())
        }
    }

    /// Get the dimensions, each size with its marker
    pub fn dims(&self) -> (r: Vec<Dimension>)
        requires
            self.wf(),
        ensures
            r@ == self@.dims(),
    {
        let n = sizes_len(&self.sizes);
        let mut out: Vec<Dimension> = Vec::with_capacity(n);
        let mut i: usize = 0;
        while i < n
            invariant
                i <= n,
                n == self@.sizes.len(),
                self.wf(),
                out@ == self@.dims().subrange(0, i as int),
            decreases n - i,
        {
            let marker = if self.markers.len() == 0 {
                EMPTY_MARKER
            } else {
                self.markers[i]
            };
            out.push(Dimension { size: sizes_get(&self.sizes, i), marker });
            assert(out@[i as int] == self@.dims()[i as int]);
            assert(out@ =~= self@.dims().subrange(0, i + 1));
            i += 1;
        }
        assert(out@ =~= self@.dims());
        out
    }

    /// Get the size of the dimension at the given index
    pub fn size(&self, index: usize) -> (r: usize)
        requires
            index < self@.sizes.len(),
        ensures
            r == self@.sizes[index as int],
    {
        sizes_get(&self.sizes, index)
    }

    /// Set the size of the dimension at the given index
    pub fn set_size(&mut self, index: usize, size: usize)
        requires
            index < old(self)@.sizes.len(),
        ensures
            final(self)@.sizes == old(self)@.sizes.update(index as int, size),
            final(self)@.markers == old(self)@.markers,
    {
        let place = sizes_get_mut(&mut self.sizes, index);
        *place = size;
    }

    /// Get a mutable reference to the size of the dimension at the given index
    pub fn size_mut(&mut self, index: usize) -> (r: &mut usize)
        requires
            index < old(self)@.sizes.len(),
        ensures
            *r == old(self)@.sizes[index as int],
            final(self)@.sizes == old(self)@.sizes.update(index as int, *final(r)),
            final(self)@.markers == old(self)@.markers,
    {
        sizes_get_mut(&mut self.sizes, index)
    }

    /// Get the rank of the shape
    pub fn rank(&self) -> (r: usize)
        ensures
            r == self@.sizes.len(),
    {
        sizes_len(&self.sizes)
    }

    /// Set the length of the shape
    pub fn set_length(&mut self, len: usize)
        requires
            old(self).wf(),
        ensures
            final(self).wf(),
            final(self)@.markers == old(self)@.markers,
            final(self)@.sizes == if old(self)@.sizes.len() == 0 {
                seq![len]
            } else {
                old(self)@.sizes.update(0, len)
            },
    {
        if sizes_len(&self.sizes) == 0 {
            self.push(Dimension { size: len, marker: EMPTY_MARKER });
            assert(self@.sizes =~= seq![len]);
        } else {
            self.set_size(0, len);
        }
    }

    /// Get the length of the array with this shape
    pub fn length(&self) -> (r: usize)
        ensures
            r == if self@.sizes.len() == 0 {
                1
            } else {
                self@.sizes[0]
            },
    {
        if sizes_len(&self.sizes) == 0 {
            1
        } else {
            sizes_get(&self.sizes, 0)
        }
    }

    /// Rotate the shape to the left
    pub fn rotate_left(&mut self, n: usize)
        requires
            old(self).wf(),
            n <= old(self)@.sizes.len(),
        ensures
            final(self).wf(),
            final(self)@.sizes == rotated_left(
                old(self)@.sizes,
                0,
                old(self)@.sizes.len() as int,
                n as int,
            ),
            final(self)@.markers == if old(self)@.markers.len() == 0 {
                old(self)@.markers
            } else {
                rotated_left(old(self)@.markers, 0, old(self)@.sizes.len() as int, n as int)
            },
    {
        let rank = sizes_len(&self.sizes);
        self.rotate_left_at(0, rank, n);
    }

    /// Rotate the shape to the right
    pub fn rotate_right(&mut self, n: usize)
        requires
            old(self).wf(),
            n <= old(self)@.sizes.len(),
        ensures
            final(self).wf(),
            final(self)@.sizes == rotated_right(
                old(self)@.sizes,
                0,
                old(self)@.sizes.len() as int,
                n as int,
            ),
            final(self)@.markers == if old(self)@.markers.len() == 0 {
                old(self)@.markers
            } else {
                rotated_right(old(self)@.markers, 0, old(self)@.sizes.len() as int, n as int)
            },
    {
        let rank = sizes_len(&self.sizes);
        self.rotate_right_at(0, rank, n);
    }

    /// Rotate the shape to the left at the given range
    pub fn rotate_left_at(&mut self, start: usize, end: usize, n: usize)
        requires
            old(self).wf(),
            start <= end <= old(self)@.sizes.len(),
            n <= end - start,
        ensures
            final(self).wf(),
            final(self)@.sizes == rotated_left(
                old(self)@.sizes,
                start as int,
                end as int,
                n as int,
            ),
            final(self)@.markers == if old(self)@.markers.len() == 0 {
                old(self)@.markers
            } else {
                rotated_left(old(self)@.markers, start as int, end as int, n as int)
            },
    {
        rotate_sizes_left(&mut self.sizes, start, end, n);
        if self.markers.len() > 0 {
            rotate_markers_left(&mut self.markers, start, end, n);
        }
    }

    /// Rotate the shape to the right at the given range
    pub fn rotate_right_at(&mut self, start: usize, end: usize, n: usize)
        requires
            old(self).wf(),
            start <= end <= old(self)@.sizes.len(),
            n <= end - start,
        ensures
            final(self).wf(),
            final(self)@.sizes == rotated_right(
                old(self)@.sizes,
                start as int,
                end as int,
                n as int,
            ),
            final(self)@.markers == if old(self)@.markers.len() == 0 {
                old(self)@.markers
            } else {
                rotated_right(old(self)@.markers, start as int, end as int, n as int)
            },
    {
        proof {
            lemma_rotated_right_is_left(old(self)@.sizes, start as int, end as int, n as int);
            if old(self)@.markers.len() > 0 {
                lemma_rotated_right_is_left(
                    old(self)@.markers,
                    start as int,
                    end as int,
                    n as int,
                );
            }
        }
        self.rotate_left_at(start, end, end - start - n);
    }

    /// Set the markers of the shape
    pub fn set_markers(&mut self, markers: Vec<Marker>)
        requires
            markers@.len() == old(self)@.sizes.len(),
        ensures
            final(self).wf(),
            final(self)@.sizes == old(self)@.sizes,
            final(self)@.markers == markers@,
    {
        self.markers = markers;
    }

    /// The rotation that brings the first misplaced marker of `other_markers`
    /// into place: its depth is the place the marker has among the distinct
    /// markers of `other_markers`, its amount the distance from there to the
    /// marker's first place in this shape. There is none where the shape has
    /// fewer than two markers, or `other_markers` is empty, or every marker
    /// that the shape has is in place already.
    pub fn alignment_rotation(&self, other_markers: &[Marker]) -> (r: Option<DepthRotation>)
        requires
            self@.markers.len() <= i32::MAX,
            other_markers@.len() <= i32::MAX,
        ensures
            is_alignment(self@.markers, other_markers@, r),
    {
        if self.markers.len() <= 1 || other_markers.len() == 0 {
            return None;
        }
        let wanted = distinct_markers(other_markers);
        proof {
            lemma_first_occurrences_len(other_markers@);
        }
        let mut j: usize = 0;
        while j < wanted.len()
            invariant
                j <= wanted@.len(),
                wanted@ == first_occurrences(other_markers@),
                1 < self@.markers.len() <= i32::MAX,
                wanted@.len() <= i32::MAX,
                self@.markers == self.markers@,
                forall|k: int| 0 <= k < j ==> in_place(self@.markers, wanted@, k),
            decreases wanted@.len() - j,
        {
            match first_place(&self.markers, wanted[j]) {
                Some(i) => {
                    if i != j {
                        let amount: i32 = i as i32 - j as i32;
                        return Some(DepthRotation { depth: j, amount });
                    }
                },
                None => {},
            }
            j += 1;
        }
        None
    }
}

/// There are no more distinct markers than markers.
pub proof fn lemma_first_occurrences_len(s: Seq<Marker>)
    ensures
        first_occurrences(s).len() <= s.len(),
    decreases s.len(),
{
    if s.len() > 0 {
        lemma_first_occurrences_len(s.drop_last());
    }
}

/// The first place of `markers` that holds `x`, if any does.
pub fn first_place(markers: &Vec<Marker>, x: Marker) -> (r: Option<usize>)
    ensures
        match r {
            Some(p) => is_first_place(markers@, x, p as int),
            None => !markers@.contains(x),
        },
{
    let mut i: usize = 0;
    while i < markers.len()
        invariant
            i <= markers@.len(),
            forall|k: int| 0 <= k < i ==> markers@[k] != x,
        decreases markers@.len() - i,
    {
        if markers[i] == x {
            return Some(i);
        }
        i += 1;
    }
    None
}

/// The distinct markers of `markers`, each at the place of its first
/// occurrence.
pub fn distinct_markers(markers: &[Marker]) -> (r: Vec<Marker>)
    ensures
        r@ == first_occurrences(markers@),
{
    let mut out: Vec<Marker> = Vec::new();
    let mut i: usize = 0;
    assert(markers@.subrange(0, 0) =~= Seq::<Marker>::empty());
    while i < markers.len()
        invariant
            i <= markers@.len(),
            out@ == first_occurrences(markers@.subrange(0, i as int)),
        decreases markers@.len() - i,
    {
        let m = markers[i];
        proof {
            let next = markers@.subrange(0, i + 1);
            assert(next.drop_last() =~= markers@.subrange(0, i as int));
            assert(next.last() == m);
        }
        if first_place(&out, m).is_none() {
            out.push(m);
        }
        i += 1;
    }
    assert(markers@.subrange(0, markers@.len() as int) =~= markers@);
    out
}


impl ShapeView {
    /// The shape with the dimensions of `start..end` moved `n` places to
    /// the left, and their markers with them
    pub open spec fn turned_left(self, start: int, end: int, n: int) -> ShapeView {
        ShapeView {
            sizes: rotated_left(self.sizes, start, end, n),
            markers: if self.markers.len() == 0 {
                self.markers
            } else {
                rotated_left(self.markers, start, end, n)
            },
        }
    }

    /// The shape with the dimensions of `start..end` moved `n` places to
    /// the right, and their markers with them
    pub open spec fn turned_right(self, start: int, end: int, n: int) -> ShapeView {
        ShapeView {
            sizes: rotated_right(self.sizes, start, end, n),
            markers: if self.markers.len() == 0 {
                self.markers
            } else {
                rotated_right(self.markers, start, end, n)
            },
        }
    }
}

/// Turning the dimensions of a range left and then right by the same
/// amount restores a valid shape, and so does turning them right and then
/// left.
pub proof fn lemma_turn_round_trip(s: ShapeView, start: int, end: int, n: int)
    requires
        s.wf(),
        0 <= start <= end <= s.sizes.len(),
        0 <= n <= end - start,
    ensures
        s.turned_left(start, end, n).turned_right(start, end, n) == s,
        s.turned_right(start, end, n).turned_left(start, end, n) == s,
        s.turned_left(start, end, n).wf(),
        s.turned_right(start, end, n).wf(),
{
    lemma_rotation_round_trip(s.sizes, start, end, n);
    if s.markers.len() > 0 {
        lemma_rotation_round_trip(s.markers, start, end, n);
    }
}


/// A shape as it is written out: the bare sizes where no dimension is
/// marked, and the sizes with the markers where one is
pub enum ShapeRep {
    Unmarked(Vec<usize>),
    Marked { sizes: Vec<usize>, markers: Vec<Marker> },
}

impl ShapeRep {
    /// The sizes that are written out
    pub open spec fn sizes(self) -> Seq<usize> {
        match self {
            ShapeRep::Unmarked(sizes) => sizes@,
            ShapeRep::Marked { sizes, markers } => sizes@,
        }
    }

    /// The markers that are written out
    pub open spec fn markers(self) -> Seq<Marker> {
        match self {
            ShapeRep::Unmarked(sizes) => Seq::empty(),
            ShapeRep::Marked { sizes, markers } => markers@,
        }
    }
}

/// The order of two lists of sizes, place by place: the first place where
/// the two differ decides, and a list that ends first is the lesser.
pub open spec fn sizes_order(a: Seq<usize>, b: Seq<usize>, k: int) -> crate::order::Order
    decreases a.len() - k,
{
    if k < 0 || k >= a.len() {
        if k < 0 || k >= b.len() {
            crate::order::Order::Equal
        } else {
            crate::order::Order::Less
        }
    } else if k >= b.len() {
        crate::order::Order::Greater
    } else if a[k] < b[k] {
        crate::order::Order::Less
    } else if a[k] > b[k] {
        crate::order::Order::Greater
    } else {
        sizes_order(a, b, k + 1)
    }
}

impl Shape {
    /// The shape as it is written out: only the sizes where it keeps no
    /// markers
    pub fn to_rep(&self) -> (r: ShapeRep)
        ensures
            r.sizes() == self@.sizes,
            r.markers() == self@.markers,
            r is Unmarked <==> self@.markers.len() == 0,
    {
        let sizes = vstd::slice::slice_to_vec(sizes_as_slice(&self.sizes));
        if self.markers.len() == 0 {
            assert(self@.markers =~= Seq::<Marker>::empty());
            ShapeRep::Unmarked(sizes)
        } else {
            let markers = self.markers.clone();
            assert(markers@ =~= self.markers@);
            ShapeRep::Marked { sizes, markers }
        }
    }

    /// The shape that was written out. Markers that are not as many as the
    /// sizes are left out.
    pub fn from_rep(rep: ShapeRep) -> (s: Shape)
        ensures
            s.wf(),
            s@.sizes == rep.sizes(),
            s@.markers == if rep.markers().len() == rep.sizes().len() {
                rep.markers()
            } else {
                Seq::empty()
            },
    {
        match rep {
            ShapeRep::Unmarked(sizes) => Shape::from_sizes(sizes.as_slice()),
            ShapeRep::Marked { sizes, markers } => {
                let mut s = Shape::from_sizes(sizes.as_slice());
                if markers.len() == sizes.len() {
                    s.set_markers(markers);
                } else {
                    assert(s@.markers =~= Seq::<Marker>::empty());
                }
                s
            },
        }
    }

    /// Add unmarked dimensions of the given sizes at the end
    pub fn extend(&mut self, sizes: &[usize])
        requires
            old(self).wf(),
        ensures
            final(self).wf(),
            final(self)@.sizes == old(self)@.sizes + sizes@,
            final(self)@.markers == if old(self)@.markers.len() == 0 {
                old(self)@.markers
            } else {
                old(self)@.markers + Seq::new(sizes@.len(), |i: int| EMPTY_MARKER)
            },
    {
        sizes_extend_from_slice(&mut self.sizes, sizes);
        if self.markers.len() > 0 {
            let mut i: usize = 0;
            while i < sizes.len()
                invariant
                    i <= sizes@.len(),
                    self@.sizes == old(self)@.sizes + sizes@,
                    self@.markers == old(self)@.markers + Seq::new(i as nat, |k: int| EMPTY_MARKER),
                decreases sizes@.len() - i,
            {
                self.markers.push(EMPTY_MARKER);
                assert(self@.markers =~= old(self)@.markers + Seq::new(
                    (i + 1) as nat,
                    |k: int| EMPTY_MARKER,
                ));
                i += 1;
            }
        } else {
            assert(self@.markers =~= old(self)@.markers);
        }
    }

    /// Get a mutable reference to the length of the array with this shape
    pub fn length_mut(&mut self) -> (r: Option<&mut usize>)
        ensures
            old(self)@.sizes.len() == 0 ==> r.is_none() && final(self)@ == old(self)@,
            old(self)@.sizes.len() > 0 ==> r.is_some() && *r.unwrap() == old(self)@.sizes[0]
                && final(self)@.sizes == old(self)@.sizes.update(0, *final(r.unwrap()))
                && final(self)@.markers == old(self)@.markers,
    {
        if sizes_len(&self.sizes) == 0 {
            None
        } else {
            Some(sizes_get_mut(&mut self.sizes, 0))
        }
    }

    /// Whether the marker list is absent or has one entry for each
    /// dimension
    pub fn is_valid(&self) -> (r: bool)
        ensures
            r == self.wf(),
    {
        self.markers.len() == 0 || self.markers.len() == sizes_len(&self.sizes)
    }

    /// Compares the sizes of two shapes, place by place. Markers do not
    /// count.
    pub fn compare(&self, other: &Shape) -> (o: crate::order::Order)
        ensures
            o == sizes_order(self@.sizes, other@.sizes, 0),
    {
        let a = sizes_as_slice(&self.sizes);
        let b = sizes_as_slice(&other.sizes);
        let mut k: usize = 0;
        while k < a.len() && k < b.len()
            invariant
                k <= a@.len(),
                k <= b@.len(),
                a@ == self@.sizes,
                b@ == other@.sizes,
                sizes_order(a@, b@, 0) == sizes_order(a@, b@, k as int),
            decreases a@.len() - k,
        {
            if a[k] < b[k] {
                return crate::order::Order::Less;
            }
            if a[k] > b[k] {
                return crate::order::Order::Greater;
            }
            k += 1;
        }
        if k < b.len() {
            crate::order::Order::Less
        } else if k < a.len() {
            crate::order::Order::Greater
        } else {
            crate::order::Order::Equal
        }
    }
}

} // verus!
