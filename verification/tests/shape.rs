use uiua::order::Order;
use uiua::shape::{
    distinct_markers, first_place, DepthRotation, Dimension, Shape, ShapeRep, EMPTY_MARKER,
};

fn marked(size: usize, marker: char) -> Dimension {
    Dimension { size, marker }
}

#[test]
fn scalar_shape_has_no_dimensions() {
    let s = Shape::scalar();
    assert_eq!(s.rank(), 0);
    assert_eq!(s.sizes(), &[] as &[usize]);
    assert!(s.markers().is_none());
    assert_eq!(s.length(), 1);
    let t = Shape::with_capacity(8);
    assert_eq!(t.rank(), 0);
}

#[test]
fn from_sizes_and_from_length() {
    let s = Shape::from_sizes(&[2, 3, 4]);
    assert_eq!(s.sizes(), &[2, 3, 4]);
    assert_eq!(s.rank(), 3);
    assert_eq!(s.length(), 2);
    assert_eq!(s.size(1), 3);
    let t = Shape::from_length(7);
    assert_eq!(t.sizes(), &[7]);
}

#[test]
fn push_more_sizes_than_stay_inline() {
    let mut s = Shape::scalar();
    for i in 0..6 {
        s.push(Dimension::from(i + 1));
    }
    assert_eq!(s.sizes(), &[1, 2, 3, 4, 5, 6]);
    assert_eq!(s.rank(), 6);
}

#[test]
fn push_and_pop_keep_markers_in_step() {
    let mut s = Shape::from_sizes(&[2, 3]);
    s.push(marked(5, 'a'));
    assert_eq!(s.sizes(), &[2, 3, 5]);
    assert_eq!(s.markers(), Some(&[EMPTY_MARKER, EMPTY_MARKER, 'a'][..]));
    s.push(Dimension::unmarked(7));
    assert_eq!(s.markers(), Some(&[EMPTY_MARKER, EMPTY_MARKER, 'a', EMPTY_MARKER][..]));
    assert_eq!(s.pop(), Some(marked(7, EMPTY_MARKER)));
    assert_eq!(s.pop(), Some(marked(5, 'a')));
    assert_eq!(s.sizes(), &[2, 3]);
    assert_eq!(s.pop(), Some(marked(3, EMPTY_MARKER)));
    assert_eq!(s.pop(), Some(marked(2, EMPTY_MARKER)));
    assert_eq!(s.pop(), None);
}

#[test]
fn pop_of_unmarked_shape_gives_empty_marker() {
    let mut s = Shape::from_sizes(&[4]);
    assert_eq!(s.pop(), Some(marked(4, EMPTY_MARKER)));
    assert!(s.markers().is_none());
}

#[test]
fn insert_and_remove_dimensions() {
    let mut s = Shape::from_sizes(&[2, 4]);
    s.insert(1, Dimension::from(3));
    assert_eq!(s.sizes(), &[2, 3, 4]);
    assert!(s.markers().is_none());
    s.insert(0, marked(9, 'x'));
    assert_eq!(s.sizes(), &[9, 2, 3, 4]);
    assert_eq!(s.markers(), Some(&['x', EMPTY_MARKER, EMPTY_MARKER, EMPTY_MARKER][..]));
    assert_eq!(s.remove(2), marked(3, EMPTY_MARKER));
    assert_eq!(s.remove(0), marked(9, 'x'));
    assert_eq!(s.sizes(), &[2, 4]);
    assert_eq!(s.markers(), Some(&[EMPTY_MARKER, EMPTY_MARKER][..]));
}

#[test]
fn drain_removes_range_of_sizes_and_markers() {
    let mut s = Shape::from_sizes(&[1, 2, 3, 4, 5]);
    s.set_markers(vec!['a', 'b', 'c', 'd', 'e']);
    s.drain(1, 3);
    assert_eq!(s.sizes(), &[1, 4, 5]);
    assert_eq!(s.markers(), Some(&['a', 'd', 'e'][..]));
    s.drain(0, 0);
    assert_eq!(s.sizes(), &[1, 4, 5]);
    s.drain(0, 3);
    assert_eq!(s.rank(), 0);
}

#[test]
fn extend_from_shape_copies_range() {
    let mut s = Shape::from_sizes(&[1]);
    let other = Shape::from_sizes(&[7, 8, 9]);
    s.extend_from_shape(&other, 1, 3);
    assert_eq!(s.sizes(), &[1, 8, 9]);
    assert!(s.markers().is_none());
    let mut with = Shape::from_sizes(&[7, 8]);
    with.set_markers(vec!['p', 'q']);
    s.extend_from_shape(&with, 0, 1);
    assert_eq!(s.sizes(), &[1, 8, 9, 7]);
    assert_eq!(s.markers(), Some(&[EMPTY_MARKER, EMPTY_MARKER, EMPTY_MARKER, 'p'][..]));
}

#[test]
fn split_off_divides_shape() {
    let mut s = Shape::from_sizes(&[2, 3, 4, 5]);
    s.set_markers(vec!['a', 'b', 'c', 'd']);
    let tail = s.split_off(1);
    assert_eq!(s.sizes(), &[2]);
    assert_eq!(s.markers(), Some(&['a'][..]));
    assert_eq!(tail.sizes(), &[3, 4, 5]);
    assert_eq!(tail.markers(), Some(&['b', 'c', 'd'][..]));
    let mut t = Shape::from_sizes(&[6, 7]);
    let rest = t.split_off(2);
    assert_eq!(t.sizes(), &[6, 7]);
    assert_eq!(rest.rank(), 0);
}

#[test]
fn rotate_left_and_right() {
    let mut s = Shape::from_sizes(&[1, 2, 3, 4]);
    s.rotate_left(1);
    assert_eq!(s.sizes(), &[2, 3, 4, 1]);
    s.rotate_right(1);
    assert_eq!(s.sizes(), &[1, 2, 3, 4]);
    s.rotate_right(3);
    assert_eq!(s.sizes(), &[2, 3, 4, 1]);
    s.rotate_left(4);
    assert_eq!(s.sizes(), &[2, 3, 4, 1]);
}

#[test]
fn rotate_at_range_moves_markers_too() {
    let mut s = Shape::from_sizes(&[1, 2, 3, 4, 5]);
    s.set_markers(vec!['a', 'b', 'c', 'd', 'e']);
    s.rotate_left_at(1, 4, 2);
    assert_eq!(s.sizes(), &[1, 4, 2, 3, 5]);
    assert_eq!(s.markers(), Some(&['a', 'd', 'b', 'c', 'e'][..]));
    s.rotate_right_at(1, 4, 2);
    assert_eq!(s.sizes(), &[1, 2, 3, 4, 5]);
    assert_eq!(s.markers(), Some(&['a', 'b', 'c', 'd', 'e'][..]));
}

#[test]
fn set_size_and_size_mut() {
    let mut s = Shape::from_sizes(&[2, 3]);
    s.set_size(1, 9);
    assert_eq!(s.sizes(), &[2, 9]);
    *s.size_mut(0) = 5;
    assert_eq!(s.sizes(), &[5, 9]);
    assert_eq!(s.size(0), 5);
}

#[test]
fn set_length_on_scalar_and_list() {
    let mut s = Shape::scalar();
    s.set_length(4);
    assert_eq!(s.sizes(), &[4]);
    s.set_length(6);
    assert_eq!(s.sizes(), &[6]);
    assert_eq!(s.length(), 6);
}

#[test]
fn shapes_are_equal_by_their_sizes_alone() {
    let a = Shape::from_sizes(&[2, 3]);
    let mut b = Shape::from_sizes(&[2, 3]);
    b.set_markers(vec!['x', 'y']);
    assert!(a == b);
    let c = Shape::from_sizes(&[2, 4]);
    assert!(a != c);
    let d = Shape::from_sizes(&[2, 3, 1]);
    assert!(a != d);
}

#[test]
fn clone_keeps_sizes_and_markers() {
    let mut a = Shape::from_sizes(&[2, 3, 4, 5]);
    a.set_markers(vec!['a', 'b', 'c', 'd']);
    let b = a.clone();
    a.push(Dimension::from(1));
    assert_eq!(b.sizes(), &[2, 3, 4, 5]);
    assert_eq!(b.markers(), Some(&['a', 'b', 'c', 'd'][..]));
}

#[test]
fn from_dims_keeps_markers_only_where_one_is_set() {
    let plain = Shape::from_dims(&[Dimension::from(2), Dimension::from(3)]);
    assert_eq!(plain.sizes(), &[2, 3]);
    assert!(plain.markers().is_none());
    let some = Shape::from_dims(&[Dimension::from(2), marked(3, 'k'), Dimension::from(4)]);
    assert_eq!(some.sizes(), &[2, 3, 4]);
    assert_eq!(some.markers(), Some(&[EMPTY_MARKER, 'k', EMPTY_MARKER][..]));
    assert_eq!(
        some.dims(),
        vec![marked(2, EMPTY_MARKER), marked(3, 'k'), marked(4, EMPTY_MARKER)]
    );
}

#[test]
fn dimension_from_size_is_unmarked() {
    assert_eq!(Dimension::from(3), marked(3, EMPTY_MARKER));
    assert_eq!(Dimension::unmarked(3), marked(3, '\0'));
}

#[test]
fn first_place_and_distinct_markers() {
    let m = vec!['a', 'b', 'a', 'c'];
    assert_eq!(first_place(&m, 'a'), Some(0));
    assert_eq!(first_place(&m, 'c'), Some(3));
    assert_eq!(first_place(&m, 'z'), None);
    assert_eq!(distinct_markers(&['b', 'a', 'b', 'c', 'a']), vec!['b', 'a', 'c']);
    assert_eq!(distinct_markers(&[]), Vec::<char>::new());
}

#[test]
fn alignment_rotation_needs_two_markers_and_some_other() {
    let mut s = Shape::from_sizes(&[2]);
    s.set_markers(vec!['a']);
    assert_eq!(s.alignment_rotation(&['a', 'b']), None);
    let mut t = Shape::from_sizes(&[2, 3]);
    t.set_markers(vec!['a', 'b']);
    assert_eq!(t.alignment_rotation(&[]), None);
    let plain = Shape::from_sizes(&[2, 3]);
    assert_eq!(plain.alignment_rotation(&['a', 'b']), None);
}

#[test]
fn alignment_rotation_finds_first_misplaced_marker() {
    let mut s = Shape::from_sizes(&[2, 3, 4]);
    s.set_markers(vec!['a', 'b', 'c']);
    // 'b' is wanted at 0 and stands at 1
    assert_eq!(
        s.alignment_rotation(&['b', 'a']),
        Some(DepthRotation { depth: 0, amount: 1 })
    );
    // 'a' is in place, 'c' is wanted at 1 and stands at 2
    assert_eq!(
        s.alignment_rotation(&['a', 'c']),
        Some(DepthRotation { depth: 1, amount: 1 })
    );
    // wanted further out than it stands
    assert_eq!(
        s.alignment_rotation(&['x', 'y', 'a']),
        Some(DepthRotation { depth: 2, amount: -2 })
    );
}

#[test]
fn alignment_rotation_skips_markers_in_place_and_absent() {
    let mut s = Shape::from_sizes(&[2, 3, 4]);
    s.set_markers(vec!['a', 'b', 'c']);
    assert_eq!(s.alignment_rotation(&['a', 'b', 'c']), None);
    assert_eq!(s.alignment_rotation(&['x', 'y']), None);
    assert_eq!(s.alignment_rotation(&['a', 'z', 'c']), None);
}

#[test]
fn alignment_rotation_counts_repeated_markers_once() {
    let mut s = Shape::from_sizes(&[2, 3, 4]);
    s.set_markers(vec!['a', 'b', 'c']);
    // the distinct markers are a, b: both in place
    assert_eq!(s.alignment_rotation(&['a', 'a', 'b', 'a']), None);
    // the distinct markers are a, c: 'c' is wanted at 1
    assert_eq!(
        s.alignment_rotation(&['a', 'a', 'c']),
        Some(DepthRotation { depth: 1, amount: 1 })
    );
}

#[test]
fn shapes_are_written_out_bare_without_markers() {
    let s = Shape::from_sizes(&[2, 3]);
    match s.to_rep() {
        ShapeRep::Unmarked(sizes) => assert_eq!(sizes, vec![2, 3]),
        ShapeRep::Marked { .. } => panic!("bare sizes expected"),
    }
    let mut m = Shape::from_sizes(&[2, 3]);
    m.set_markers(vec!['a', 'b']);
    match m.to_rep() {
        ShapeRep::Marked { sizes, markers } => {
            assert_eq!(sizes, vec![2, 3]);
            assert_eq!(markers, vec!['a', 'b']);
        }
        ShapeRep::Unmarked(_) => panic!("markers expected"),
    }
    let back = Shape::from_rep(m.to_rep());
    assert_eq!(back.sizes(), &[2, 3]);
    assert_eq!(back.markers(), Some(&['a', 'b'][..]));
    let odd = Shape::from_rep(ShapeRep::Marked { sizes: vec![1, 2], markers: vec!['x'] });
    assert_eq!(odd.sizes(), &[1, 2]);
    assert!(odd.markers().is_none());
    assert!(odd.is_valid());
}

#[test]
fn extend_adds_unmarked_dimensions() {
    let mut s = Shape::from_sizes(&[2]);
    s.extend(&[3, 4]);
    assert_eq!(s.sizes(), &[2, 3, 4]);
    assert!(s.markers().is_none());
    let mut m = Shape::from_sizes(&[2]);
    m.set_markers(vec!['a']);
    m.extend(&[5]);
    assert_eq!(m.sizes(), &[2, 5]);
    assert_eq!(m.markers(), Some(&['a', EMPTY_MARKER][..]));
}

#[test]
fn length_mut_reaches_the_first_size() {
    let mut s = Shape::from_sizes(&[2, 3]);
    if let Some(len) = s.length_mut() {
        *len = 9;
    }
    assert_eq!(s.sizes(), &[9, 3]);
    let mut e = Shape::scalar();
    assert!(e.length_mut().is_none());
}

#[test]
fn shapes_are_compared_by_their_sizes() {
    let a = Shape::from_sizes(&[2, 3]);
    assert_eq!(a.compare(&Shape::from_sizes(&[2, 4])), Order::Less);
    assert_eq!(a.compare(&Shape::from_sizes(&[2, 3])), Order::Equal);
    assert_eq!(a.compare(&Shape::from_sizes(&[2])), Order::Greater);
    assert_eq!(a.compare(&Shape::from_sizes(&[1, 9, 9])), Order::Greater);
    assert_eq!(Shape::scalar().compare(&a), Order::Less);
}
