use uiua::array::{checked_count, Array};
use uiua::error::{ErrorKind, Op, UiuaError};
use uiua::num::Num;
use uiua::shape::Shape;
use uiua::value::{FillContext, Value};

fn n(x: f64) -> Num {
    Num::from_bits(x.to_bits())
}

fn nums(sizes: &[usize], xs: &[f64]) -> Array<Num> {
    Array::from_parts(sizes, xs.iter().map(|x| n(*x)).collect())
}

fn floats(a: &Array<Num>) -> Vec<f64> {
    a.data.iter().map(|x| f64::from_bits(x.to_bits())).collect()
}

fn bytes(sizes: &[usize], xs: &[u8]) -> Array<u8> {
    Array::from_parts(sizes, xs.to_vec())
}

fn zero_fill() -> FillContext {
    FillContext::with_fill(Value::Num(Array::scalar(n(0.0))))
}

#[test]
fn counts_of_sizes() {
    assert_eq!(checked_count(&[2, 3, 4], 0, 3), Some(24));
    assert_eq!(checked_count(&[2, 3, 4], 1, 3), Some(12));
    assert_eq!(checked_count(&[2, 3, 4], 3, 3), Some(1));
    assert_eq!(checked_count(&[usize::MAX, 2], 0, 2), None);
    assert_eq!(checked_count(&[usize::MAX, 2, 0], 0, 3), Some(0));
}

#[test]
fn new_arrays_are_valid() {
    let a = nums(&[2, 3], &[1., 2., 3., 4., 5., 6.]);
    assert!(a.validate_shape());
    assert_eq!(a.rank(), 2);
    assert_eq!(a.row_count(), 2);
    assert_eq!(a.row_len(), Some(3));
    assert_eq!(a.element_count(), 6);
    let s = Array::scalar(7u8);
    assert_eq!(s.rank(), 0);
    assert_eq!(s.row_count(), 1);
    assert_eq!(s.row_len(), Some(1));
    let l = Array::from_vec(vec!['a', 'b']);
    assert_eq!(l.shape.sizes(), &[2]);
    let made = Array::new(Shape::from_sizes(&[1, 2]), vec![3u8, 4]);
    assert_eq!(made.shape.sizes(), &[1, 2]);
    let bad = Array { shape: Shape::from_sizes(&[2, 2]), data: vec![1u8], flags: made.flags };
    assert!(!bad.validate_shape());
}

#[test]
fn deshape_makes_a_list() {
    let mut a = nums(&[2, 3], &[1., 2., 3., 4., 5., 6.]);
    a.deshape();
    assert_eq!(a.shape.sizes(), &[6]);
    assert_eq!(floats(&a), vec![1., 2., 3., 4., 5., 6.]);
    let mut s = Array::scalar(9u8);
    s.deshape();
    assert_eq!(s.shape.sizes(), &[1]);
}

#[test]
fn deshape_at_depth_keeps_leading_dimensions() {
    let mut a = bytes(&[2, 3, 4], &[0; 24]);
    a.deshape_depth(1);
    assert_eq!(a.shape.sizes(), &[2, 12]);
    let mut b = bytes(&[2, 3, 4], &[0; 24]);
    b.deshape_depth(0);
    assert_eq!(b.shape.sizes(), &[24]);
    let mut c = bytes(&[2, 3, 4], &[0; 24]);
    c.deshape_depth(3);
    assert_eq!(c.shape.sizes(), &[2, 3, 4, 1]);
    let mut d = bytes(&[2, 3, 4], &[0; 24]);
    d.deshape_depth(9);
    assert_eq!(d.shape.sizes(), &[2, 3, 4, 1]);
    assert!(d.validate_shape());
}

#[test]
fn deshape_keeps_the_product_of_the_sizes() {
    for depth in 0..5 {
        let mut a = bytes(&[2, 3, 4], &[7; 24]);
        a.deshape_depth(depth);
        assert_eq!(a.shape.sizes().iter().product::<usize>(), 24);
        assert!(a.validate_shape());
        let keep = depth.min(3);
        assert_eq!(&a.shape.sizes()[..keep], &[2, 3, 4][..keep]);
    }
}

#[test]
fn fix_and_inv_fix() {
    let mut a = bytes(&[2, 3], &[1, 2, 3, 4, 5, 6]);
    a.fix();
    assert_eq!(a.shape.sizes(), &[1, 2, 3]);
    a.inv_fix();
    assert_eq!(a.shape.sizes(), &[2, 3]);
    a.inv_fix();
    assert_eq!(a.shape.sizes(), &[6]);
    a.inv_fix();
    assert_eq!(a.shape.sizes(), &[6]);
    let mut v = Value::Byte(bytes(&[2], &[1, 2]));
    v.fix();
    assert_eq!(v.shape().sizes(), &[1, 2]);
    v.inv_fix();
    assert_eq!(v.shape().sizes(), &[2]);
}

#[test]
fn reverse_turns_rows_round() {
    let mut a = nums(&[3, 2], &[1., 2., 3., 4., 5., 6.]);
    a.reverse();
    assert_eq!(floats(&a), vec![5., 6., 3., 4., 1., 2.]);
    assert_eq!(a.shape.sizes(), &[3, 2]);
    let mut l = bytes(&[4], &[1, 2, 3, 4]);
    l.reverse();
    assert_eq!(l.data, vec![4, 3, 2, 1]);
    let mut s = Array::scalar(5u8);
    s.reverse();
    assert_eq!(s.data, vec![5]);
}

#[test]
fn reverse_at_depth_turns_inner_rows_round() {
    let mut a = bytes(&[2, 3], &[1, 2, 3, 4, 5, 6]);
    a.reverse_depth(1);
    assert_eq!(a.data, vec![3, 2, 1, 6, 5, 4]);
    let mut b = bytes(&[2, 2, 2], &[1, 2, 3, 4, 5, 6, 7, 8]);
    b.reverse_depth(1);
    assert_eq!(b.data, vec![3, 4, 1, 2, 7, 8, 5, 6]);
    let mut c = bytes(&[2, 2, 2], &[1, 2, 3, 4, 5, 6, 7, 8]);
    c.reverse_depth(2);
    assert_eq!(c.data, vec![2, 1, 4, 3, 6, 5, 8, 7]);
    let mut d = bytes(&[2, 2, 2], &[1, 2, 3, 4, 5, 6, 7, 8]);
    d.reverse_depth(3);
    assert_eq!(d.data, vec![1, 2, 3, 4, 5, 6, 7, 8]);
}

#[test]
fn reverse_twice_restores_the_array() {
    for depth in 0..4 {
        let data: Vec<u8> = (0..30).collect();
        let mut a = bytes(&[2, 5, 3], &data);
        a.reverse_depth(depth);
        a.reverse_depth(depth);
        assert_eq!(a.data, data);
    }
}

#[test]
fn reverse_of_array_without_elements() {
    let mut a = bytes(&[3, 0], &[]);
    a.reverse();
    assert_eq!(a.shape.sizes(), &[3, 0]);
    let mut b = bytes(&[0, 3], &[]);
    b.reverse_depth(1);
    assert_eq!(b.shape.sizes(), &[0, 3]);
}

#[test]
fn transpose_moves_the_first_axis_to_the_end() {
    let mut a = bytes(&[2, 3], &[1, 2, 3, 4, 5, 6]);
    a.transpose();
    assert_eq!(a.shape.sizes(), &[3, 2]);
    assert_eq!(a.data, vec![1, 4, 2, 5, 3, 6]);
    let data: Vec<u8> = (0..24).collect();
    let mut b = bytes(&[2, 3, 4], &data);
    b.transpose();
    assert_eq!(b.shape.sizes(), &[3, 4, 2]);
    // element (i, j, k) of the result is element (k, i, j) of the array
    for i in 0..3 {
        for j in 0..4 {
            for k in 0..2 {
                assert_eq!(b.data[(i * 4 + j) * 2 + k], data[(k * 3 + i) * 4 + j]);
            }
        }
    }
}

#[test]
fn transpose_backwards_moves_the_last_axis_to_the_front() {
    let data: Vec<u8> = (0..24).collect();
    let mut b = bytes(&[2, 3, 4], &data);
    b.transpose_depth(0, -1);
    assert_eq!(b.shape.sizes(), &[4, 2, 3]);
    for i in 0..4 {
        for j in 0..2 {
            for k in 0..3 {
                assert_eq!(b.data[(i * 2 + j) * 3 + k], data[(j * 3 + k) * 4 + i]);
            }
        }
    }
}

#[test]
fn transpose_at_depth_leaves_leading_axes() {
    let data: Vec<u8> = (0..24).collect();
    let mut b = bytes(&[2, 3, 4], &data);
    b.transpose_depth(1, 1);
    assert_eq!(b.shape.sizes(), &[2, 4, 3]);
    for i in 0..2 {
        for j in 0..4 {
            for k in 0..3 {
                assert_eq!(b.data[(i * 4 + j) * 3 + k], data[(i * 3 + k) * 4 + j]);
            }
        }
    }
}

#[test]
fn transpose_does_nothing_for_few_axes_or_full_turns() {
    let mut l = bytes(&[4], &[1, 2, 3, 4]);
    l.transpose();
    assert_eq!(l.data, vec![1, 2, 3, 4]);
    let mut a = bytes(&[2, 3], &[1, 2, 3, 4, 5, 6]);
    a.transpose_depth(0, 0);
    assert_eq!(a.shape.sizes(), &[2, 3]);
    a.transpose_depth(0, 2);
    assert_eq!(a.shape.sizes(), &[2, 3]);
    assert_eq!(a.data, vec![1, 2, 3, 4, 5, 6]);
    a.transpose_depth(1, 1);
    assert_eq!(a.shape.sizes(), &[2, 3]);
    a.transpose_depth(0, 3);
    assert_eq!(a.shape.sizes(), &[3, 2]);
    assert_eq!(a.data, vec![1, 4, 2, 5, 3, 6]);
}

#[test]
fn transpose_of_array_with_zero_size_turns_the_shape_only() {
    let mut a = bytes(&[2, 0, 3], &[]);
    a.transpose();
    assert_eq!(a.shape.sizes(), &[0, 3, 2]);
    assert!(a.validate_shape());
}

#[test]
fn transpose_there_and_back_restores_the_array() {
    let data: Vec<u8> = (0..120).collect();
    for depth in 0..3 {
        for k in [-7, -3, -2, -1, 1, 2, 3, 5, 9] {
            let mut a = bytes(&[2, 3, 4, 5], &data);
            a.transpose_depth(depth, k);
            assert!(a.validate_shape());
            a.transpose_depth(depth, -k);
            assert_eq!(a.shape.sizes(), &[2, 3, 4, 5]);
            assert_eq!(a.data, data);
        }
    }
}

#[test]
fn transpose_of_many_rows_is_done_in_parallel() {
    let rows = 600;
    let cols = 3;
    let data: Vec<Num> = (0..rows * cols).map(|i| Num::from_usize(i)).collect();
    let mut a = Array::from_parts(&[rows, cols], data.clone());
    a.transpose();
    assert_eq!(a.shape.sizes(), &[cols, rows]);
    for i in 0..cols {
        for j in 0..rows {
            assert_eq!(a.data[i * rows + j], data[j * cols + i]);
        }
    }
    a.transpose_depth(0, -1);
    assert_eq!(a.data, data);
}

#[test]
fn transpose_moves_markers_with_the_axes() {
    let mut a = bytes(&[2, 3, 4], &[0; 24]);
    a.shape.set_markers(vec!['a', 'b', 'c']);
    a.transpose();
    assert_eq!(a.shape.markers(), Some(&['b', 'c', 'a'][..]));
}

#[test]
fn first_and_last_rows() {
    let env = FillContext::none();
    let a = nums(&[3, 2], &[1., 2., 3., 4., 5., 6.]);
    let first = a.first(&env).unwrap();
    assert_eq!(first.shape.sizes(), &[2]);
    assert_eq!(floats(&first), vec![1., 2.]);
    let b = nums(&[3, 2], &[1., 2., 3., 4., 5., 6.]);
    let last = b.last(&env).unwrap();
    assert_eq!(last.shape.sizes(), &[2]);
    assert_eq!(floats(&last), vec![5., 6.]);
    let l = bytes(&[3], &[7, 8, 9]);
    assert_eq!(l.first(&env).unwrap().data, vec![7]);
    let l = bytes(&[3], &[7, 8, 9]);
    let x = l.last(&env).unwrap();
    assert_eq!(x.data, vec![9]);
    assert_eq!(x.rank(), 0);
}

#[test]
fn first_of_scalar_is_an_error() {
    let env = zero_fill();
    let e = Array::scalar(n(1.0)).first(&env).err().unwrap();
    assert_eq!(e, UiuaError::new(Op::First, ErrorKind::Scalar));
    let e = Array::scalar(n(1.0)).last(&env).err().unwrap();
    assert_eq!(e, UiuaError::new(Op::Last, ErrorKind::Scalar));
}

#[test]
fn first_of_empty_array_is_a_row_of_the_fill_value() {
    let env = zero_fill();
    let a = nums(&[0, 2, 3], &[]);
    let r = a.first(&env).unwrap();
    assert_eq!(r.shape.sizes(), &[2, 3]);
    assert_eq!(floats(&r), vec![0.0; 6]);
    let b = nums(&[0], &[]);
    let r = b.last(&env).unwrap();
    assert_eq!(r.rank(), 0);
    assert_eq!(floats(&r), vec![0.0]);
}

#[test]
fn first_of_empty_array_without_fill_is_a_fill_error() {
    let env = FillContext::none();
    let e = nums(&[0, 2], &[]).first(&env).err().unwrap();
    assert_eq!(e, UiuaError::new(Op::First, ErrorKind::NoFill).fill());
    assert!(e.is_fill());
    let e = nums(&[0, 2], &[]).last(&env).err().unwrap();
    assert_eq!(e, UiuaError::new(Op::Last, ErrorKind::NoFill).fill());
    // a fill of another kind does not help
    let chars = FillContext::with_fill(Value::Char(Array::scalar('x')));
    let e = nums(&[0, 2], &[]).first(&chars).err().unwrap();
    assert_eq!(e.kind, ErrorKind::NoFill);
}

#[test]
fn first_of_empty_bytes_falls_back_to_numbers() {
    let env = zero_fill();
    let v = Value::Byte(bytes(&[0, 2], &[]));
    match v.first(&env).unwrap() {
        Value::Num(r) => {
            assert_eq!(r.shape.sizes(), &[2]);
            assert_eq!(floats(&r), vec![0.0, 0.0]);
        }
        _ => panic!("numbers expected"),
    }
    let byte_fill = FillContext::with_fill(Value::Byte(Array::scalar(3u8)));
    let v = Value::Byte(bytes(&[0, 2], &[]));
    match v.last(&byte_fill).unwrap() {
        Value::Byte(r) => assert_eq!(r.data, vec![3, 3]),
        _ => panic!("bytes expected"),
    }
    let v = Value::Byte(bytes(&[0, 2], &[]));
    let e = v.first(&FillContext::none()).err().unwrap();
    assert_eq!(e, UiuaError::new(Op::First, ErrorKind::NoFill).fill());
}

#[test]
fn unfirst_and_unlast_put_a_row_back() {
    let row = bytes(&[2], &[9, 9]);
    let into = bytes(&[3, 2], &[1, 2, 3, 4, 5, 6]);
    let r = row.unfirst(into).unwrap();
    assert_eq!(r.shape.sizes(), &[3, 2]);
    assert_eq!(r.data, vec![9, 9, 3, 4, 5, 6]);
    let row = bytes(&[2], &[9, 9]);
    let into = bytes(&[3, 2], &[1, 2, 3, 4, 5, 6]);
    let r = row.unlast(into).unwrap();
    assert_eq!(r.data, vec![1, 2, 3, 4, 9, 9]);
    let row = bytes(&[2], &[9, 9]);
    let none = bytes(&[0, 2], &[]);
    let r = row.unfirst(none).unwrap();
    assert_eq!(r.shape.sizes(), &[1, 2]);
    assert_eq!(r.data, vec![9, 9]);
}

#[test]
fn unfirst_refuses_scalars_and_other_shapes() {
    let e = bytes(&[], &[1]).unfirst(bytes(&[], &[2])).err().unwrap();
    assert_eq!(e, UiuaError::new(Op::Unfirst, ErrorKind::Scalar));
    let e = bytes(&[3], &[1, 2, 3]).unlast(bytes(&[2, 2], &[1, 2, 3, 4])).err().unwrap();
    assert_eq!(e, UiuaError::new(Op::Unlast, ErrorKind::ShapeMismatch));
}

#[test]
fn unfirst_of_values_mixes_numbers_and_bytes_only() {
    let row = Value::Byte(bytes(&[], &[7]));
    let into = Value::Num(nums(&[2], &[1., 2.]));
    match row.unfirst(into).unwrap() {
        Value::Num(r) => assert_eq!(floats(&r), vec![7., 2.]),
        _ => panic!("numbers expected"),
    }
    let row = Value::Char(Array::scalar('a'));
    let into = Value::Num(nums(&[2], &[1., 2.]));
    let e = row.unlast(into).err().unwrap();
    assert_eq!(
        e,
        UiuaError::new(Op::Unlast, ErrorKind::Mismatch(uiua::error::Kind::Char, uiua::error::Kind::Num))
    );
}
