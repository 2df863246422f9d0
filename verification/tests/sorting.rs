use uiua::algorithm::sort::{compare_rows, positions, take_rows};
use uiua::array::Array;
use uiua::error::{ErrorKind, Op, UiuaError};
use uiua::num::Num;
use uiua::order::Order;
use uiua::value::{Boxed, FillContext, Value};

fn n(x: f64) -> Num {
    Num::from_bits(x.to_bits())
}

fn nums(sizes: &[usize], xs: &[f64]) -> Array<Num> {
    Array::from_parts(sizes, xs.iter().map(|x| n(*x)).collect())
}

fn floats(a: &Array<Num>) -> Vec<f64> {
    a.data.iter().map(|x| f64::from_bits(x.to_bits())).collect()
}

fn bytes(sizes: &[usize], xs: &[u8]) -> Array<u8> {
    Array::from_parts(sizes, xs.to_vec())
}

fn as_float(v: &Value) -> f64 {
    match v {
        Value::Num(a) => f64::from_bits(a.data[0].to_bits()),
        _ => panic!("number expected"),
    }
}

#[test]
fn rows_are_compared_place_by_place() {
    let data = vec![1u8, 2, 1, 3, 1, 2];
    assert_eq!(compare_rows(&data, 2, 0, 1), Order::Less);
    assert_eq!(compare_rows(&data, 2, 1, 0), Order::Greater);
    assert_eq!(compare_rows(&data, 2, 0, 2), Order::Equal);
    assert_eq!(compare_rows(&data, 0, 0, 1), Order::Equal);
    assert_eq!(positions(3), vec![0, 1, 2]);
    assert_eq!(take_rows(&data, 2, &vec![2, 0]), vec![1, 2, 1, 2]);
}

#[test]
fn rise_of_a_column() {
    let a = nums(&[3, 1], &[3., 1., 2.]);
    assert_eq!(a.rise().unwrap(), vec![1, 2, 0]);
    assert_eq!(a.fall().unwrap(), vec![0, 2, 1]);
}

#[test]
fn sort_up_of_a_column() {
    let mut a = nums(&[3, 1], &[3., 1., 2.]);
    a.sort_up().unwrap();
    assert_eq!(floats(&a), vec![1., 2., 3.]);
    assert_eq!(a.shape.sizes(), &[3, 1]);
    a.sort_down().unwrap();
    assert_eq!(floats(&a), vec![3., 2., 1.]);
}

#[test]
fn rise_keeps_equal_rows_in_their_order() {
    let a = bytes(&[6], &[2, 1, 2, 1, 3, 1]);
    assert_eq!(a.rise().unwrap(), vec![1, 3, 5, 0, 2, 4]);
    assert_eq!(a.fall().unwrap(), vec![4, 0, 2, 1, 3, 5]);
}

#[test]
fn rise_compares_rows_by_their_first_difference() {
    let a = bytes(&[4, 2], &[2, 1, 1, 9, 2, 0, 1, 3]);
    assert_eq!(a.rise().unwrap(), vec![3, 1, 2, 0]);
    let mut b = bytes(&[4, 2], &[2, 1, 1, 9, 2, 0, 1, 3]);
    b.sort_up().unwrap();
    assert_eq!(b.data, vec![1, 3, 1, 9, 2, 0, 2, 1]);
}

#[test]
fn sort_up_is_the_rise_applied_to_the_rows() {
    let data: Vec<u8> = vec![5, 1, 4, 1, 5, 9, 2, 6, 5, 3, 5, 8];
    let a = bytes(&[6, 2], &data);
    let rise = a.rise().unwrap();
    let mut sorted = bytes(&[6, 2], &data);
    sorted.sort_up().unwrap();
    let mut by_rise = Vec::new();
    for r in &rise {
        by_rise.extend_from_slice(&data[r * 2..r * 2 + 2]);
    }
    assert_eq!(sorted.data, by_rise);
    for i in 1..6 {
        assert!(sorted.data[(i - 1) * 2..i * 2] <= sorted.data[i * 2..i * 2 + 2]);
    }
}

#[test]
fn fall_is_the_rise_backwards_where_no_rows_are_equal() {
    let a = nums(&[5], &[3.5, -1.0, 2.0, 10.0, 0.0]);
    let mut rise = a.rise().unwrap();
    rise.reverse();
    assert_eq!(a.fall().unwrap(), rise);
}

#[test]
fn rise_of_many_rows() {
    let count = 5000usize;
    let data: Vec<Num> = (0..count).map(|i| Num::from_usize((i * 7919) % count)).collect();
    let a = Array::from_vec(data.clone());
    let rise = a.rise().unwrap();
    assert_eq!(rise.len(), count);
    for i in 0..count {
        assert_eq!(data[rise[i]], Num::from_usize(i));
    }
}

#[test]
fn rise_of_scalar_is_an_error_and_of_nothing_is_nothing() {
    let s = Array::scalar(3u8);
    assert_eq!(
        s.rise().err().unwrap(),
        UiuaError::new(Op::Rise, ErrorKind::Scalar)
    );
    assert_eq!(
        s.fall().err().unwrap(),
        UiuaError::new(Op::Fall, ErrorKind::Scalar)
    );
    let mut t = Array::scalar(3u8);
    assert_eq!(t.sort_up().err().unwrap().op, Op::Rise);
    assert_eq!(t.sort_down().err().unwrap().op, Op::Fall);
    let e = bytes(&[0], &[]);
    assert_eq!(e.rise().unwrap(), Vec::<usize>::new());
    let rows_of_nothing = bytes(&[3, 0], &[]);
    assert_eq!(rows_of_nothing.fall().unwrap(), Vec::<usize>::new());
}

#[test]
fn classify_numbers_rows_by_first_appearance() {
    let a = bytes(&[5], &[7, 3, 7, 9, 3]);
    assert_eq!(a.classify().unwrap(), vec![0, 1, 0, 2, 1]);
    let b = bytes(&[4, 2], &[1, 2, 3, 4, 1, 2, 1, 3]);
    assert_eq!(b.classify().unwrap(), vec![0, 1, 0, 2]);
    assert_eq!(bytes(&[0], &[]).classify().unwrap(), Vec::<usize>::new());
    assert_eq!(bytes(&[3, 0], &[]).classify().unwrap(), vec![0, 0, 0]);
    assert_eq!(
        Array::scalar(1u8).classify().err().unwrap(),
        UiuaError::new(Op::Classify, ErrorKind::Scalar)
    );
}

#[test]
fn deduplicate_keeps_first_rows() {
    let mut a = nums(&[5, 1], &[1., 2., 1., 3., 2.]);
    a.deduplicate();
    assert_eq!(a.shape.sizes(), &[3, 1]);
    assert_eq!(floats(&a), vec![1., 2., 3.]);
    let mut b = bytes(&[4, 2], &[1, 2, 3, 4, 1, 2, 1, 3]);
    b.deduplicate();
    assert_eq!(b.shape.sizes(), &[3, 2]);
    assert_eq!(b.data, vec![1, 2, 3, 4, 1, 3]);
    let mut s = Array::scalar(4u8);
    s.deduplicate();
    assert_eq!(s.data, vec![4]);
    let mut e = bytes(&[3, 0], &[]);
    e.deduplicate();
    assert_eq!(e.shape.sizes(), &[1, 0]);
}

#[test]
fn deduplicate_twice_changes_nothing_more() {
    let data = [4u8, 4, 1, 4, 2, 1, 1, 2, 9];
    let mut a = bytes(&[9], &data);
    a.deduplicate();
    let once = a.data.clone();
    assert!(once.len() <= data.len());
    a.deduplicate();
    assert_eq!(a.data, once);
    assert_eq!(a.shape.sizes(), &[once.len()]);
    assert_eq!(once, vec![4, 1, 2, 9]);
}

#[test]
fn classes_count_the_deduplicated_rows() {
    let data = [4u8, 4, 1, 4, 2, 1, 1, 2, 9];
    let a = bytes(&[9], &data);
    let classes = a.classify().unwrap();
    let mut d = bytes(&[9], &data);
    d.deduplicate();
    assert_eq!(classes.iter().max().unwrap() + 1, d.row_count());
    for i in 0..9 {
        for j in 0..9 {
            assert_eq!(classes[i] == classes[j], data[i] == data[j]);
        }
    }
}

#[test]
fn the_two_zeros_are_one_row() {
    let mut a = nums(&[3], &[0.0, -0.0, 1.0]);
    assert_eq!(a.classify().unwrap(), vec![0, 0, 1]);
    a.deduplicate();
    assert_eq!(a.shape.sizes(), &[2]);
}

#[test]
fn places_of_least_and_greatest_rows() {
    let env = FillContext::none();
    let a = bytes(&[6], &[3, 1, 4, 1, 4, 2]);
    let f = |x: Num| f64::from_bits(x.to_bits());
    assert_eq!(f(a.first_min_index(&env).unwrap()), 1.0);
    assert_eq!(f(a.last_min_index(&env).unwrap()), 3.0);
    assert_eq!(f(a.first_max_index(&env).unwrap()), 2.0);
    assert_eq!(f(a.last_max_index(&env).unwrap()), 4.0);
    let rows = bytes(&[3, 2], &[1, 5, 1, 2, 1, 5]);
    assert_eq!(f(rows.first_min_index(&env).unwrap()), 1.0);
    assert_eq!(f(rows.first_max_index(&env).unwrap()), 0.0);
    assert_eq!(f(rows.last_max_index(&env).unwrap()), 2.0);
}

#[test]
fn places_of_extremes_of_scalars_and_empty_arrays() {
    let none = FillContext::none();
    let seven = FillContext::with_fill(Value::Num(Array::scalar(n(7.0))));
    let s = Array::scalar(1u8);
    assert_eq!(
        s.first_min_index(&seven).err().unwrap(),
        UiuaError::new(Op::MinIndex, ErrorKind::Scalar)
    );
    assert_eq!(
        s.last_max_index(&seven).err().unwrap(),
        UiuaError::new(Op::MaxIndex, ErrorKind::Scalar)
    );
    let e = bytes(&[0], &[]);
    assert_eq!(
        e.first_max_index(&none).err().unwrap(),
        UiuaError::new(Op::MaxIndex, ErrorKind::NoFill)
    );
    assert_eq!(
        e.last_min_index(&none).err().unwrap(),
        UiuaError::new(Op::MinIndex, ErrorKind::NoFill)
    );
    assert_eq!(e.first_min_index(&seven).unwrap(), n(7.0));
}

#[test]
fn values_sort_the_array_in_their_boxes() {
    let inner = Value::Byte(bytes(&[4], &[3, 1, 4, 1]));
    let mut v = Value::Box(Array::scalar(Boxed(inner)));
    assert_eq!(v.rise().unwrap(), vec![1, 3, 0, 2]);
    assert_eq!(v.fall().unwrap(), vec![2, 0, 1, 3]);
    v.sort_up().unwrap();
    match &v {
        Value::Box(b) => match &b.data[0].0 {
            Value::Byte(a) => assert_eq!(a.data, vec![1, 1, 3, 4]),
            _ => panic!("bytes expected"),
        },
        _ => panic!("box expected"),
    }
    v.deduplicate();
    v.sort_down().unwrap();
    match &v {
        Value::Box(b) => match &b.data[0].0 {
            Value::Byte(a) => assert_eq!(a.data, vec![4, 3, 1]),
            _ => panic!("bytes expected"),
        },
        _ => panic!("box expected"),
    }
    match v.classify().unwrap() {
        Value::Num(c) => assert_eq!(floats(&c), vec![0., 1., 2.]),
        _ => panic!("numbers expected"),
    }
    let env = FillContext::none();
    assert_eq!(as_float(&v.first_max_index(&env).unwrap()), 0.0);
    assert_eq!(as_float(&v.first_min_index(&env).unwrap()), 2.0);
    assert_eq!(as_float(&v.last_min_index(&env).unwrap()), 2.0);
    assert_eq!(as_float(&v.last_max_index(&env).unwrap()), 0.0);
}

#[test]
fn sorting_a_scalar_value_is_an_error_and_changes_nothing() {
    let mut v = Value::Num(Array::scalar(n(2.0)));
    assert_eq!(
        v.sort_up().err().unwrap(),
        UiuaError::new(Op::Rise, ErrorKind::Scalar)
    );
    assert_eq!(as_float(&v), 2.0);
    assert_eq!(v.classify().err().unwrap().kind, ErrorKind::Scalar);
    assert_eq!(v.rise().err().unwrap().op, Op::Rise);
}

#[test]
fn boxes_are_ordered_by_what_they_hold() {
    let b = |xs: &[u8]| Boxed(Value::Byte(Array::from_vec(xs.to_vec())));
    let a = Array::from_vec(vec![b(&[2, 1]), b(&[1, 9]), b(&[2, 0]), b(&[1, 9])]);
    assert_eq!(a.rise().unwrap(), vec![1, 3, 2, 0]);
    assert_eq!(a.classify().unwrap(), vec![0, 1, 2, 1]);
}
