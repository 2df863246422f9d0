use uiua::algorithm::naturals::unravel;
use uiua::algorithm::range::{naturals_below, range_grid, RANGE_LIMIT};
use uiua::algorithm::wher::{spread_places, to_nums};
use uiua::array::Array;
use uiua::error::{ErrorKind, Kind, Op, UiuaError};
use uiua::num::Num;
use uiua::value::{Boxed, FillContext, Value};

fn n(x: f64) -> Num {
    Num::from_bits(x.to_bits())
}

fn nums(sizes: &[usize], xs: &[f64]) -> Array<Num> {
    Array::from_parts(sizes, xs.iter().map(|x| n(*x)).collect())
}

fn floats(a: &Array<Num>) -> Vec<f64> {
    a.data.iter().map(|x| f64::from_bits(x.to_bits())).collect()
}

fn bytes(sizes: &[usize], xs: &[u8]) -> Array<u8> {
    Array::from_parts(sizes, xs.to_vec())
}

fn num_value(v: Value) -> Array<Num> {
    match v {
        Value::Num(a) => a,
        _ => panic!("numbers expected"),
    }
}

fn error(op: Op, kind: ErrorKind) -> UiuaError {
    UiuaError::new(op, kind)
}

#[test]
fn coordinates_of_a_place() {
    assert_eq!(unravel(&[2, 3], 0), vec![0, 0]);
    assert_eq!(unravel(&[2, 3], 4), vec![1, 1]);
    assert_eq!(unravel(&[2, 3, 4], 23), vec![1, 2, 3]);
    assert_eq!(unravel(&[5], 3), vec![3]);
    assert_eq!(unravel(&[], 0), Vec::<usize>::new());
}

#[test]
fn naturals_of_a_value() {
    let v = Value::Num(nums(&[3], &[2., 0., 5.]));
    assert_eq!(v.as_nats(Op::Where).unwrap(), vec![2, 0, 5]);
    let b = Value::Byte(bytes(&[2, 2], &[1, 2, 3, 4]));
    assert_eq!(b.naturals(Op::Where).unwrap(), vec![1, 2, 3, 4]);
    assert_eq!(b.as_nats(Op::Range).err().unwrap(), error(Op::Range, ErrorKind::Rank(2)));
    let frac = Value::Num(nums(&[2], &[1., 0.5]));
    assert_eq!(frac.as_nats(Op::Range).err().unwrap(), error(Op::Range, ErrorKind::NotNatural));
    let neg = Value::Num(nums(&[1], &[-1.]));
    assert_eq!(neg.naturals(Op::Where).err().unwrap(), error(Op::Where, ErrorKind::NotNatural));
    let c = Value::Char(Array::scalar('a'));
    assert_eq!(
        c.naturals(Op::Where).err().unwrap(),
        error(Op::Where, ErrorKind::WrongKind(Kind::Char))
    );
}

#[test]
fn range_of_two_by_three() {
    let v = Value::Num(nums(&[2], &[2., 3.]));
    let r = num_value(v.range().unwrap());
    assert_eq!(r.shape.sizes(), &[2, 3, 2]);
    assert_eq!(
        floats(&r),
        vec![0., 0., 0., 1., 0., 2., 1., 0., 1., 1., 1., 2.]
    );
}

#[test]
fn range_of_a_scalar_is_a_list() {
    let v = Value::Num(Array::scalar(n(4.0)));
    let r = num_value(v.range().unwrap());
    assert_eq!(r.shape.sizes(), &[4]);
    assert_eq!(floats(&r), vec![0., 1., 2., 3.]);
    let z = Value::Byte(Array::scalar(0u8));
    let r = num_value(z.range().unwrap());
    assert_eq!(r.shape.sizes(), &[0]);
    assert_eq!(naturals_below(3), vec![n(0.0), n(1.0), n(2.0)]);
}

#[test]
fn range_of_short_lists() {
    let one = Value::Num(nums(&[1], &[3.]));
    let r = num_value(one.range().unwrap());
    assert_eq!(r.shape.sizes(), &[3, 1]);
    assert_eq!(floats(&r), vec![0., 1., 2.]);
    let none = Value::Num(nums(&[0], &[]));
    let r = num_value(none.range().unwrap());
    assert_eq!(r.shape.sizes(), &[0]);
    let zero = Value::Num(nums(&[2], &[3., 0.]));
    let r = num_value(zero.range().unwrap());
    assert_eq!(r.shape.sizes(), &[3, 0, 2]);
    assert!(r.data.is_empty());
}

#[test]
fn range_refuses_too_large_grids() {
    let v = Value::Num(nums(&[2], &[10000., 10000.]));
    assert_eq!(
        v.range().err().unwrap(),
        error(Op::Range, ErrorKind::TooLarge(Some(200000000))).about(vec![10000, 10000])
    );
    let huge = Value::Num(nums(&[3], &[4294967296., 4294967296., 4294967296.]));
    assert_eq!(
        huge.range().err().unwrap(),
        error(Op::Range, ErrorKind::TooLarge(None)).about(vec![4294967296, 4294967296, 4294967296])
    );
    assert_eq!(RANGE_LIMIT, (1usize << 30) / 8);
    assert!(range_grid(&[RANGE_LIMIT / 2 + 1, 1]).is_err());
    assert_eq!(range_grid(&[2, 1]).unwrap(), vec![n(0.), n(0.), n(1.), n(0.)]);
    assert_eq!(range_grid(&[]).unwrap(), vec![n(0.)]);
    assert_eq!(range_grid(&[3, 0]).unwrap(), vec![]);
}

#[test]
fn range_refuses_what_are_not_naturals() {
    let v = Value::Num(nums(&[2], &[2., -3.]));
    assert_eq!(v.range().err().unwrap(), error(Op::Range, ErrorKind::NotNatural));
    let m = Value::Num(nums(&[1, 2], &[2., 3.]));
    assert_eq!(m.range().err().unwrap(), error(Op::Range, ErrorKind::Rank(2)));
    let b = Value::Box(Array::from_vec(vec![Boxed(Value::Byte(Array::scalar(1u8)))]));
    assert_eq!(b.range().err().unwrap(), error(Op::Range, ErrorKind::WrongKind(Kind::Box)));
}

#[test]
fn bits_of_five_three_zero() {
    let a = nums(&[3], &[5., 3., 0.]);
    let b = a.bits().unwrap();
    assert_eq!(b.shape.sizes(), &[3, 3]);
    assert_eq!(b.data, vec![1, 0, 1, 1, 1, 0, 0, 0, 0]);
    assert!(b.flags.boolean);
    let back = b.inverse_bits().unwrap();
    assert_eq!(back.shape.sizes(), &[3]);
    assert_eq!(floats(&back), vec![5., 3., 0.]);
}

#[test]
fn bits_of_zeros_and_of_nothing() {
    let zeros = nums(&[2], &[0., 0.]);
    let b = zeros.bits().unwrap();
    assert_eq!(b.shape.sizes(), &[2, 0]);
    assert!(b.data.is_empty());
    let back = b.inverse_bits().unwrap();
    assert_eq!(floats(&back), vec![0., 0.]);
    let none = nums(&[0], &[]);
    let b = none.bits().unwrap();
    assert_eq!(b.shape.sizes(), &[0, 0]);
    assert!(!b.flags.boolean);
    let s = Array::scalar(n(6.0));
    let b = s.bits().unwrap();
    assert_eq!(b.shape.sizes(), &[3]);
    assert_eq!(b.data, vec![0, 1, 1]);
}

#[test]
fn bits_of_negative_and_large_numbers() {
    let a = nums(&[2], &[-4., 1.]);
    assert_eq!(a.bits().unwrap().data, vec![0, 1]);
    let big = nums(&[1], &[18446744073709551616.]);
    let b = big.bits().unwrap();
    assert_eq!(b.shape.sizes(), &[1, 65]);
    assert_eq!(b.data[64], 1);
    assert_eq!(b.data.iter().map(|x| *x as usize).sum::<usize>(), 1);
    assert_eq!(floats(&b.inverse_bits().unwrap()), vec![18446744073709551616.]);
}

#[test]
fn bits_refuses_fractions() {
    let a = nums(&[2], &[1., 2.5]);
    assert_eq!(a.bits().err().unwrap(), error(Op::Bits, ErrorKind::NotIntegral));
    let inf = nums(&[1], &[f64::INFINITY]);
    assert_eq!(inf.bits().err().unwrap(), error(Op::Bits, ErrorKind::NotIntegral));
    let c = Value::Char(Array::scalar('a'));
    assert_eq!(c.bits().err().unwrap(), error(Op::Bits, ErrorKind::WrongKind(Kind::Char)));
}

#[test]
fn bits_of_values() {
    let v = Value::Byte(bytes(&[2], &[5, 2]));
    let b = v.bits().unwrap();
    assert_eq!(b.data, vec![1, 0, 1, 0, 1, 0]);
    let w = Value::Num(nums(&[2, 2], &[1., 0., 0., 1.]));
    let r = w.inv_bits().unwrap();
    assert_eq!(r.shape.sizes(), &[2]);
    assert_eq!(floats(&r), vec![1., 2.]);
    let bad = Value::Num(nums(&[2], &[1., 0.5]));
    assert_eq!(bad.inv_bits().err().unwrap(), error(Op::InverseBits, ErrorKind::NotBoolean));
    let c = Value::Char(Array::scalar('a'));
    assert_eq!(
        c.inv_bits().err().unwrap(),
        error(Op::InverseBits, ErrorKind::WrongKind(Kind::Char))
    );
}

#[test]
fn inverse_bits_of_scalars_and_empty_axes() {
    let s = Array::scalar(1u8);
    let r = s.inverse_bits().unwrap();
    assert_eq!(r.rank(), 0);
    assert_eq!(floats(&r), vec![1.]);
    let e = bytes(&[3, 0], &[]);
    let r = e.inverse_bits().unwrap();
    assert_eq!(r.shape.sizes(), &[3]);
    assert_eq!(floats(&r), vec![0., 0., 0.]);
    let m = bytes(&[2, 2, 2], &[1, 0, 0, 1, 1, 1, 0, 0]);
    let r = m.inverse_bits().unwrap();
    assert_eq!(r.shape.sizes(), &[2, 2]);
    assert_eq!(floats(&r), vec![1., 2., 3., 0.]);
}

#[test]
fn inverse_bits_refuses_other_digits() {
    let a = bytes(&[2], &[1, 2]);
    assert_eq!(a.inverse_bits().err().unwrap(), error(Op::InverseBits, ErrorKind::NotBoolean));
    let mut long = vec![0u8; 130];
    long[57] = 3;
    let b = bytes(&[130], &long);
    assert_eq!(b.inverse_bits().err().unwrap(), error(Op::InverseBits, ErrorKind::NotBoolean));
}

#[test]
fn inverse_bits_of_wide_rows() {
    let mut long = vec![0u8; 130];
    long[127] = 1;
    let c = bytes(&[130], &long);
    assert_eq!(floats(&c.inverse_bits().unwrap()), vec![170141183460469231731687303715884105728.]);
    let mut row = vec![0u8; 129];
    row[128] = 1;
    let a = bytes(&[1, 129], &row);
    let r = a.inverse_bits().unwrap();
    assert_eq!(r.shape.sizes(), &[1]);
    assert_eq!(floats(&r), vec![2f64.powi(128)]);
    let mut two = vec![0u8; 260];
    two[129] = 1;
    two[130] = 1;
    two[130 + 129] = 1;
    let b = bytes(&[2, 130], &two);
    assert_eq!(floats(&b.inverse_bits().unwrap()), vec![2f64.powi(129), 1. + 2f64.powi(129)]);
}

#[test]
fn inverse_bits_rounds_to_the_nearest_number() {
    let ones = bytes(&[53], &vec![1u8; 53]);
    assert_eq!(floats(&ones.inverse_bits().unwrap()), vec![9007199254740991.]);
    let ones = bytes(&[54], &vec![1u8; 54]);
    assert_eq!(floats(&ones.inverse_bits().unwrap()), vec![18014398509481984.]);
    let with = |set: &[usize]| {
        let mut row = vec![0u8; 201];
        for &k in set {
            row[k] = 1;
        }
        floats(&bytes(&[201], &row).inverse_bits().unwrap())[0]
    };
    // what lies below half a unit is dropped
    assert_eq!(with(&[200, 0]), 2f64.powi(200));
    assert_eq!(with(&[200, 146, 3]), 2f64.powi(200));
    // half a unit goes to the even neighbour
    assert_eq!(with(&[200, 147]), 2f64.powi(200));
    assert_eq!(with(&[200, 148, 147]), 2f64.powi(200) + 2f64.powi(149));
    // more than half a unit goes up
    assert_eq!(with(&[200, 147, 0]), 2f64.powi(200) + 2f64.powi(148));
    assert_eq!(with(&[200, 199, 148]), 2f64.powi(200) + 2f64.powi(199) + 2f64.powi(148));
    // rounding up may reach the next power of two
    let all: Vec<usize> = (0..201).collect();
    assert_eq!(with(&all), 2f64.powi(201));
}

#[test]
fn inverse_bits_beyond_the_numbers_is_infinity() {
    let mut row = vec![0u8; 1024];
    row[1023] = 1;
    let a = bytes(&[1024], &row);
    assert_eq!(floats(&a.inverse_bits().unwrap()), vec![2f64.powi(1023)]);
    let largest: Vec<u8> = (0..1024).map(|k| if k >= 971 { 1 } else { 0 }).collect();
    assert_eq!(floats(&bytes(&[1024], &largest).inverse_bits().unwrap()), vec![f64::MAX]);
    let ones = bytes(&[1024], &vec![1u8; 1024]);
    assert_eq!(floats(&ones.inverse_bits().unwrap()), vec![f64::INFINITY]);
    let mut row = vec![0u8; 1030];
    row[1024] = 1;
    let b = bytes(&[1030], &row);
    assert_eq!(floats(&b.inverse_bits().unwrap()), vec![f64::INFINITY]);
}

#[test]
fn where_of_a_list() {
    let v = Value::Num(nums(&[3], &[2., 0., 1.]));
    let w = v.wher().unwrap();
    assert_eq!(w.shape.sizes(), &[3]);
    assert_eq!(floats(&w), vec![0., 0., 2.]);
    let back = num_value(Value::Num(w).inverse_where().unwrap());
    assert_eq!(back.shape.sizes(), &[3]);
    assert_eq!(floats(&back), vec![2., 0., 1.]);
    assert_eq!(spread_places(&vec![0, 3, 1]), vec![1, 1, 1, 2]);
    assert_eq!(to_nums(&vec![1, 2]), vec![n(1.), n(2.)]);
}

#[test]
fn where_of_a_table() {
    let v = Value::Byte(bytes(&[2, 3], &[0, 1, 0, 2, 0, 1]));
    let w = v.wher().unwrap();
    assert_eq!(w.shape.sizes(), &[4, 2]);
    assert_eq!(floats(&w), vec![0., 1., 1., 0., 1., 0., 1., 2.]);
    let back = num_value(Value::Num(w).inverse_where().unwrap());
    assert_eq!(back.shape.sizes(), &[2, 3]);
    assert_eq!(floats(&back), vec![0., 1., 0., 2., 0., 1.]);
}

#[test]
fn where_of_scalars_and_nothing() {
    let v = Value::Byte(Array::scalar(3u8));
    let w = v.wher().unwrap();
    assert_eq!(floats(&w), vec![0., 0., 0.]);
    let e = Value::Num(nums(&[0], &[]));
    let w = e.wher().unwrap();
    assert_eq!(w.shape.sizes(), &[0]);
    let z = Value::Byte(bytes(&[2, 2], &[0, 0, 0, 0]));
    let w = z.wher().unwrap();
    assert_eq!(w.shape.sizes(), &[0, 2]);
}

#[test]
fn where_refuses_what_are_not_naturals() {
    let v = Value::Num(nums(&[2], &[1., 1.5]));
    assert_eq!(v.wher().err().unwrap(), error(Op::Where, ErrorKind::NotNatural));
    let c = Value::Char(Array::from_vec(vec!['a']));
    assert_eq!(c.wher().err().unwrap(), error(Op::Where, ErrorKind::WrongKind(Kind::Char)));
}

#[test]
fn where_and_back_gives_the_counts_again() {
    for counts in [vec![], vec![1u8], vec![0, 0, 3], vec![2, 0, 1], vec![1, 1, 1, 1], vec![0, 5]] {
        let v = Value::Byte(Array::from_vec(counts.clone()));
        let w = v.wher().unwrap();
        let back = num_value(Value::Num(w).inverse_where().unwrap());
        let want: Vec<f64> = counts.iter().map(|c| *c as f64).collect();
        assert_eq!(floats(&back), want);
    }
}

#[test]
fn first_where_finds_the_first_place() {
    let env = FillContext::none();
    let v = Value::Num(nums(&[4], &[0., 0., 3., 1.]));
    let r = v.first_where(&env).unwrap();
    assert_eq!(r.rank(), 0);
    assert_eq!(floats(&r), vec![2.]);
    let t = Value::Byte(bytes(&[2, 3], &[0, 0, 0, 0, 1, 1]));
    let r = t.first_where(&env).unwrap();
    assert_eq!(r.shape.sizes(), &[2]);
    assert_eq!(floats(&r), vec![1., 1.]);
}

#[test]
fn first_where_of_zeros_is_the_fill_value() {
    let v = Value::Num(nums(&[3], &[0., 0., 0.]));
    let fill = FillContext::with_fill(Value::Num(Array::scalar(n(9.0))));
    assert_eq!(floats(&v.first_where(&fill).unwrap()), vec![9.]);
    let byte_fill = FillContext::with_fill(Value::Byte(Array::scalar(4u8)));
    assert_eq!(floats(&v.first_where(&byte_fill).unwrap()), vec![4.]);
    assert_eq!(
        v.first_where(&FillContext::none()).err().unwrap(),
        error(Op::Where, ErrorKind::NoFill)
    );
    let list_fill = FillContext::with_fill(Value::Num(nums(&[1], &[9.])));
    assert_eq!(v.first_where(&list_fill).err().unwrap().kind, ErrorKind::NoFill);
}

#[test]
fn first_where_refuses_what_is_not_natural_before_the_place() {
    let env = FillContext::none();
    let v = Value::Num(nums(&[3], &[0., -1., 2.]));
    assert_eq!(v.first_where(&env).err().unwrap(), error(Op::Where, ErrorKind::NotNatural));
    let w = Value::Num(nums(&[3], &[0., 2., 0.5]));
    assert_eq!(floats(&w.first_where(&env).unwrap()), vec![1.]);
    let c = Value::Char(Array::from_vec(vec!['a']));
    assert_eq!(
        c.first_where(&env).err().unwrap(),
        error(Op::Where, ErrorKind::WrongKind(Kind::Char))
    );
}

#[test]
fn inverse_where_counts_places() {
    let v = Value::Num(nums(&[5], &[3., 1., 3., 0., 3.]));
    let r = num_value(v.inverse_where().unwrap());
    assert_eq!(r.shape.sizes(), &[4]);
    assert_eq!(floats(&r), vec![1., 1., 0., 3.]);
    let s = Value::Byte(Array::scalar(2u8));
    let r = num_value(s.inverse_where().unwrap());
    assert_eq!(floats(&r), vec![0., 0., 1.]);
    let e = Value::Byte(bytes(&[0], &[]));
    let r = num_value(e.inverse_where().unwrap());
    assert_eq!(r.shape.sizes(), &[0]);
}

#[test]
fn inverse_where_of_coordinates() {
    let v = Value::Byte(bytes(&[3, 2], &[0, 1, 1, 2, 0, 1]));
    let r = num_value(v.inverse_where().unwrap());
    assert_eq!(r.shape.sizes(), &[2, 3]);
    assert_eq!(floats(&r), vec![0., 2., 0., 0., 0., 1.]);
    let none = Value::Byte(bytes(&[0, 2], &[]));
    let r = num_value(none.inverse_where().unwrap());
    assert_eq!(r.shape.sizes(), &[0, 0]);
}

#[test]
fn inverse_where_refuses_more_dimensions_and_other_kinds() {
    let v = Value::Byte(bytes(&[1, 1, 1], &[0]));
    assert_eq!(v.inverse_where().err().unwrap(), error(Op::InverseWhere, ErrorKind::Rank(3)));
    let f = Value::Num(nums(&[1], &[0.5]));
    assert_eq!(f.inverse_where().err().unwrap(), error(Op::InverseWhere, ErrorKind::NotNatural));
    let c = Value::Char(Array::from_vec(vec!['a']));
    assert_eq!(
        c.inverse_where().err().unwrap(),
        error(Op::InverseWhere, ErrorKind::WrongKind(Kind::Char))
    );
    let big = Value::Num(nums(&[1, 2], &[4294967296., 4294967296.]));
    assert_eq!(
        big.inverse_where().err().unwrap(),
        error(Op::InverseWhere, ErrorKind::TooLarge(None))
    );
}

#[test]
fn inverse_where_counts_the_same_whether_sorted_or_not() {
    let places: Vec<u8> = vec![4, 0, 4, 2, 9, 0, 4, 1, 9];
    let mut sorted = places.clone();
    sorted.sort();
    let a = num_value(Value::Byte(Array::from_vec(places)).inverse_where().unwrap());
    let b = num_value(Value::Byte(Array::from_vec(sorted)).inverse_where().unwrap());
    assert_eq!(floats(&a), vec![2., 1., 1., 0., 3., 0., 0., 0., 0., 2.]);
    assert_eq!(floats(&a), floats(&b));
    assert_eq!(a.shape.sizes(), &[10]);
}

#[test]
fn inverse_where_of_one_column_of_coordinates() {
    let v = Value::Byte(bytes(&[3, 1], &[2, 0, 2]));
    let r = num_value(v.inverse_where().unwrap());
    assert_eq!(r.shape.sizes(), &[3]);
    assert_eq!(floats(&r), vec![1., 0., 2.]);
}
