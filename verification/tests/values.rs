use uiua::algorithm::depth::DepthOp;
use uiua::algorithm::strings::{prepare_number_text, push_chars};
use uiua::array::Array;
use uiua::command::value_to_command;
use uiua::element::ArrayValue;
use uiua::error::{ErrorKind, Kind, Op, UiuaError};
use uiua::num::{Complex, Num};
use uiua::order::Order;
use uiua::text::{decode_text, encode_text};
use uiua::value::{Boxed, FillContext, Value};

fn n(x: f64) -> Num {
    Num::from_bits(x.to_bits())
}

fn byte_list(xs: &[u8]) -> Value {
    Value::Byte(Array::from_vec(xs.to_vec()))
}

fn boxes(vs: Vec<Value>) -> Value {
    Value::Box(Array::from_vec(vs.into_iter().map(Boxed).collect()))
}

fn held(v: &Value, i: usize) -> Vec<u8> {
    match v {
        Value::Box(b) => match &b.data[i].0 {
            Value::Byte(a) => a.data.clone(),
            _ => panic!("bytes expected"),
        },
        _ => panic!("box expected"),
    }
}

fn text(s: &str) -> Value {
    Value::Char(Array::from_vec(s.chars().collect()))
}

fn chars_of(v: &Value) -> String {
    match v {
        Value::Char(a) => a.data.iter().collect(),
        _ => panic!("characters expected"),
    }
}

#[test]
fn reverse_at_depth_one_works_inside_the_boxes() {
    let mut v = boxes(vec![byte_list(&[1, 2, 3]), byte_list(&[4, 5])]);
    v.reverse_depth(1);
    assert_eq!(held(&v, 0), vec![3, 2, 1]);
    assert_eq!(held(&v, 1), vec![5, 4]);
}

#[test]
fn reverse_at_depth_zero_turns_the_boxes_round() {
    let mut v = boxes(vec![byte_list(&[1, 2, 3]), byte_list(&[4, 5])]);
    v.reverse();
    assert_eq!(held(&v, 0), vec![4, 5]);
    assert_eq!(held(&v, 1), vec![1, 2, 3]);
    v.reverse_depth(0);
    assert_eq!(held(&v, 0), vec![1, 2, 3]);
}

#[test]
fn a_scalar_box_is_looked_into() {
    let mut v = Value::Box(Array::scalar(Boxed(byte_list(&[1, 2, 3]))));
    v.reverse();
    assert_eq!(held(&v, 0), vec![3, 2, 1]);
    assert_eq!(v.rank(), 0);
    v.at_depth(DepthOp::Reverse, 5);
    assert_eq!(held(&v, 0), vec![3, 2, 1]);
}

#[test]
fn a_table_of_boxes_is_worked_on_itself() {
    let rows = vec![
        Boxed(byte_list(&[1, 2])),
        Boxed(byte_list(&[3, 4])),
        Boxed(byte_list(&[5, 6])),
        Boxed(byte_list(&[7, 8])),
    ];
    let mut v = Value::Box(Array::from_parts(&[2, 2], rows));
    v.reverse_depth(1);
    assert_eq!(held(&v, 0), vec![3, 4]);
    assert_eq!(held(&v, 1), vec![1, 2]);
    assert_eq!(held(&v, 2), vec![7, 8]);
}

#[test]
fn transpose_and_deshape_of_values() {
    let mut v = Value::Byte(Array::from_parts(&[2, 3], vec![1, 2, 3, 4, 5, 6]));
    v.transpose();
    assert_eq!(v.shape().sizes(), &[3, 2]);
    v.transpose_depth(0, -1);
    assert_eq!(v.shape().sizes(), &[2, 3]);
    v.deshape();
    assert_eq!(v.shape().sizes(), &[6]);
    let mut w = boxes(vec![Value::Byte(Array::from_parts(&[2, 2], vec![1, 2, 3, 4]))]);
    w.deshape_depth(1);
    match &w {
        Value::Box(b) => assert_eq!(b.data[0].0.shape().sizes(), &[4]),
        _ => panic!("box expected"),
    }
    let mut x = boxes(vec![Value::Byte(Array::from_parts(&[2, 2], vec![1, 2, 3, 4]))]);
    x.transpose_depth(1, 1);
    assert_eq!(held(&x, 0), vec![1, 3, 2, 4]);
}

#[test]
fn kinds_and_names_of_values() {
    assert_eq!(byte_list(&[1]).kind(), Kind::Byte);
    assert_eq!(text("a").kind(), Kind::Char);
    assert_eq!(text("a").kind_name(), "character");
    assert_eq!(Value::Num(Array::scalar(n(1.))).kind_name(), "number");
    assert_eq!(byte_list(&[1]).kind_name(), "number");
    assert_eq!(boxes(vec![]).kind_name(), "box");
    let c = Value::Complex(Array::scalar(Complex { re: n(1.), im: n(0.) }));
    assert_eq!(c.kind_name(), "complex");
    assert_eq!(<u8 as ArrayValue>::kind(), Kind::Byte);
    assert_eq!(<Boxed as ArrayValue>::kind(), Kind::Box);
}

#[test]
fn copies_of_values_are_equal() {
    let v = boxes(vec![byte_list(&[1, 2]), text("hi"), boxes(vec![byte_list(&[3])])]);
    let w = v.duplicate();
    assert_eq!(v.key(), w.key());
    assert_eq!(Boxed(v).compare(&Boxed(w)), Order::Equal);
}

#[test]
fn fill_values_by_kind() {
    let env = FillContext::with_fill(Value::Byte(Array::scalar(3u8)));
    assert_eq!(<u8 as ArrayValue>::get_fill(&env), Some(3));
    assert_eq!(<Num as ArrayValue>::get_fill(&env), Some(n(3.0)));
    assert_eq!(
        <Complex as ArrayValue>::get_fill(&env),
        Some(Complex { re: n(3.0), im: n(0.0) })
    );
    assert_eq!(<char as ArrayValue>::get_fill(&env), None);
    match <Boxed as ArrayValue>::get_fill(&env) {
        Some(b) => assert_eq!(b.0.key(), Value::Byte(Array::scalar(3u8)).key()),
        None => panic!("a fill expected"),
    }
    let none = FillContext::none();
    assert_eq!(<u8 as ArrayValue>::get_fill(&none), None);
    assert!(<Boxed as ArrayValue>::get_fill(&none).is_none());
    let chars = FillContext::with_fill(text("ab"));
    assert_eq!(<char as ArrayValue>::get_fill(&chars), None);
    let one = FillContext::with_fill(Value::Char(Array::scalar('z')));
    assert_eq!(<char as ArrayValue>::get_fill(&one), Some('z'));
}

#[test]
fn first_of_value_looks_into_scalar_boxes() {
    let env = FillContext::none();
    let v = Value::Box(Array::scalar(Boxed(byte_list(&[7, 8, 9]))));
    match v.first(&env).unwrap() {
        Value::Byte(a) => assert_eq!(a.data, vec![7]),
        _ => panic!("bytes expected"),
    }
    let w = boxes(vec![byte_list(&[1]), byte_list(&[2, 3])]);
    let last = w.last(&env).unwrap();
    assert_eq!(held(&last, 0), vec![2, 3]);
    assert_eq!(last.rank(), 0);
}

#[test]
fn unfirst_looks_into_scalar_boxes_of_the_target() {
    let row = Value::Byte(Array::scalar(9u8));
    let into = Value::Box(Array::scalar(Boxed(byte_list(&[1, 2, 3]))));
    let r = row.unfirst(into).unwrap();
    assert_eq!(held(&r, 0), vec![9, 2, 3]);
    let row = Value::Byte(Array::scalar(9u8));
    let into = Value::Box(Array::scalar(Boxed(byte_list(&[1, 2, 3]))));
    let r = row.unlast(into).unwrap();
    assert_eq!(held(&r, 0), vec![1, 2, 9]);
}

#[test]
fn text_to_bytes_and_back() {
    let v = text("h\u{e9}llo \u{221e}");
    let b = v.utf8().unwrap();
    match &b {
        Value::Byte(a) => assert_eq!(a.data, "h\u{e9}llo \u{221e}".as_bytes().to_vec()),
        _ => panic!("bytes expected"),
    }
    let back = b.inv_utf8().unwrap();
    assert_eq!(chars_of(&back), "h\u{e9}llo \u{221e}");
    assert_eq!(encode_text(&vec!['a', '\u{7ff}']), vec![0x61, 0xdf, 0xbf]);
    assert_eq!(decode_text(&vec![0xe2, 0x88, 0x9e]), Some(vec!['\u{221e}']));
    assert_eq!(decode_text(&vec![0xff]), None);
}

#[test]
fn utf8_refuses_what_is_no_text() {
    let e = byte_list(&[1]).utf8().err().unwrap();
    assert_eq!(e, UiuaError::new(Op::Utf8, ErrorKind::WrongKind(Kind::Byte)));
    let table = Value::Char(Array::from_parts(&[1, 2], vec!['a', 'b']));
    assert_eq!(table.utf8().err().unwrap(), UiuaError::new(Op::Utf8, ErrorKind::Rank(2)));
    let boxed = Value::Box(Array::scalar(Boxed(text("ok"))));
    assert!(boxed.utf8().is_ok());
}

#[test]
fn inverse_utf8_refuses_bad_bytes() {
    let bad = byte_list(&[0x61, 0xc3]);
    assert_eq!(
        bad.inv_utf8().err().unwrap(),
        UiuaError::new(Op::InverseUtf8, ErrorKind::InvalidUtf8)
    );
    let nums = Value::Num(Array::from_vec(vec![n(104.), n(105.)]));
    assert_eq!(chars_of(&nums.inv_utf8().unwrap()), "hi");
    let large = Value::Num(Array::from_vec(vec![n(256.)]));
    assert_eq!(
        large.inv_utf8().err().unwrap(),
        UiuaError::new(Op::InverseUtf8, ErrorKind::NotNatural)
    );
    assert_eq!(
        text("a").inv_utf8().err().unwrap(),
        UiuaError::new(Op::InverseUtf8, ErrorKind::WrongKind(Kind::Char))
    );
    let table = Value::Byte(Array::from_parts(&[1, 1], vec![0x61]));
    assert_eq!(
        table.as_bytes().err().unwrap(),
        UiuaError::new(Op::InverseUtf8, ErrorKind::Rank(2))
    );
}

#[test]
fn number_texts_are_made_ready() {
    let s: String = prepare_number_text(&['\u{af}', '1', '.', '5']).into_iter().collect();
    assert_eq!(s, "-1.5");
    let s: String = prepare_number_text(&['`', '\u{3c0}']).into_iter().collect();
    assert_eq!(s, format!("-{}", std::f64::consts::PI));
    let s: String = prepare_number_text(&['\u{3b7}']).into_iter().collect();
    assert_eq!(s, (std::f64::consts::PI * 0.5).to_string());
    let s: String = prepare_number_text(&['\u{3c4}']).into_iter().collect();
    assert_eq!(s, std::f64::consts::TAU.to_string());
    let s: String = prepare_number_text(&['\u{221e}']).into_iter().collect();
    assert_eq!(s, f64::INFINITY.to_string());
    let mut out = vec!['x'];
    push_chars(&mut out, "yz");
    assert_eq!(out, vec!['x', 'y', 'z']);
}

#[test]
fn texts_of_numbers_are_read_row_by_row() {
    let one = text("12").parse_num().unwrap();
    assert_eq!(one.shape, Vec::<usize>::new());
    assert_eq!(one.texts, vec![vec!['1', '2']]);
    let table = Value::Char(Array::from_parts(&[2, 2], vec!['1', '2', '\u{af}', '3']));
    let t = table.parse_num().unwrap();
    assert_eq!(t.shape, vec![2]);
    assert_eq!(t.texts, vec![vec!['1', '2'], vec!['-', '3']]);
    let out = t.finish(&vec![Some(n(12.)), Some(n(-3.))]).unwrap();
    match out {
        Value::Num(a) => {
            assert_eq!(a.shape.sizes(), &[2]);
            assert_eq!(a.data, vec![n(12.), n(-3.)]);
        }
        _ => panic!("numbers expected"),
    }
    let list = boxes(vec![text("1"), Value::Box(Array::scalar(Boxed(text("2"))))]);
    let t = list.parse_num().unwrap();
    assert_eq!(t.shape, vec![2]);
    assert_eq!(t.texts, vec![vec!['1'], vec!['2']]);
}

#[test]
fn texts_of_numbers_that_cannot_be_read() {
    let t = text("x").parse_num().unwrap();
    assert_eq!(
        t.finish(&vec![None]).err().unwrap(),
        UiuaError::new(Op::Parse, ErrorKind::NotNumber)
    );
    assert_eq!(
        t.finish(&vec![]).err().unwrap(),
        UiuaError::new(Op::Parse, ErrorKind::ShapeMismatch)
    );
    assert_eq!(
        byte_list(&[1]).parse_num().err().unwrap(),
        UiuaError::new(Op::Parse, ErrorKind::WrongKind(Kind::Byte))
    );
    let table = Value::Char(Array::from_parts(&[2, 1], vec!['1', '2']));
    let mixed = boxes(vec![text("1"), table.duplicate()]);
    assert_eq!(
        mixed.parse_num().err().unwrap(),
        UiuaError::new(Op::Parse, ErrorKind::ShapeMismatch)
    );
    let wide = Value::Char(Array::from_parts(&[1, 2], vec!['1', '2']));
    assert_eq!(
        boxes(vec![table.duplicate(), wide]).parse_num().err().unwrap(),
        UiuaError::new(Op::Parse, ErrorKind::ShapeMismatch)
    );
    assert_eq!(
        boxes(vec![text("1"), byte_list(&[1])]).parse_num().err().unwrap(),
        UiuaError::new(Op::Parse, ErrorKind::WrongKind(Kind::Byte))
    );
    // a box without texts is told before boxes that differ in their sizes
    assert_eq!(
        boxes(vec![text("1"), table, byte_list(&[1])]).parse_num().err().unwrap(),
        UiuaError::new(Op::Parse, ErrorKind::WrongKind(Kind::Byte))
    );
}

#[test]
fn texts_of_numbers_in_boxed_tables() {
    let one = boxes(vec![Value::Char(Array::from_parts(&[2, 1], vec!['1', '2']))]);
    let t = one.parse_num().unwrap();
    assert_eq!(t.shape, vec![1, 2]);
    assert_eq!(t.texts, vec![vec!['1'], vec!['2']]);
    let a = Value::Char(Array::from_parts(&[2, 2], vec!['1', '2', '\u{af}', '3']));
    let b = Value::Char(Array::from_parts(&[2, 3], vec!['4', '.', '5', '6', '7', '8']));
    let t = boxes(vec![a.duplicate(), b.duplicate()]).parse_num().unwrap();
    assert_eq!(t.shape, vec![2, 2]);
    assert_eq!(
        t.texts,
        vec![vec!['1', '2'], vec!['-', '3'], vec!['4', '.', '5'], vec!['6', '7', '8']]
    );
    let out = t.finish(&vec![Some(n(12.)), Some(n(-3.)), Some(n(4.5)), Some(n(678.))]).unwrap();
    match out {
        Value::Num(r) => {
            assert_eq!(r.shape.sizes(), &[2, 2]);
            assert_eq!(r.data, vec![n(12.), n(-3.), n(4.5), n(678.)]);
        }
        _ => panic!("numbers expected"),
    }
    // boxes in boxes: the sizes of each level follow each other
    let lists = boxes(vec![boxes(vec![a.duplicate(), b.duplicate()]), boxes(vec![b, a])]);
    let t = lists.parse_num().unwrap();
    assert_eq!(t.shape, vec![2, 2, 2]);
    assert_eq!(t.texts.len(), 8);
    assert_eq!(t.texts[4], vec!['4', '.', '5']);
    assert_eq!(t.texts[7], vec!['-', '3']);
    let table = Value::Box(Array::from_parts(
        &[2, 1],
        vec![Boxed(text("7")), Boxed(text("8"))],
    ));
    let t = table.parse_num().unwrap();
    assert_eq!(t.shape, vec![2, 1]);
    assert_eq!(t.texts, vec![vec!['7'], vec!['8']]);
    let none = boxes(vec![]).parse_num().unwrap();
    assert_eq!(none.shape, vec![0]);
    assert_eq!(none.texts, Vec::<Vec<char>>::new());
}

#[test]
fn numbers_as_texts() {
    let v = Value::Num(Array::from_vec(vec![n(1.5), n(2.)]));
    let r = v.inv_parse(vec![vec!['1', '.', '5'], vec!['2']]).unwrap();
    match &r {
        Value::Box(b) => {
            assert_eq!(b.shape.sizes(), &[2]);
            assert_eq!(chars_of(&b.data[0].0), "1.5");
            assert_eq!(chars_of(&b.data[1].0), "2");
        }
        _ => panic!("box expected"),
    }
    let s = Value::Box(Array::scalar(Boxed(Value::Num(Array::scalar(n(3.))))));
    assert_eq!(chars_of(&s.inv_parse(vec![vec!['3']]).unwrap()), "3");
    assert_eq!(
        v.inv_parse(vec![vec!['1']]).err().unwrap(),
        UiuaError::new(Op::InverseParse, ErrorKind::ShapeMismatch)
    );
    assert_eq!(
        text("ab").inv_parse(vec![vec![], vec![]]).err().unwrap(),
        UiuaError::new(Op::InverseParse, ErrorKind::WrongKind(Kind::Char))
    );
}

#[test]
fn messages_of_errors() {
    let e = UiuaError::new(Op::First, ErrorKind::NoFill).fill();
    assert_eq!(e.message(), "Cannot first: empty array, no fill");
    assert!(e.is_fill());
    assert_eq!(
        UiuaError::new(Op::InverseWhere, ErrorKind::Rank(12)).message(),
        "Cannot invert where: the array has rank 12"
    );
    assert_eq!(
        UiuaError::new(Op::Unlast, ErrorKind::Mismatch(Kind::Char, Kind::Box)).message(),
        "Cannot invert last: cannot combine character and box"
    );
    assert_eq!(
        UiuaError::new(Op::Range, ErrorKind::TooLarge(Some(200000000))).message(),
        "Cannot range: the array would have 200000000 elements, which is too large"
    );
    assert_eq!(
        UiuaError::new(Op::Range, ErrorKind::TooLarge(None)).message(),
        "Cannot range: the array would have more elements than can be counted"
    );
    assert_eq!(
        UiuaError::new(Op::Range, ErrorKind::TooLarge(Some(60))).about(vec![2, 3, 10]).message(),
        "Cannot range: the array would have 60 elements, which is too large, \
         for the shape [2 \u{d7} 3 \u{d7} 10]"
    );
    assert_eq!(
        UiuaError::new(Op::Range, ErrorKind::TooLarge(None)).about(vec![7]).message(),
        "Cannot range: the array would have more elements than can be counted, \
         for the shape [7]"
    );
    assert_eq!(
        UiuaError::new(Op::Bits, ErrorKind::WrongKind(Kind::Complex)).message(),
        "Cannot bits: the array is a complex array"
    );
    assert_eq!(
        UiuaError::new(Op::Rise, ErrorKind::Scalar).message(),
        "Cannot rise: the array is a scalar"
    );
    assert_eq!(
        UiuaError::new(Op::Where, ErrorKind::NotNatural).message(),
        "Cannot where: the array must be made of natural numbers"
    );
    assert_eq!(
        UiuaError::new(Op::Bits, ErrorKind::NotIntegral).message(),
        "Cannot bits: the array must be made of whole numbers"
    );
    assert_eq!(
        UiuaError::new(Op::InverseBits, ErrorKind::NotBoolean).message(),
        "Cannot invert bits: the array must be made of 0s and 1s"
    );
    assert_eq!(
        UiuaError::new(Op::Unfirst, ErrorKind::ShapeMismatch).message(),
        "Cannot invert first: the shapes do not fit"
    );
    assert_eq!(
        UiuaError::new(Op::InverseUtf8, ErrorKind::InvalidUtf8).message(),
        "Cannot invert utf: the bytes are not valid UTF-8"
    );
    assert_eq!(
        UiuaError::new(Op::Parse, ErrorKind::NotNumber).message(),
        "Cannot parse: cannot parse into number"
    );
    let mut text = String::new();
    uiua::error::push_decimal(&mut text, 0);
    uiua::error::push_decimal(&mut text, 9081);
    assert_eq!(text, "09081");
}

#[test]
fn names_of_operations() {
    for (op, name) in [
        (Op::First, "first"),
        (Op::Last, "last"),
        (Op::Fall, "fall"),
        (Op::Classify, "classify"),
        (Op::MinIndex, "min index"),
        (Op::MaxIndex, "max index"),
        (Op::InverseParse, "invert parse"),
        (Op::Utf8, "utf"),
    ] {
        assert_eq!(op.op_name(), name);
    }
}

#[test]
fn values_are_checked_for_validity() {
    let good = boxes(vec![byte_list(&[1, 2]), text("hi")]);
    assert!(good.validate());
    let flags = Array::scalar(0u8).flags;
    let bad_array = Array { shape: uiua::shape::Shape::from_sizes(&[3]), data: vec![1u8], flags };
    assert!(!bad_array.validate());
    let bad = boxes(vec![byte_list(&[1, 2]), Value::Byte(bad_array)]);
    assert!(!bad.validate());
    assert!(Value::Num(Array::from_parts(&[2, 0], vec![])).validate());
}

#[test]
fn the_value_at_the_bottom_of_the_boxes() {
    let v = Value::Box(Array::scalar(Boxed(Value::Box(Array::scalar(Boxed(byte_list(&[5])))))));
    match v.innermost() {
        Value::Byte(a) => assert_eq!(a.data, vec![5]),
        _ => panic!("bytes expected"),
    }
    match v.into_innermost() {
        Value::Byte(a) => assert_eq!(a.data, vec![5]),
        _ => panic!("bytes expected"),
    }
    let list = boxes(vec![byte_list(&[5])]);
    assert_eq!(list.innermost().kind(), Kind::Box);
}

#[test]
fn bytes_widen_to_numbers_and_numbers_narrow_to_bits() {
    let b = Array::from_vec(vec![0u8, 1, 255]);
    let w = b.widen();
    assert_eq!(w.data, vec![n(0.), n(1.), n(255.)]);
    let bits = Array::from_vec(vec![n(1.), n(0.), n(-0.)]);
    assert_eq!(bits.narrow().unwrap().data, vec![1, 0, 0]);
    assert!(Array::from_vec(vec![n(2.)]).narrow().is_none());
    assert!(Array::from_vec(vec![n(0.5)]).narrow().is_none());
}

#[test]
fn command_of_a_text_or_a_table() {
    assert_eq!(value_to_command(&text("ls")).unwrap(), vec![vec!['l', 's']]);
    assert_eq!(value_to_command(&Value::Char(Array::scalar('x'))).unwrap(), vec![vec!['x']]);
    assert_eq!(value_to_command(&text("")).unwrap(), vec![Vec::<char>::new()]);
    let table = Value::Char(Array::from_parts(&[2, 3], vec!['g', 'i', 't', 'l', 'o', 'g']));
    assert_eq!(
        value_to_command(&table).unwrap(),
        vec![vec!['g', 'i', 't'], vec!['l', 'o', 'g']]
    );
    let narrow = Value::Char(Array::from_parts(&[2, 0], vec![]));
    assert_eq!(value_to_command(&narrow).unwrap(), vec![Vec::<char>::new(), Vec::new()]);
}

#[test]
fn command_of_boxed_texts() {
    let v = boxes(vec![text("echo"), Value::Char(Array::scalar('a')), text("bc")]);
    assert_eq!(
        value_to_command(&v).unwrap(),
        vec![vec!['e', 'c', 'h', 'o'], vec!['a'], vec!['b', 'c']]
    );
    let one = Value::Box(Array::scalar(Boxed(text("pwd"))));
    assert_eq!(value_to_command(&one).unwrap(), vec![vec!['p', 'w', 'd']]);
}

#[test]
fn command_of_what_names_none() {
    let error = |kind: ErrorKind| UiuaError::new(Op::Command, kind);
    assert_eq!(
        value_to_command(&byte_list(&[1])).err().unwrap(),
        error(ErrorKind::WrongKind(Kind::Byte))
    );
    let cube = Value::Char(Array::from_parts(&[1, 1, 2], vec!['a', 'b']));
    assert_eq!(value_to_command(&cube).err().unwrap(), error(ErrorKind::Rank(3)));
    let table = Value::Box(Array::from_parts(&[1, 1], vec![Boxed(text("a"))]));
    assert_eq!(value_to_command(&table).err().unwrap(), error(ErrorKind::Rank(2)));
    let mixed = boxes(vec![text("a"), byte_list(&[1]), boxes(vec![])]);
    assert_eq!(
        value_to_command(&mixed).err().unwrap(),
        error(ErrorKind::NotText(Kind::Byte))
    );
    let rows = boxes(vec![Value::Char(Array::from_parts(&[1, 1], vec!['a']))]);
    assert_eq!(
        value_to_command(&rows).err().unwrap(),
        error(ErrorKind::NotText(Kind::Char))
    );
    assert_eq!(value_to_command(&boxes(vec![])).err().unwrap(), error(ErrorKind::Empty));
    let none = Value::Char(Array::from_parts(&[0, 4], vec![]));
    assert_eq!(value_to_command(&none).err().unwrap(), error(ErrorKind::Empty));
    assert_eq!(
        error(ErrorKind::NotText(Kind::Box)).message(),
        "Cannot make a command: a box holds a box array that is no string"
    );
    assert_eq!(error(ErrorKind::Empty).message(), "Cannot make a command: the array is empty");
}
