//! The kinds of element that an array can hold.

use vstd::prelude::*;
use crate::error::Kind;
use crate::num::{num_of_nat, Complex, Num};
use crate::order::{int_order, lemma_lex_pair, lemma_lex_single, lex, Order};
use crate::value::{FillContext, Value, ValueView};

verus! {

/// An element of an array: a value with an order, which can be copied and
/// which a fill value can stand in for.
pub trait ArrayValue: View + Sized + Send + Sync {
    /// The integers by which elements are ordered, lexicographically, and
    /// told apart: two elements with one key count as the same.
    spec fn key(v: Self::V) -> Seq<int>;

    /// The kind of the elements
    spec fn element_kind() -> Kind;

    /// The element that the fill value gives, if it gives one of this kind
    spec fn fill_of(fill: Option<ValueView>) -> Option<Self::V>;

    /// The kind of the elements
    fn kind() -> (k: Kind)
        ensures
            k == Self::element_kind(),
    ;

    /// Compares two elements by their keys.
    fn compare(&self, other: &Self) -> (o: Order)
        ensures
            o == lex(Self::key(self@), Self::key(other@)),
    ;

    /// A copy of the element
    fn duplicate(&self) -> (r: Self)
        ensures
            r@ == self@,
    ;

    /// The element that the context's fill value gives, if it gives one of
    /// this kind
    fn get_fill(env: &FillContext) -> (r: Option<Self>)
        requires
            env.wf(),
        ensures
            match r {
                Some(x) => Self::fill_of(env.fill_view()) == Some(x@),
                None => Self::fill_of(env.fill_view()).is_none(),
            },
    ;
}

/// Compares two integers.
pub fn compare_keys(x: i128, y: i128) -> (o: Order)
    ensures
        o == int_order(x as int, y as int),
{
    if x < y {
        Order::Less
    } else if x > y {
        Order::Greater
    } else {
        Order::Equal
    }
}

impl View for Num {
    type V = Num;

    open spec fn view(&self) -> Num {
        *self
    }
}

impl View for Complex {
    type V = Complex;

    open spec fn view(&self) -> Complex {
        *self
    }
}

/// The only element of a scalar, if `a` is a scalar
pub open spec fn scalar_of<V>(a: crate::array::ArrayView<V>) -> Option<V> {
    if a.shape.sizes.len() == 0 && a.data.len() == 1 {
        Some(a.data[0])
    } else {
        None
    }
}

impl ArrayValue for Num {
    open spec fn key(v: Num) -> Seq<int> {
        seq![v.key()]
    }

    open spec fn element_kind() -> Kind {
        Kind::Num
    }

    /// A scalar number, or a scalar byte as a number
    open spec fn fill_of(fill: Option<ValueView>) -> Option<Num> {
        match fill {
            Some(ValueView::Num(a)) => scalar_of(a),
            Some(ValueView::Byte(a)) => match scalar_of(a) {
                Some(b) => Some(num_of_nat(b as nat)),
                None => None,
            },
            _ => None,
        }
    }

    fn kind() -> (k: Kind) {
        Kind::Num
    }

    fn compare(&self, other: &Self) -> (o: Order) {
        proof {
            lemma_lex_single(self.key(), other.key());
        }
        compare_keys(self.order_key(), other.order_key())
    }

    fn duplicate(&self) -> (r: Self) {
        *self
    }

    fn get_fill(env: &FillContext) -> (r: Option<Self>) {
        match &env.fill {
            Some(Value::Num(a)) => {
                if a.shape.rank() == 0 && a.data.len() == 1 {
                    Some(a.data[0])
                } else {
                    None
                }
            },
            Some(Value::Byte(a)) => {
                if a.shape.rank() == 0 && a.data.len() == 1 {
                    Some(Num::from_u128(a.data[0] as u128))
                } else {
                    None
                }
            },
            _ => None,
        }
    }
}

impl ArrayValue for u8 {
    open spec fn key(v: u8) -> Seq<int> {
        seq![v as int]
    }

    open spec fn element_kind() -> Kind {
        Kind::Byte
    }

    /// A scalar byte
    open spec fn fill_of(fill: Option<ValueView>) -> Option<u8> {
        match fill {
            Some(ValueView::Byte(a)) => scalar_of(a),
            _ => None,
        }
    }

    fn kind() -> (k: Kind) {
        Kind::Byte
    }

    fn compare(&self, other: &Self) -> (o: Order) {
        proof {
            lemma_lex_single(*self as int, *other as int);
        }
        compare_keys(*self as i128, *other as i128)
    }

    fn duplicate(&self) -> (r: Self) {
        *self
    }

    fn get_fill(env: &FillContext) -> (r: Option<Self>) {
        match &env.fill {
            Some(Value::Byte(a)) => {
                if a.shape.rank() == 0 && a.data.len() == 1 {
                    Some(a.data[0])
                } else {
                    None
                }
            },
            _ => None,
        }
    }
}

impl ArrayValue for char {
    open spec fn key(v: char) -> Seq<int> {
        seq![v as u32 as int]
    }

    open spec fn element_kind() -> Kind {
        Kind::Char
    }

    /// A scalar character
    open spec fn fill_of(fill: Option<ValueView>) -> Option<char> {
        match fill {
            Some(ValueView::Char(a)) => scalar_of(a),
            _ => None,
        }
    }

    fn kind() -> (k: Kind) {
        Kind::Char
    }

    fn compare(&self, other: &Self) -> (o: Order) {
        proof {
            lemma_lex_single(*self as u32 as int, *other as u32 as int);
        }
        compare_keys(*self as u32 as i128, *other as u32 as i128)
    }

    fn duplicate(&self) -> (r: Self) {
        *self
    }

    fn get_fill(env: &FillContext) -> (r: Option<Self>) {
        match &env.fill {
            Some(Value::Char(a)) => {
                if a.shape.rank() == 0 && a.data.len() == 1 {
                    Some(a.data[0])
                } else {
                    None
                }
            },
            _ => None,
        }
    }
}

impl ArrayValue for Complex {
    open spec fn key(v: Complex) -> Seq<int> {
        seq![v.re.key(), v.im.key()]
    }

    open spec fn element_kind() -> Kind {
        Kind::Complex
    }

    /// A scalar complex number, or a scalar number or byte as the real part
    /// of one
    open spec fn fill_of(fill: Option<ValueView>) -> Option<Complex> {
        match fill {
            Some(ValueView::Complex(a)) => scalar_of(a),
            Some(ValueView::Num(a)) => match scalar_of(a) {
                Some(n) => Some(Complex { re: n, im: Num { bits: 0 } }),
                None => None,
            },
            Some(ValueView::Byte(a)) => match scalar_of(a) {
                Some(b) => Some(Complex { re: num_of_nat(b as nat), im: Num { bits: 0 } }),
                None => None,
            },
            _ => None,
        }
    }

    fn kind() -> (k: Kind) {
        Kind::Complex
    }

    fn compare(&self, other: &Self) -> (o: Order) {
        proof {
            lemma_lex_pair(self.re.key(), self.im.key(), other.re.key(), other.im.key());
        }
        let first = compare_keys(self.re.order_key(), other.re.order_key());
        match first {
            Order::Equal => compare_keys(self.im.order_key(), other.im.order_key()),
            _ => first,
        }
    }

    fn duplicate(&self) -> (r: Self) {
        *self
    }

    fn get_fill(env: &FillContext) -> (r: Option<Self>) {
        match &env.fill {
            Some(Value::Complex(a)) => {
                if a.shape.rank() == 0 && a.data.len() == 1 {
                    Some(a.data[0])
                } else {
                    None
                }
            },
            Some(Value::Num(a)) => {
                if a.shape.rank() == 0 && a.data.len() == 1 {
                    Some(Complex { re: a.data[0], im: Num { bits: 0 } })
                } else {
                    None
                }
            },
            Some(Value::Byte(a)) => {
                if a.shape.rank() == 0 && a.data.len() == 1 {
                    Some(Complex { re: Num::from_u128(a.data[0] as u128), im: Num { bits: 0 } })
                } else {
                    None
                }
            },
            _ => None,
        }
    }
}

} // verus!
