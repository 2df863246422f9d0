//! Values as text: UTF-8 bytes, and the texts of numbers.

use vstd::prelude::*;
use vstd::std_specs::iter::IteratorSpec;
use vstd::utf8::{decode_utf8, encode_utf8, valid_utf8};
use crate::array::{
    agrees, checked_count, count, lemma_count_concat, list_view, plain_view, views, Array,
    ArrayView,
};
use crate::algorithm::deep::unboxed;
use crate::error::{ErrorKind, ErrorView, Op, UiuaError, failure};
use crate::num::Num;
use crate::text::{decode_text, encode_text};
use crate::value::{lemma_value_view, value_wf, Boxed, Value, ValueView};

verus! {

/// What the UTF-8 bytes of a value are: the value at the bottom of its
/// boxes is a character or a list of characters, and the result the list
/// of the bytes that encode them. Any other value is an error.
pub open spec fn utf8_model(v: ValueView) -> Result<ValueView, ErrorView> {
    match unboxed(v) {
        ValueView::Char(a) => if a.shape.sizes.len() <= 1 {
            Ok(ValueView::Byte(list_view(encode_utf8(a.data))))
        } else {
            Err(
                failure(Op::Utf8, ErrorKind::Rank(a.shape.sizes.len() as usize)),
            )
        },
        w => Err(failure(Op::Utf8, ErrorKind::WrongKind(w.kind()))),
    }
}

/// Every one of the numbers is a natural that a byte holds.
pub open spec fn all_bytes(s: Seq<Num>) -> bool {
    forall|i: int|
        0 <= i < s.len() ==> (#[trigger] s[i]).index_value().is_some() && s[i].index_value().unwrap()
            <= 255
}

/// The bytes that a value of bytes holds, or a value of numbers of which
/// each is a natural that a byte holds; an error for a value of more than
/// one dimension, of another kind, or of other numbers
pub open spec fn byte_list(v: ValueView) -> Result<Seq<u8>, ErrorView> {
    match v {
        ValueView::Byte(a) => if a.shape.sizes.len() <= 1 {
            Ok(a.data)
        } else {
            Err(
                failure(Op::InverseUtf8, ErrorKind::Rank(a.shape.sizes.len() as usize)),
            )
        },
        ValueView::Num(a) => if a.shape.sizes.len() > 1 {
            Err(
                failure(Op::InverseUtf8, ErrorKind::Rank(a.shape.sizes.len() as usize)),
            )
        } else if !all_bytes(a.data) {
            Err(failure(Op::InverseUtf8, ErrorKind::NotNatural))
        } else {
            Ok(Seq::new(a.data.len(), |i: int| a.data[i].index_value().unwrap() as u8))
        },
        _ => Err(
            failure(Op::InverseUtf8, ErrorKind::WrongKind(v.kind())),
        ),
    }
}

/// What the text is that the bytes of a value encode: a list of
/// characters. It is an error where the value is no list of bytes, and
/// where the bytes are not the UTF-8 encoding of a text.
pub open spec fn inverse_utf8_model(v: ValueView) -> Result<ValueView, ErrorView> {
    match byte_list(v) {
        Ok(bytes) => if valid_utf8(bytes) {
            Ok(ValueView::Char(list_view(decode_utf8(bytes))))
        } else {
            Err(failure(Op::InverseUtf8, ErrorKind::InvalidUtf8))
        },
        Err(e) => Err(e),
    }
}

/// The text that stands for the character `c` in the text of a number: a
/// minus sign for the two signs of negation, the digits of the constant
/// for the name of a constant, and the character itself for any other.
pub open spec fn token_text(c: char) -> Seq<char> {
    if c == '\u{af}' || c == '`' {
        "-"@
    } else if c == '\u{3b7}' {
        "1.5707963267948966"@
    } else if c == '\u{3c0}' {
        "3.141592653589793"@
    } else if c == '\u{3c4}' {
        "6.283185307179586"@
    } else if c == '\u{221e}' {
        "inf"@
    } else {
        seq![c]
    }
}

/// The text of a number with each of its characters replaced by the text
/// that stands for it
pub open spec fn prepared(s: Seq<char>) -> Seq<char>
    decreases s.len(),
{
    if s.len() == 0 {
        s
    } else {
        prepared(s.drop_last()) + token_text(s.last())
    }
}

/// Adds the characters of `text` to `out`.
pub fn push_chars(out: &mut Vec<char>, text: &str)
    ensures
        final(out)@ == old(out)@ + text@,
{
    broadcast use vstd::string::axiom_spec_iter, vstd::string::next_postcondition;

    let ghost start = out@;
    let mut chars = text.chars();
    let mut more = true;
    while more
        invariant
            out@.len() >= start.len(),
            out@.subrange(0, start.len() as int) == start,
            out@.subrange(start.len() as int, out@.len() as int) + chars.remaining() == text@,
            !more ==> chars.remaining().len() == 0,
        decreases
                text@.len() - (out@.len() - start.len()) + if more {
                    1int
                } else {
                    0int
                },
    {
        let ghost before = out@;
        match chars.next() {
            Some(c) => {
                out.push(c);
                assert(out@.subrange(0, start.len() as int) =~= start);
                assert(out@.subrange(start.len() as int, out@.len() as int) + chars.remaining()
                    =~= text@);
            },
            None => {
                more = false;
            },
        }
    }
    assert(out@ =~= start + text@);
}

/// The text of a number, made ready to be read: with each character
/// replaced by the text that stands for it.
pub fn prepare_number_text(chars: &[char]) -> (r: Vec<char>)
    ensures
        r@ == prepared(chars@),
{
    let mut out: Vec<char> = Vec::new();
    let mut i: usize = 0;
    assert(chars@.subrange(0, 0) =~= Seq::<char>::empty());
    while i < chars.len()
        invariant
            i <= chars@.len(),
            out@ == prepared(chars@.subrange(0, i as int)),
        decreases chars@.len() - i,
    {
        let c = chars[i];
        proof {
            let next = chars@.subrange(0, i + 1);
            assert(next.drop_last() =~= chars@.subrange(0, i as int));
            assert(next.last() == c);
        }
        if c == '\u{af}' || c == '`' {
            push_chars(&mut out, "-");
        } else if c == '\u{3b7}' {
            push_chars(&mut out, "1.5707963267948966");
        } else if c == '\u{3c0}' {
            push_chars(&mut out, "3.141592653589793");
        } else if c == '\u{3c4}' {
            push_chars(&mut out, "6.283185307179586");
        } else if c == '\u{221e}' {
            push_chars(&mut out, "inf");
        } else {
            out.push(c);
            assert(out@ =~= prepared(chars@.subrange(0, i as int)) + seq![c]);
        }
        i += 1;
    }
    assert(chars@.subrange(0, chars@.len() as int) =~= chars@);
    out
}

impl Value {
    /// Convert a string value to a list of UTF-8 bytes
    pub fn utf8(&self) -> (r: Result<Value, UiuaError>)
        requires
            self.wf(),
        ensures
            agrees(r, utf8_model(self@)),
            r is Ok ==> r->Ok_0.wf(),
    {
        let inner = self.innermost();
        proof {
            lemma_value_view(*inner);
        }
        match inner {
            Value::Char(a) => {
                let rank = a.shape.rank();
                if rank > 1 {
                    return Err(UiuaError::new(Op::Utf8, ErrorKind::Rank(rank)));
                }
                let bytes = encode_text(&a.data);
                let v = Value::Byte(Array::from_vec(bytes));
                proof {
                    lemma_value_view(v);
                    assert(views(a.data@) =~= a.data@);
                    assert(views(bytes@) =~= bytes@);
                }
                Ok(v)
            },
            other => Err(
                UiuaError::new(Op::Utf8, ErrorKind::WrongKind(other.kind())),
            ),
        }
    }

    /// The bytes that the value holds.
    pub fn as_bytes(&self) -> (r: Result<Vec<u8>, UiuaError>)
        requires
            self.wf(),
        ensures
            match r {
                Ok(bytes) => byte_list(self@) == Ok::<Seq<u8>, ErrorView>(bytes@),
                Err(e) => byte_list(self@) == Err::<Seq<u8>, ErrorView>(e@),
            },
    {
        proof {
            lemma_value_view(*self);
        }
        match self {
            Value::Byte(a) => {
                let rank = a.shape.rank();
                if rank > 1 {
                    return Err(
                        UiuaError::new(Op::InverseUtf8, ErrorKind::Rank(rank)),
                    );
                }
                let bytes = a.data.clone();
                assert(bytes@ =~= a.data@);
                assert(views(a.data@) =~= a.data@);
                Ok(bytes)
            },
            Value::Num(a) => {
                let rank = a.shape.rank();
                if rank > 1 {
                    return Err(
                        UiuaError::new(Op::InverseUtf8, ErrorKind::Rank(rank)),
                    );
                }
                assert(views(a.data@) =~= a.data@);
                let mut bytes: Vec<u8> = Vec::with_capacity(a.data.len());
                let mut i: usize = 0;
                while i < a.data.len()
                    invariant
                        i <= a.data@.len(),
                        bytes@.len() == i,
                        a@.data == a.data@,
                        self@ == ValueView::Num(a@),
                        a@.shape.sizes.len() <= 1,
                        forall|k: int|
                            0 <= k < i ==> (#[trigger] a.data@[k]).index_value().is_some()
                                && a.data@[k].index_value().unwrap() <= 255,
                        forall|k: int|
                            0 <= k < i ==> #[trigger] bytes@[k] == a.data@[k].index_value().unwrap()
                                as u8,
                    decreases a.data@.len() - i,
                {
                    match a.data[i].as_nat() {
                        Some(n) => {
                            if n > 255 {
                                assert(!(a@.data[i as int].index_value().unwrap() <= 255));
                                return Err(
                                    UiuaError::new(Op::InverseUtf8, ErrorKind::NotNatural),
                                );
                            }
                            bytes.push(n as u8);
                        },
                        None => {
                            assert(a@.data[i as int].index_value().is_none());
                            return Err(
                                UiuaError::new(Op::InverseUtf8, ErrorKind::NotNatural),
                            );
                        },
                    }
                    i += 1;
                }
                assert(bytes@ =~= byte_list(self@)->Ok_0);
                Ok(bytes)
            },
            _ => Err(
                UiuaError::new(Op::InverseUtf8, ErrorKind::WrongKind(self.kind())),
            ),
        }
    }

    /// Convert a list of UTF-8 bytes to a string value
    pub fn inv_utf8(&self) -> (r: Result<Value, UiuaError>)
        requires
            self.wf(),
        ensures
            agrees(r, inverse_utf8_model(self@)),
            r is Ok ==> r->Ok_0.wf(),
    {
        let bytes = match self.as_bytes() {
            Ok(bytes) => bytes,
            Err(e) => {
                return Err(e);
            },
        };
        match decode_text(&bytes) {
            Some(chars) => {
                let v = Value::Char(Array::from_vec(chars));
                proof {
                    lemma_value_view(v);
                    assert(views(chars@) =~= chars@);
                }
                Ok(v)
            },
            None => Err(
                UiuaError::new(Op::InverseUtf8, ErrorKind::InvalidUtf8),
            ),
        }
    }
}

/// The texts of the numbers of a value, and the sizes of the array that
/// the numbers make
pub struct NumberTexts {
    /// The sizes of the array of numbers
    pub shape: Vec<usize>,
    /// The text of each number, in row-major order
    pub texts: Vec<Vec<char>>,
}

/// What the texts of the numbers of a value are
pub struct TextsView {
    pub sizes: Seq<usize>,
    pub texts: Seq<Seq<char>>,
}

impl View for NumberTexts {
    type V = TextsView;

    open spec fn view(&self) -> TextsView {
        TextsView { sizes: self.shape@, texts: Seq::new(self.texts@.len(), |i: int| self.texts@[i]@) }
    }
}

/// The texts of the rows of characters along the last axis of an array
pub open spec fn row_texts(a: ArrayView<char>) -> Seq<Seq<char>> {
    let w = a.shape.sizes.last() as int;
    Seq::new(
        count(a.shape.sizes.drop_last()),
        |i: int| prepared(a.data.subrange(i * w, i * w + w)),
    )
}

/// The texts of the numbers of each of the values from place `from` on,
/// value by value; the first error where one of them has none
pub open spec fn each_texts(s: Seq<ValueView>, from: int) -> Result<Seq<TextsView>, ErrorView>
    decreases s, s.len() - from,
{
    if from < 0 || from >= s.len() {
        Ok(Seq::empty())
    } else {
        match number_texts(s[from]) {
            Err(e) => Err(e),
            Ok(t) => match each_texts(s, from + 1) {
                Err(e) => Err(e),
                Ok(rest) => Ok(seq![t] + rest),
            },
        }
    }
}

/// The numbers of every one of the values make arrays of the same sizes.
pub open spec fn same_sizes(ts: Seq<TextsView>) -> bool {
    forall|i: int| 0 <= i < ts.len() ==> (#[trigger] ts[i]).sizes == ts[0].sizes
}

/// The sizes that the numbers of each of the values have; none where
/// there is no value
pub open spec fn inner_sizes(ts: Seq<TextsView>) -> Seq<usize> {
    if ts.len() == 0 {
        Seq::empty()
    } else {
        ts[0].sizes
    }
}

/// The texts of all the values, one value after the other
pub open spec fn joined_texts(ts: Seq<TextsView>) -> Seq<Seq<char>>
    decreases ts.len(),
{
    if ts.len() == 0 {
        Seq::empty()
    } else {
        joined_texts(ts.drop_last()) + ts.last().texts
    }
}

/// What the texts are of the numbers that a value stands for, made ready
/// to be read. A character or a list of characters is the text of one
/// number. An array of characters of more dimensions holds a text in each
/// row along its last axis. A scalar box stands for what it holds. Any
/// other box array stands for the numbers of all its boxes, which must
/// make arrays of the same sizes: those sizes follow the sizes of the box
/// array, and the texts of the boxes follow each other. It is an error for
/// any other kind of value, in a box as well; for more rows of characters
/// than a machine word counts; and, where every box has texts, for boxes
/// whose numbers differ in their sizes.
pub open spec fn number_texts(v: ValueView) -> Result<TextsView, ErrorView>
    decreases v, 0nat,
{
    match v {
        ValueView::Char(a) => if a.shape.sizes.len() <= 1 {
            Ok(TextsView { sizes: Seq::empty(), texts: seq![prepared(a.data)] })
        } else if count(a.shape.sizes.drop_last()) > usize::MAX {
            Err(failure(Op::Parse, ErrorKind::TooLarge(None)))
        } else {
            Ok(TextsView { sizes: a.shape.sizes.drop_last(), texts: row_texts(a) })
        },
        ValueView::Box(a) => if a.shape.sizes.len() == 0 && a.data.len() == 1 {
            number_texts(a.data[0])
        } else {
            match each_texts(a.data, 0) {
                Err(e) => Err(e),
                Ok(ts) => if same_sizes(ts) {
                    Ok(
                        TextsView {
                            sizes: a.shape.sizes + inner_sizes(ts),
                            texts: joined_texts(ts),
                        },
                    )
                } else {
                    Err(failure(Op::Parse, ErrorKind::ShapeMismatch))
                },
            }
        },
        _ => Err(failure(Op::Parse, ErrorKind::WrongKind(v.kind()))),
    }
}

/// Where every value from place `from` on has texts, `each_texts` holds
/// the texts of each, in order.
pub proof fn lemma_each_texts(s: Seq<ValueView>, from: int)
    requires
        0 <= from <= s.len(),
        each_texts(s, from) is Ok,
    ensures
        each_texts(s, from)->Ok_0.len() == s.len() - from,
        forall|i: int|
            0 <= i < s.len() - from ==> number_texts(#[trigger] s[from + i]) == Ok::<
                TextsView,
                ErrorView,
            >(each_texts(s, from)->Ok_0[i]),
    decreases s.len() - from,
{
    if from < s.len() {
        lemma_each_texts(s, from + 1);
        let rest = each_texts(s, from + 1)->Ok_0;
        let all = each_texts(s, from)->Ok_0;
        assert(all =~= seq![number_texts(s[from])->Ok_0] + rest);
        assert forall|i: int| 0 <= i < s.len() - from implies number_texts(#[trigger] s[from + i])
            == Ok::<TextsView, ErrorView>(all[i]) by {
            if i > 0 {
                assert(s[from + i] == s[(from + 1) + (i - 1)]);
                assert(all[i] == rest[i - 1]);
            }
        }
    }
}

/// Values whose numbers all have `each` texts have that many texts for
/// every value, taken together.
pub proof fn lemma_joined_texts(ts: Seq<TextsView>, each: nat)
    requires
        forall|i: int| 0 <= i < ts.len() ==> (#[trigger] ts[i]).texts.len() == each,
    ensures
        joined_texts(ts).len() == ts.len() * each,
    decreases ts.len(),
{
    if ts.len() > 0 {
        let front = ts.drop_last();
        assert forall|i: int| 0 <= i < front.len() implies (#[trigger] front[i]).texts.len()
            == each by {
            assert(front[i] == ts[i]);
        }
        lemma_joined_texts(front, each);
        assert(ts.last() == ts[ts.len() - 1]);
        assert((ts.len() - 1) * each + each == ts.len() * each) by (nonlinear_arith);
    } else {
        assert(0 * each == 0);
    }
}

/// The texts of the numbers of a valid value are as many as the numbers
/// of an array of the sizes that go with them.
pub proof fn lemma_texts_count(v: ValueView)
    requires
        value_wf(v),
        number_texts(v) is Ok,
    ensures
        number_texts(v)->Ok_0.texts.len() == count(number_texts(v)->Ok_0.sizes),
    decreases v,
{
    match v {
        ValueView::Char(a) => {
            assert(count(Seq::<usize>::empty()) == 1);
        },
        ValueView::Box(a) => {
            if a.shape.sizes.len() == 0 && a.data.len() == 1 {
                assert(value_wf(a.data[0]));
                lemma_texts_count(a.data[0]);
            } else {
                let ts = each_texts(a.data, 0)->Ok_0;
                let inner = inner_sizes(ts);
                lemma_each_texts(a.data, 0);
                lemma_count_concat(a.shape.sizes, inner);
                assert forall|i: int| 0 <= i < ts.len() implies (#[trigger] ts[i]).texts.len()
                    == count(inner) by {
                    assert(value_wf(a.data[i]));
                    assert(number_texts(a.data[0 + i]) == Ok::<TextsView, ErrorView>(ts[i]));
                    lemma_texts_count(a.data[i]);
                    assert(ts[i].sizes == ts[0].sizes);
                }
                lemma_joined_texts(ts, count(inner));
            }
        },
        _ => {},
    }
}

/// Whether two lists of sizes are the same.
pub fn sizes_agree(a: &Vec<usize>, b: &Vec<usize>) -> (r: bool)
    ensures
        r == (a@ == b@),
{
    if a.len() != b.len() {
        return false;
    }
    let mut i: usize = 0;
    while i < a.len()
        invariant
            i <= a@.len(),
            a@.len() == b@.len(),
            forall|k: int| 0 <= k < i ==> a@[k] == b@[k],
        decreases a@.len() - i,
    {
        if a[i] != b[i] {
            return false;
        }
        i += 1;
    }
    assert(a@ =~= b@);
    true
}

/// The numbers that were read, where every text was read as one
pub open spec fn all_read(numbers: Seq<Option<Num>>) -> bool {
    forall|i: int| 0 <= i < numbers.len() ==> (#[trigger] numbers[i]).is_some()
}

/// What the value is that the texts of numbers give, once they are read:
/// an array of the numbers. It is an error where a text was not read as a
/// number, and where the numbers are not as many as the texts, or as the
/// sizes ask for.
pub open spec fn parsed_model(t: TextsView, numbers: Seq<Option<Num>>) -> Result<
    ValueView,
    ErrorView,
> {
    if numbers.len() != t.texts.len() || numbers.len() != count(t.sizes) {
        Err(failure(Op::Parse, ErrorKind::ShapeMismatch))
    } else if !all_read(numbers) {
        Err(failure(Op::Parse, ErrorKind::NotNumber))
    } else {
        Ok(
            ValueView::Num(
                plain_view(t.sizes, Seq::new(numbers.len(), |i: int| numbers[i].unwrap())),
            ),
        )
    }
}

/// What the value is that holds the numbers of a value as texts: for a
/// scalar at the bottom of the boxes, the list of the characters of its
/// text; for an array of numbers, of bytes or of complex numbers, a box
/// array of the same shape with the text of each element. It is an error
/// for an array of any other kind, and where the texts are not as many as
/// the elements.
pub open spec fn inverse_parse_model(v: ValueView, texts: Seq<Seq<char>>) -> Result<
    ValueView,
    ErrorView,
> {
    let inner = unboxed(v);
    if inner.shape().sizes.len() == 0 {
        if texts.len() == 1 {
            Ok(ValueView::Char(list_view(texts[0])))
        } else {
            Err(failure(Op::InverseParse, ErrorKind::ShapeMismatch))
        }
    } else if !(inner is Num || inner is Byte || inner is Complex) {
        Err(
            failure(Op::InverseParse, ErrorKind::WrongKind(inner.kind())),
        )
    } else if texts.len() != inner.len() {
        Err(failure(Op::InverseParse, ErrorKind::ShapeMismatch))
    } else {
        Ok(
            ValueView::Box(
                ArrayView {
                    shape: inner.shape(),
                    data: Seq::new(texts.len(), |i: int| ValueView::Char(list_view(texts[i]))),
                    boolean: false,
                },
            ),
        )
    }
}

impl Value {
    /// The texts of the numbers that the value stands for, made ready to
    /// be read
    pub fn parse_num(&self) -> (r: Result<NumberTexts, UiuaError>)
        requires
            self.wf(),
        ensures
            agrees(r, number_texts(self@)),
        decreases self,
    {
        proof {
            lemma_value_view(*self);
        }
        match self {
            Value::Char(a) => {
                let rank = a.shape.rank();
                assert(views(a.data@) =~= a.data@);
                if rank <= 1 {
                    let text = prepare_number_text(a.data.as_slice());
                    let mut texts: Vec<Vec<char>> = Vec::new();
                    texts.push(text);
                    let r = NumberTexts { shape: Vec::new(), texts };
                    assert(r@.texts =~= seq![prepared(a.data@)]);
                    assert(r@.sizes =~= Seq::<usize>::empty());
                    return Ok(r);
                }
                let sizes = a.shape.sizes();
                let w = sizes[rank - 1];
                let rows = match checked_count(sizes, 0, rank - 1) {
                    Some(rows) => rows,
                    None => {
                        assert(sizes@.subrange(0, rank - 1) =~= sizes@.drop_last());
                        return Err(
                            UiuaError::new(Op::Parse, ErrorKind::TooLarge(None)),
                        );
                    },
                };
                proof {
                    assert(sizes@.subrange(0, rank - 1) =~= sizes@.drop_last());
                    assert(a.data@.len() == rows * w);
                }
                let ghost goal = row_texts(a@);
                let mut texts: Vec<Vec<char>> = Vec::with_capacity(rows);
                let mut i: usize = 0;
                while i < rows
                    invariant
                        i <= rows,
                        a.data@.len() == rows * w,
                        a@.data == a.data@,
                        w == a@.shape.sizes.last(),
                        goal == row_texts(a@),
                        goal.len() == rows,
                        texts@.len() == i,
                        forall|k: int| 0 <= k < i ==> (#[trigger] texts@[k])@ == goal[k],
                    decreases rows - i,
                {
                    proof {
                        crate::index::lemma_row_bounds(i as int, w as int, rows as int);
                        assert(a.data@.len() == a.data.len());
                    }
                    let row = vstd::slice::slice_subrange(a.data.as_slice(), i * w, i * w + w);
                    texts.push(prepare_number_text(row));
                    i += 1;
                }
                let mut shape: Vec<usize> = Vec::with_capacity(rank - 1);
                let mut j: usize = 0;
                while j < rank - 1
                    invariant
                        j <= rank - 1,
                        rank == sizes@.len(),
                        shape@ == sizes@.subrange(0, j as int),
                    decreases rank - 1 - j,
                {
                    shape.push(sizes[j]);
                    assert(shape@ =~= sizes@.subrange(0, j + 1));
                    j += 1;
                }
                let r = NumberTexts { shape, texts };
                assert(r@.texts =~= goal);
                Ok(r)
            },
            Value::Box(a) => {
                let ghost items = self@->Box_0.data;
                let n = a.data.len();
                proof {
                    assert(self->Box_0 == *a);
                    assert(decreases_to!(*self => self->Box_0));
                    assert(decreases_to!(*a => a.data));
                    assert forall|k: int| 0 <= k < n implies decreases_to!(*self => (
                    #[trigger] a.data@[k]).0) && items[k] == a.data@[k]@ && value_wf(
                        a.data@[k]@,
                    ) by {
                        assert(decreases_to!(a.data => a.data[k]));
                        assert(decreases_to!(a.data[k] => a.data[k].0));
                        assert(value_wf(items[k]));
                    }
                }
                if a.shape.rank() == 0 && n == 1 {
                    return a.data[0].0.parse_num();
                }
                let mut texts: Vec<Vec<char>> = Vec::new();
                let mut first: Vec<usize> = Vec::new();
                let mut same = true;
                let ghost mut done: Seq<TextsView> = Seq::empty();
                let mut i: usize = 0;
                proof {
                    assert(Seq::<TextsView>::empty() + each_texts(items, 0)->Ok_0 =~= each_texts(
                        items,
                        0,
                    )->Ok_0);
                }
                while i < n
                    invariant
                        i <= n,
                        n == a.data@.len(),
                        items.len() == n,
                        done.len() == i,
                        self@ is Box,
                        self@->Box_0.data == items,
                        self@->Box_0.shape == a.shape@,
                        !(a.shape@.sizes.len() == 0 && n == 1),
                        forall|k: int|
                            0 <= k < n ==> decreases_to!(*self => (#[trigger] a.data@[k]).0)
                                && items[k] == a.data@[k]@ && value_wf(a.data@[k]@),
                        match each_texts(items, i as int) {
                            Ok(rest) => each_texts(items, 0) == Ok::<Seq<TextsView>, ErrorView>(
                                done + rest,
                            ),
                            Err(e) => each_texts(items, 0) == Err::<Seq<TextsView>, ErrorView>(e),
                        },
                        Seq::new(texts@.len(), |k: int| texts@[k]@) == joined_texts(done),
                        same == same_sizes(done),
                        first@ == inner_sizes(done),
                    decreases n - i,
                {
                    assert(decreases_to!(*self => a.data@[i as int].0));
                    assert(value_wf(a.data@[i as int]@));
                    proof {
                        assert(items[i as int] == a.data@[i as int]@);
                        // how the texts from here on are put together
                        assert(each_texts(items, i as int) == match number_texts(items[i as int]) {
                            Err(e) => Err::<Seq<TextsView>, ErrorView>(e),
                            Ok(t) => match each_texts(items, i + 1) {
                                Err(e) => Err(e),
                                Ok(rest) => Ok(seq![t] + rest),
                            },
                        });
                    }
                    match a.data[i].0.parse_num() {
                        Ok(t) => {
                            let ghost before = Seq::new(texts@.len(), |k: int| texts@[k]@);
                            let ghost here = t@;
                            let inner = t.shape;
                            let mut held = t.texts;
                            if i == 0 {
                                first = inner;
                            } else if !sizes_agree(&first, &inner) {
                                same = false;
                            }
                            texts.append(&mut held);
                            proof {
                                let now = done.push(here);
                                assert(now.drop_last() =~= done);
                                assert(now.last() == here);
                                assert(Seq::new(texts@.len(), |k: int| texts@[k]@) =~= before
                                    + here.texts);
                                assert(same_sizes(now) == (same_sizes(done) && here.sizes
                                    == now[0].sizes)) by {
                                    if same_sizes(done) && here.sizes == now[0].sizes {
                                        assert forall|k: int| 0 <= k < now.len() implies (
                                        #[trigger] now[k]).sizes == now[0].sizes by {
                                            if k < done.len() {
                                                assert(now[k] == done[k]);
                                                assert(now[0] == done[0]);
                                            }
                                        }
                                    }
                                    if same_sizes(now) {
                                        assert(now[i as int].sizes == now[0].sizes);
                                        assert forall|k: int| 0 <= k < done.len() implies (
                                        #[trigger] done[k]).sizes == done[0].sizes by {
                                            assert(now[k] == done[k]);
                                            assert(now[0] == done[0]);
                                        }
                                    }
                                }
                                match each_texts(items, i + 1) {
                                    Ok(rest) => {
                                        assert(done + (seq![here] + rest) =~= now + rest);
                                    },
                                    Err(e) => {},
                                }
                                done = now;
                            }
                        },
                        Err(e) => {
                            return Err(e);
                        },
                    }
                    i += 1;
                }
                proof {
                    assert(done + Seq::<TextsView>::empty() =~= done);
                }
                if !same {
                    return Err(UiuaError::new(Op::Parse, ErrorKind::ShapeMismatch));
                }
                let sizes = a.shape.sizes();
                let mut shape: Vec<usize> = Vec::new();
                let mut j: usize = 0;
                while j < sizes.len()
                    invariant
                        j <= sizes@.len(),
                        shape@ == sizes@.subrange(0, j as int),
                    decreases sizes@.len() - j,
                {
                    shape.push(sizes[j]);
                    assert(shape@ =~= sizes@.subrange(0, j + 1));
                    j += 1;
                }
                let mut j: usize = 0;
                while j < first.len()
                    invariant
                        j <= first@.len(),
                        shape@ == sizes@ + first@.subrange(0, j as int),
                    decreases first@.len() - j,
                {
                    shape.push(first[j]);
                    assert(shape@ =~= sizes@ + first@.subrange(0, j + 1));
                    j += 1;
                }
                let r = NumberTexts { shape, texts };
                proof {
                    assert(first@.subrange(0, first@.len() as int) =~= first@);
                }
                Ok(r)
            },
            _ => Err(UiuaError::new(Op::Parse, ErrorKind::WrongKind(self.kind()))),
        }
    }

    /// The value that holds the numbers of this one as texts, given the
    /// text of each element of the array at the bottom of its boxes
    pub fn inv_parse(&self, texts: Vec<Vec<char>>) -> (r: Result<Value, UiuaError>)
        requires
            self.wf(),
        ensures
            agrees(r, inverse_parse_model(self@, Seq::new(texts@.len(), |i: int| texts@[i]@))),
            r is Ok ==> r->Ok_0.wf(),
    {
        let ghost given = Seq::new(texts@.len(), |i: int| texts@[i]@);
        let inner = self.innermost();
        proof {
            lemma_value_view(*inner);
        }
        let mismatch = UiuaError::new(Op::InverseParse, ErrorKind::ShapeMismatch);
        let mut texts = texts;
        if inner.rank() == 0 {
            if texts.len() != 1 {
                return Err(mismatch);
            }
            return match texts.pop() {
                Some(text) => {
                    let v = Value::Char(Array::from_vec(text));
                    proof {
                        lemma_value_view(v);
                        assert(views(text@) =~= text@);
                    }
                    Ok(v)
                },
                None => Err(mismatch),
            };
        }
        let n = match inner {
            Value::Num(a) => a.data.len(),
            Value::Byte(a) => a.data.len(),
            Value::Complex(a) => a.data.len(),
            other => {
                return Err(
                    UiuaError::new(Op::InverseParse, ErrorKind::WrongKind(other.kind())),
                );
            },
        };
        if texts.len() != n {
            return Err(mismatch);
        }
        let mut boxes: Vec<Boxed> = Vec::with_capacity(n);
        let mut i: usize = n;
        // the texts are taken from the end, and put in order afterwards
        while i > 0
            invariant
                i <= n,
                texts@.len() == i,
                boxes@.len() == n - i,
                given.len() == n,
                forall|k: int| 0 <= k < i ==> (#[trigger] texts@[k])@ == given[k],
                forall|k: int|
                    0 <= k < n - i ==> (#[trigger] boxes@[k])@ == ValueView::Char(
                        list_view(given[n - 1 - k]),
                    ) && value_wf(boxes@[k]@),
            decreases i,
        {
            match texts.pop() {
                Some(text) => {
                    let v = Value::Char(Array::from_vec(text));
                    proof {
                        lemma_value_view(v);
                        assert(views(text@) =~= text@);
                    }
                    boxes.push(Boxed(v));
                },
                None => {},
            }
            i -= 1;
        }
        let mut data: Vec<Boxed> = Vec::with_capacity(n);
        let mut k: usize = 0;
        while k < n
            invariant
                k <= n,
                boxes@.len() == n - k,
                data@.len() == k,
                given.len() == n,
                forall|j: int|
                    0 <= j < n - k ==> (#[trigger] boxes@[j])@ == ValueView::Char(
                        list_view(given[n - 1 - j]),
                    ) && value_wf(boxes@[j]@),
                forall|j: int|
                    0 <= j < k ==> (#[trigger] data@[j])@ == ValueView::Char(list_view(given[j]))
                        && value_wf(data@[j]@),
            decreases n - k,
        {
            match boxes.pop() {
                Some(b) => {
                    data.push(b);
                },
                None => {},
            }
            k += 1;
        }
        let shape = inner.shape().clone();
        let v = Value::Box(Array { shape, data, flags: crate::array::ArrayFlags { boolean: false } });
        proof {
            lemma_value_view(v);
            crate::algorithm::wher::lemma_shape_len(inner@);
            let goal = inverse_parse_model(self@, given)->Ok_0;
            assert(v@->Box_0.data =~= goal->Box_0.data);
        }
        Ok(v)
    }
}

impl NumberTexts {
    /// The value that the texts give, once they are read as numbers
    pub fn finish(&self, numbers: &Vec<Option<Num>>) -> (r: Result<Value, UiuaError>)
        ensures
            agrees(r, parsed_model(self@, numbers@)),
            r is Ok ==> r->Ok_0.wf(),
    {
        let mismatch = UiuaError::new(Op::Parse, ErrorKind::ShapeMismatch);
        let sizes = self.shape.as_slice();
        assert(sizes@.subrange(0, sizes@.len() as int) =~= sizes@);
        if numbers.len() != self.texts.len() {
            return Err(mismatch);
        }
        match checked_count(sizes, 0, sizes.len()) {
            Some(n) => {
                if n != numbers.len() {
                    return Err(mismatch);
                }
            },
            None => {
                return Err(mismatch);
            },
        }
        let mut data: Vec<Num> = Vec::with_capacity(numbers.len());
        let mut i: usize = 0;
        while i < numbers.len()
            invariant
                i <= numbers@.len(),
                data@.len() == i,
                numbers@.len() == self@.texts.len(),
                numbers@.len() == count(self@.sizes),
                forall|k: int| 0 <= k < i ==> (#[trigger] numbers@[k]).is_some(),
                forall|k: int| 0 <= k < i ==> #[trigger] data@[k] == numbers@[k].unwrap(),
            decreases numbers@.len() - i,
        {
            match numbers[i] {
                Some(x) => {
                    data.push(x);
                },
                None => {
                    assert(!numbers@[i as int].is_some());
                    return Err(
                        UiuaError::new(Op::Parse, ErrorKind::NotNumber),
                    );
                },
            }
            i += 1;
        }
        let v = Value::Num(Array::from_parts(sizes, data));
        proof {
            lemma_value_view(v);
            assert(views(data@) =~= Seq::new(numbers@.len(), |i: int| numbers@[i].unwrap()));
        }
        Ok(v)
    }
}

} // verus!
