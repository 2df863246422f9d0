//! Errors of the array operations.

use vstd::prelude::*;
use vstd::string::StringExecFns;

verus! {

/// The kind of element that an array holds
#[derive(Clone, Copy, PartialEq, Eq, Structural, Debug, Hash)]
pub enum Kind {
    Num,
    Byte,
    Complex,
    Char,
    Box,
}

/// The operation that failed
#[derive(Clone, Copy, PartialEq, Eq, Structural, Debug, Hash)]
pub enum Op {
    First,
    Last,
    Unfirst,
    Unlast,
    Rise,
    Fall,
    Classify,
    MinIndex,
    MaxIndex,
    Bits,
    InverseBits,
    Where,
    InverseWhere,
    Range,
    Parse,
    InverseParse,
    Utf8,
    InverseUtf8,
    Command,
}

/// Why an operation failed
#[derive(Clone, Copy, PartialEq, Eq, Structural, Debug, Hash)]
pub enum ErrorKind {
    /// The operation is not defined on a scalar.
    Scalar,
    /// The operation is not defined on an array of this rank.
    Rank(usize),
    /// An empty array needed a fill value and the context had none.
    NoFill,
    /// An element is not a natural number that a machine word holds.
    NotNatural,
    /// An element has a fractional part.
    NotIntegral,
    /// An element of a bit array is neither 0 nor 1.
    NotBoolean,
    /// The operation is not defined on elements of this kind.
    WrongKind(Kind),
    /// The operation cannot combine elements of these two kinds.
    Mismatch(Kind, Kind),
    /// The two shapes do not fit together.
    ShapeMismatch,
    /// The result would have more elements than the limit allows. The
    /// count is given where a machine word holds it.
    TooLarge(Option<usize>),
    /// The bytes are not the UTF-8 encoding of a text.
    InvalidUtf8,
    /// The text is not a number.
    NotNumber,
    /// A box holds an array of this kind where it must hold a text.
    NotText(Kind),
    /// The array holds nothing.
    Empty,
}

/// An error of an array operation
#[derive(Clone, PartialEq, Eq, Debug, Hash)]
pub struct UiuaError {
    /// The operation that failed
    pub op: Op,
    /// Why it failed
    pub kind: ErrorKind,
    /// Whether the failure is that of finding a fill value
    pub fill: bool,
    /// The sizes that were asked for, where the error is about sizes
    pub sizes: Vec<usize>,
}

/// What an error is
pub struct ErrorView {
    pub op: Op,
    pub kind: ErrorKind,
    pub fill: bool,
    pub sizes: Seq<usize>,
}

impl View for UiuaError {
    type V = ErrorView;

    open spec fn view(&self) -> ErrorView {
        ErrorView { op: self.op, kind: self.kind, fill: self.fill, sizes: self.sizes@ }
    }
}

/// The error of the operation `op`, not marked as a fill failure and about
/// no sizes
pub open spec fn failure(op: Op, kind: ErrorKind) -> ErrorView {
    ErrorView { op, kind, fill: false, sizes: Seq::empty() }
}

/// The result with its error, if it is one, as what that error is
pub open spec fn seen<T>(r: Result<T, UiuaError>) -> Result<T, ErrorView> {
    match r {
        Ok(x) => Ok(x),
        Err(e) => Err(e@),
    }
}

impl ErrorView {
    /// The same error, marked as a fill failure
    pub open spec fn marked(self) -> ErrorView {
        ErrorView { op: self.op, kind: self.kind, fill: true, sizes: self.sizes }
    }

    /// The same error, about the given sizes
    pub open spec fn about(self, sizes: Seq<usize>) -> ErrorView {
        ErrorView { op: self.op, kind: self.kind, fill: self.fill, sizes }
    }
}

/// The result of an array operation
pub type UiuaResult<T> = Result<T, UiuaError>;

impl UiuaError {
    /// An error of the operation `op`, not marked as a fill failure
    pub fn new(op: Op, kind: ErrorKind) -> (e: UiuaError)
        ensures
            e@ == failure(op, kind),
    {
        UiuaError { op, kind, fill: false, sizes: Vec::new() }
    }

    /// The same error, marked as a fill failure
    pub fn fill(self) -> (e: UiuaError)
        ensures
            e@ == self@.marked(),
    {
        UiuaError { op: self.op, kind: self.kind, fill: true, sizes: self.sizes }
    }

    /// The same error, about the given sizes
    pub fn about(self, sizes: Vec<usize>) -> (e: UiuaError)
        ensures
            e@ == self@.about(sizes@),
    {
        UiuaError { op: self.op, kind: self.kind, fill: self.fill, sizes }
    }

    /// Whether the failure is that of finding a fill value
    pub fn is_fill(&self) -> (r: bool)
        ensures
            r == self.fill,
    {
        self.fill
    }
}

impl Kind {
    /// The name of the kind in a message
    pub fn kind_name(&self) -> (r: &'static str)
        ensures
            r@ == self.name(),
    {
        match self {
            Kind::Num => "number",
            Kind::Byte => "number",
            Kind::Complex => "complex",
            Kind::Char => "character",
            Kind::Box => "box",
        }
    }

    /// The name of the kind in a message
    pub open spec fn name(self) -> Seq<char> {
        match self {
            Kind::Num => "number"@,
            Kind::Byte => "number"@,
            Kind::Complex => "complex"@,
            Kind::Char => "character"@,
            Kind::Box => "box"@,
        }
    }
}

/// The decimal digit `d` as a character
pub open spec fn digit_char(d: nat) -> char {
    (48 + d) as u8 as char
}

/// The decimal digits of `n`
pub open spec fn decimal(n: nat) -> Seq<char>
    decreases n,
{
    if n < 10 {
        seq![digit_char(n)]
    } else {
        decimal(n / 10).push(digit_char(n % 10))
    }
}

/// Adds the decimal digits of `n` to the text.
pub fn push_decimal(text: &mut String, n: usize)
    ensures
        final(text)@ == old(text)@ + decimal(n as nat),
    decreases n,
{
    if n >= 10 {
        push_decimal(text, n / 10);
    }
    let d = (48 + n % 10) as u8;
    text.push(d as char);
    assert(text@ =~= old(text)@ + decimal(n as nat));
}

impl Op {
    /// The name of the operation in a message
    pub open spec fn name(self) -> Seq<char> {
        match self {
            Op::First => "first"@,
            Op::Last => "last"@,
            Op::Unfirst => "invert first"@,
            Op::Unlast => "invert last"@,
            Op::Rise => "rise"@,
            Op::Fall => "fall"@,
            Op::Classify => "classify"@,
            Op::MinIndex => "min index"@,
            Op::MaxIndex => "max index"@,
            Op::Bits => "bits"@,
            Op::InverseBits => "invert bits"@,
            Op::Where => "where"@,
            Op::InverseWhere => "invert where"@,
            Op::Range => "range"@,
            Op::Parse => "parse"@,
            Op::InverseParse => "invert parse"@,
            Op::Utf8 => "utf"@,
            Op::InverseUtf8 => "invert utf"@,
            Op::Command => "make a command"@,
        }
    }

    /// The name of the operation in a message
    pub fn op_name(&self) -> (r: &'static str)
        ensures
            r@ == self.name(),
    {
        match self {
            Op::First => "first",
            Op::Last => "last",
            Op::Unfirst => "invert first",
            Op::Unlast => "invert last",
            Op::Rise => "rise",
            Op::Fall => "fall",
            Op::Classify => "classify",
            Op::MinIndex => "min index",
            Op::MaxIndex => "max index",
            Op::Bits => "bits",
            Op::InverseBits => "invert bits",
            Op::Where => "where",
            Op::InverseWhere => "invert where",
            Op::Range => "range",
            Op::Parse => "parse",
            Op::InverseParse => "invert parse",
            Op::Utf8 => "utf",
            Op::InverseUtf8 => "invert utf",
            Op::Command => "make a command",
        }
    }
}

impl ErrorKind {
    /// Why the operation failed, in words
    pub open spec fn reason(self) -> Seq<char> {
        match self {
            ErrorKind::Scalar => "the array is a scalar"@,
            ErrorKind::Rank(rank) => "the array has rank "@ + decimal(rank as nat),
            ErrorKind::NoFill => "empty array, no fill"@,
            ErrorKind::NotNatural => "the array must be made of natural numbers"@,
            ErrorKind::NotIntegral => "the array must be made of whole numbers"@,
            ErrorKind::NotBoolean => "the array must be made of 0s and 1s"@,
            ErrorKind::WrongKind(kind) => "the array is a "@ + kind.name() + " array"@,
            ErrorKind::Mismatch(left, right) => "cannot combine "@ + left.name() + " and "@
                + right.name(),
            ErrorKind::ShapeMismatch => "the shapes do not fit"@,
            ErrorKind::TooLarge(Some(n)) => "the array would have "@ + decimal(n as nat)
                + " elements, which is too large"@,
            ErrorKind::TooLarge(None) => "the array would have more elements than can be counted"@,
            ErrorKind::InvalidUtf8 => "the bytes are not valid UTF-8"@,
            ErrorKind::NotNumber => "cannot parse into number"@,
            ErrorKind::NotText(kind) => "a box holds a "@ + kind.name()
                + " array that is no string"@,
            ErrorKind::Empty => "the array is empty"@,
        }
    }

    /// Adds to the text why the operation failed.
    pub fn push_reason(&self, text: &mut String)
        ensures
            final(text)@ == old(text)@ + self.reason(),
    {
        match self {
            ErrorKind::Scalar => text.append("the array is a scalar"),
            ErrorKind::Rank(rank) => {
                text.append("the array has rank ");
                push_decimal(text, *rank);
            },
            ErrorKind::NoFill => text.append("empty array, no fill"),
            ErrorKind::NotNatural => text.append("the array must be made of natural numbers"),
            ErrorKind::NotIntegral => text.append("the array must be made of whole numbers"),
            ErrorKind::NotBoolean => text.append("the array must be made of 0s and 1s"),
            ErrorKind::WrongKind(kind) => {
                text.append("the array is a ");
                text.append(kind.kind_name());
                text.append(" array");
            },
            ErrorKind::Mismatch(left, right) => {
                text.append("cannot combine ");
                text.append(left.kind_name());
                text.append(" and ");
                text.append(right.kind_name());
            },
            ErrorKind::ShapeMismatch => text.append("the shapes do not fit"),
            ErrorKind::TooLarge(Some(n)) => {
                text.append("the array would have ");
                push_decimal(text, *n);
                text.append(" elements, which is too large");
            },
            ErrorKind::TooLarge(None) => text.append(
                "the array would have more elements than can be counted",
            ),
            ErrorKind::InvalidUtf8 => text.append("the bytes are not valid UTF-8"),
            ErrorKind::NotNumber => text.append("cannot parse into number"),
            ErrorKind::NotText(kind) => {
                text.append("a box holds a ");
                text.append(kind.kind_name());
                text.append(" array that is no string");
            },
            ErrorKind::Empty => text.append("the array is empty"),
        }
        assert(text@ =~= old(text)@ + self.reason());
    }
}

/// The sizes as they are shown: in brackets, with a cross between them
pub open spec fn sizes_text(sizes: Seq<usize>) -> Seq<char> {
    "["@ + joined_sizes(sizes) + "]"@
}

/// The sizes with a cross between them
pub open spec fn joined_sizes(sizes: Seq<usize>) -> Seq<char>
    decreases sizes.len(),
{
    if sizes.len() == 0 {
        Seq::empty()
    } else if sizes.len() == 1 {
        decimal(sizes[0] as nat)
    } else {
        joined_sizes(sizes.drop_last()) + " \u{d7} "@ + decimal(sizes.last() as nat)
    }
}

/// Adds the sizes to the text, as they are shown.
pub fn push_sizes(text: &mut String, sizes: &Vec<usize>)
    ensures
        final(text)@ == old(text)@ + sizes_text(sizes@),
{
    text.append("[");
    let ghost start = text@;
    let mut i: usize = 0;
    assert(sizes@.subrange(0, 0) =~= Seq::<usize>::empty());
    while i < sizes.len()
        invariant
            i <= sizes@.len(),
            text@ == start + joined_sizes(sizes@.subrange(0, i as int)),
        decreases sizes@.len() - i,
    {
        proof {
            let next = sizes@.subrange(0, i + 1);
            assert(next.drop_last() =~= sizes@.subrange(0, i as int));
            assert(next.last() == sizes@[i as int]);
        }
        if i > 0 {
            text.append(" \u{d7} ");
        }
        push_decimal(text, sizes[i]);
        assert(text@ =~= start + joined_sizes(sizes@.subrange(0, i + 1)));
        i += 1;
    }
    assert(sizes@.subrange(0, sizes@.len() as int) =~= sizes@);
    text.append("]");
    assert(text@ =~= old(text)@ + sizes_text(sizes@));
}

impl ErrorView {
    /// The message of the error: the operation, why it failed, and the
    /// sizes that were asked for, where the error is about sizes
    pub open spec fn text(self) -> Seq<char> {
        "Cannot "@ + self.op.name() + ": "@ + self.kind.reason() + if self.sizes.len() > 0 {
            ", for the shape "@ + sizes_text(self.sizes)
        } else {
            Seq::empty()
        }
    }
}

impl UiuaError {
    /// The message of the error
    pub fn message(&self) -> (r: String)
        ensures
            r@ == self@.text(),
    {
        let mut text = String::new();
        text.append("Cannot ");
        text.append(self.op.op_name());
        text.append(": ");
        self.kind.push_reason(&mut text);
        if self.sizes.len() > 0 {
            text.append(", for the shape ");
            push_sizes(&mut text, &self.sizes);
        }
        assert(text@ =~= self@.text());
        text
    }
}

} // verus!
