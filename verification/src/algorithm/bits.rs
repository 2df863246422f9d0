//! The binary digits of natural numbers, and the natural numbers that
//! binary digits make.

use vstd::prelude::*;
use vstd::arithmetic::power2::{
    lemma2_to64, lemma2_to64_rest, lemma_pow2_adds, lemma_pow2_pos, lemma_pow2_strictly_increases,
    lemma_pow2_unfold, pow2,
};
use crate::array::{agrees, checked_count, count, scalar_view, views, Array, ArrayFlags, ArrayView};
use crate::error::{ErrorKind, ErrorView, Op, UiuaError, failure};
use crate::num::{bit_length, lemma_bit_length_bounds, lemma_pow2_128, num_of_nat, Num};
use crate::shape::{Dimension, ShapeView, EMPTY_MARKER};

verus! {

/// Every one of the numbers is finite and has no fractional part.
pub open spec fn all_integral(s: Seq<Num>) -> bool {
    forall|i: int| 0 <= i < s.len() ==> (#[trigger] s[i]).integral()
}

/// The largest of the naturals that the numbers are; zero where there is
/// no number
pub open spec fn largest(s: Seq<Num>) -> nat
    decreases s.len(),
{
    if s.len() == 0 {
        0
    } else {
        let below = largest(s.drop_last());
        let here = s.last().natural_part() as nat;
        if here > below {
            here
        } else {
            below
        }
    }
}

/// Binary digit `j` of `n`, the lowest being digit 0
pub open spec fn bit_at(n: nat, j: nat) -> u8 {
    ((n / pow2(j)) % 2) as u8
}

/// The binary digits of the naturals that the numbers are, lowest digit
/// first, each natural with as many digits as the largest of them needs
pub open spec fn digits(s: Seq<Num>) -> Seq<u8> {
    let width = bit_length(largest(s)) as int;
    Seq::new(
        s.len() * bit_length(largest(s)),
        |x: int| bit_at(s[x / width].natural_part() as nat, (x % width) as nat),
    )
}

/// What the binary digits of an array of numbers are: an array with a new
/// last axis, as long as the largest number has digits, that holds the
/// digits of each number, lowest first. A negative whole number counts as
/// zero. It is an error where a number has a fractional part, or is not
/// finite, and where the digits are more than a machine word counts.
pub open spec fn bits_model(a: ArrayView<Num>) -> Result<ArrayView<u8>, ErrorView> {
    let width = bit_length(largest(a.data));
    if !all_integral(a.data) {
        Err(failure(Op::Bits, ErrorKind::NotIntegral))
    } else if a.data.len() * width > usize::MAX {
        Err(failure(Op::Bits, ErrorKind::TooLarge(None)))
    } else {
        Ok(
            ArrayView {
                shape: ShapeView {
                    sizes: a.shape.sizes.push(width as usize),
                    markers: a.shape.markers_with(a.shape.sizes.len() as int, EMPTY_MARKER),
                },
                data: digits(a.data),
                boolean: a.data.len() > 0,
            },
        )
    }
}

/// The natural that the binary digits make, lowest digit first
pub open spec fn digits_value(s: Seq<u8>) -> nat
    decreases s.len(),
{
    if s.len() == 0 {
        0
    } else {
        digits_value(s.drop_last()) + (s.last() as nat) * pow2((s.len() - 1) as nat)
    }
}

/// Every one of the bytes is 0 or 1.
pub open spec fn all_boolean(s: Seq<u8>) -> bool {
    forall|i: int| 0 <= i < s.len() ==> #[trigger] s[i] <= 1
}

/// Row `i` of rows of `width` digits
pub open spec fn digit_row(s: Seq<u8>, width: int, i: int) -> Seq<u8> {
    s.subrange(i * width, i * width + width)
}

/// What the numbers are that an array of binary digits makes: the last
/// axis goes, and each row of digits along it, lowest first, becomes the
/// number nearest to the natural that the digits make, however many they
/// are; a scalar digit becomes that number. It is an error where a digit is
/// neither 0 nor 1, and where the rows are more than a machine word counts.
pub open spec fn inverse_bits_model(a: ArrayView<u8>) -> Result<ArrayView<Num>, ErrorView> {
    let rank = a.shape.sizes.len();
    let width = a.shape.sizes.last() as int;
    let sizes = a.shape.sizes.drop_last();
    if !all_boolean(a.data) {
        Err(failure(Op::InverseBits, ErrorKind::NotBoolean))
    } else if rank == 0 {
        Ok(scalar_view(num_of_nat(a.data[0] as nat)))
    } else if count(sizes) > usize::MAX {
        Err(failure(Op::InverseBits, ErrorKind::TooLarge(None)))
    } else {
        Ok(
            ArrayView {
                shape: ShapeView {
                    sizes,
                    markers: if a.shape.markers.len() == 0 {
                        a.shape.markers
                    } else {
                        a.shape.markers.drop_last()
                    },
                },
                data: Seq::new(
                    count(sizes),
                    |i: int| num_of_nat(digits_value(digit_row(a.data, width, i))),
                ),
                boolean: false,
            },
        )
    }
}

/// The natural that digits make is at least the natural that the first of
/// them make, and below the power of two that their number gives where
/// each is 0 or 1.
pub proof fn lemma_digits_value(s: Seq<u8>, k: int)
    requires
        0 <= k <= s.len(),
    ensures
        digits_value(s.subrange(0, k)) <= digits_value(s),
        all_boolean(s) ==> digits_value(s) < pow2(s.len()),
    decreases s.len(),
{
    lemma_pow2_pos(s.len());
    if s.len() == 0 {
        assert(s.subrange(0, k) =~= s);
        lemma2_to64();
    } else {
        let front = s.drop_last();
        if k == s.len() {
            assert(s.subrange(0, k) =~= s);
            lemma_digits_value(front, 0);
        } else {
            assert(s.subrange(0, k) =~= front.subrange(0, k));
            lemma_digits_value(front, k);
        }
        if all_boolean(s) {
            assert(all_boolean(front)) by {
                assert forall|i: int| 0 <= i < front.len() implies #[trigger] front[i] <= 1 by {
                    assert(s[i] <= 1);
                }
            }
            assert(s[s.len() - 1] <= 1);
            lemma_pow2_unfold(s.len());
            let unit = pow2((s.len() - 1) as nat);
            assert((s.last() as nat) * unit <= unit) by (nonlinear_arith)
                requires
                    s.last() <= 1,
            ;
        }
    }
}

/// The natural that digits make is the natural of the first `k` of them
/// and, two to the power `k` times, that of the others.
pub proof fn lemma_digits_split(s: Seq<u8>, k: int)
    requires
        0 <= k <= s.len(),
    ensures
        digits_value(s) == digits_value(s.subrange(0, k)) + pow2(k as nat) * digits_value(
            s.subrange(k, s.len() as int),
        ),
    decreases s.len(),
{
    let n = s.len() as int;
    if k == n {
        assert(s.subrange(0, k) =~= s);
        assert(s.subrange(k, n).len() == 0);
        assert(pow2(k as nat) * 0 == 0);
    } else {
        let front = s.drop_last();
        let high = s.subrange(k, n);
        lemma_digits_split(front, k);
        assert(front.subrange(0, k) =~= s.subrange(0, k));
        assert(front.subrange(k, n - 1) =~= high.drop_last());
        assert(high.last() == s.last());
        lemma_pow2_adds(k as nat, (n - 1 - k) as nat);
        let d = s.last() as nat;
        let a = pow2(k as nat);
        let b = pow2((n - 1 - k) as nat);
        let x = digits_value(high.drop_last());
        assert(a * (x + d * b) == a * x + d * (a * b)) by (nonlinear_arith);
    }
}

/// Digits that are all zero make zero.
pub proof fn lemma_digits_zero(s: Seq<u8>)
    requires
        forall|i: int| 0 <= i < s.len() ==> s[i] == 0,
    ensures
        digits_value(s) == 0,
    decreases s.len(),
{
    if s.len() > 0 {
        lemma_digits_zero(s.drop_last());
        assert(s.last() == 0);
        assert(0 * pow2((s.len() - 1) as nat) == 0);
    }
}

/// The natural that up to 53 binary digits make, lowest first.
fn digits_natural(data: &Vec<u8>, from: usize, len: usize) -> (r: u64)
    requires
        len <= 53,
        from + len <= data@.len(),
        all_boolean(data@.subrange(from as int, from + len)),
    ensures
        r == digits_value(data@.subrange(from as int, from + len)),
        r < pow2(len as nat),
{
    let ghost row = data@.subrange(from as int, from + len);
    let total = data.len();
    let mut value: u64 = 0;
    let mut unit: u64 = 1;
    let mut j: usize = 0;
    proof {
        lemma2_to64();
        assert(row.subrange(0, 0) =~= Seq::<u8>::empty());
    }
    while j < len
        invariant
            j <= len <= 53,
            from + len <= total,
            total == data@.len(),
            row == data@.subrange(from as int, from + len),
            all_boolean(row),
            value == digits_value(row.subrange(0, j as int)),
            value < pow2(j as nat),
            unit == pow2(j as nat),
        decreases len - j,
    {
        let b = data[from + j];
        proof {
            let next = row.subrange(0, j + 1);
            assert(next.drop_last() =~= row.subrange(0, j as int));
            assert(next.last() == b);
            assert(row[j as int] <= 1);
            lemma_pow2_unfold((j + 1) as nat);
            crate::num::lemma_pow2_53();
            if j + 1 < 53 {
                lemma_pow2_strictly_increases((j + 1) as nat, 53);
            }
            assert((b as nat) * pow2(j as nat) == if b == 1 {
                pow2(j as nat)
            } else {
                0
            }) by (nonlinear_arith)
                requires
                    b <= 1,
            ;
        }
        if b == 1 {
            value = value + unit;
        }
        unit = unit * 2;
        j += 1;
    }
    assert(row.subrange(0, len as int) =~= row);
    value
}

/// The number nearest to the natural that the binary digits make, lowest
/// first, however many they are.
fn digits_number(data: &Vec<u8>, from: usize, width: usize) -> (r: Num)
    requires
        from + width <= data@.len(),
        all_boolean(data@.subrange(from as int, from + width)),
    ensures
        r == num_of_nat(digits_value(data@.subrange(from as int, from + width))),
{
    let ghost row = data@.subrange(from as int, from + width);
    let total = data.len();
    let mut len: usize = width;
    while len > 0 && data[from + len - 1] == 0
        invariant
            len <= width,
            from + width <= total,
            total == data@.len(),
            row == data@.subrange(from as int, from + width),
            forall|k: int| len <= k < width ==> row[k] == 0,
        decreases len,
    {
        len -= 1;
    }
    let ghost used = data@.subrange(from as int, from + len);
    proof {
        lemma_digits_split(row, len as int);
        lemma_digits_zero(row.subrange(len as int, width as int));
        assert(pow2(len as nat) * 0 == 0);
        assert(row.subrange(0, len as int) =~= used);
        assert(all_boolean(used)) by {
            assert forall|k: int| 0 <= k < used.len() implies #[trigger] used[k] <= 1 by {
                assert(row[k] <= 1);
            }
        }
        lemma_digits_value(used, 0);
    }
    if len <= 53 {
        return Num::from_u128(digits_natural(data, from, len) as u128);
    }
    let p = len - 1;
    proof {
        // the digits end in a one: they make a natural of `len` digits
        assert(used.last() == row[len - 1]);
        assert(row[len - 1] <= 1);
        assert(1 * pow2(p as nat) == pow2(p as nat));
        crate::num::lemma_bit_length_unique(digits_value(used), p as nat);
    }
    if p > 1023 {
        return Num { bits: crate::num::INFINITY_BITS };
    }
    let below = p - 53;
    let mut rest = false;
    let mut j: usize = 0;
    proof {
        assert(used.subrange(0, 0) =~= Seq::<u8>::empty());
    }
    while j < below
        invariant
            j <= below,
            below + 53 < len,
            from + len <= total,
            total == data@.len(),
            used == data@.subrange(from as int, from + len),
            all_boolean(used),
            rest == (digits_value(used.subrange(0, j as int)) > 0),
        decreases below - j,
    {
        proof {
            let next = used.subrange(0, j + 1);
            assert(next.drop_last() =~= used.subrange(0, j as int));
            assert(next.last() == used[j as int]);
            assert(used[j as int] <= 1);
            lemma_pow2_pos(j as nat);
            assert((used[j as int] as nat) * pow2(j as nat) == if used[j as int] == 1 {
                pow2(j as nat)
            } else {
                0
            }) by (nonlinear_arith)
                requires
                    used[j as int] <= 1,
            ;
        }
        if data[from + j] == 1 {
            rest = true;
        }
        j += 1;
    }
    let half = data[from + below] == 1;
    proof {
        let lead = data@.subrange(from + below + 1, from + below + 1 + 53);
        assert(lead =~= used.subrange(below + 1, len as int));
        assert(all_boolean(lead)) by {
            assert forall|k: int| 0 <= k < lead.len() implies #[trigger] lead[k] <= 1 by {
                assert(used[below + 1 + k] <= 1);
            }
        }
    }
    let q = digits_natural(data, from + below + 1, 53);
    proof {
        let lead = used.subrange(below + 1, len as int);
        let low = used.subrange(0, below as int);
        let mid = used.subrange(0, below + 1);
        assert(data@.subrange(from + below + 1, from + below + 1 + 53) =~= lead);
        lemma_digits_split(used, below + 1);
        assert(mid.drop_last() =~= low);
        assert(mid.last() == used[below as int]);
        assert(used[below as int] <= 1);
        assert(all_boolean(low)) by {
            assert forall|k: int| 0 <= k < low.len() implies #[trigger] low[k] <= 1 by {
                assert(used[k] <= 1);
            }
        }
        lemma_digits_value(low, 0);
        // the leading digits end in the last one
        assert(lead.last() == used[len - 1]);
        assert(lead.drop_last().len() == 52);
        assert(1 * pow2(52) == pow2(52));
        lemma2_to64_rest();
        crate::num::lemma_pow2_53();
        let d: nat = if half { 1 } else { 0 };
        assert(used[below as int] as nat == d);
        assert(pow2((below + 1) as nat) * (q as nat) == (q as nat) * pow2((below + 1) as nat))
            by (nonlinear_arith);
        crate::num::lemma_num_of_parts(
            digits_value(used),
            p as nat,
            q as nat,
            d,
            digits_value(low),
        );
    }
    Num::round(p as u64, q, half, rest)
}

impl Array<Num> {
    /// Encode the `bits` of the array
    pub fn bits(&self) -> (r: Result<Array<u8>, UiuaError>)
        requires
            self.wf(),
        ensures
            agrees(r, bits_model(self@)),
            r is Ok ==> r->Ok_0.wf(),
    {
        let n = self.data.len();
        let ghost items = self@.data;
        assert(items =~= self.data@);
        let mut nats: Vec<u128> = Vec::with_capacity(n);
        let mut i: usize = 0;
        while i < n
            invariant
                i <= n,
                n == self.data@.len(),
                nats@.len() == i,
                forall|k: int| 0 <= k < i ==> (#[trigger] self.data@[k]).integral(),
                forall|k: int| 0 <= k < i ==> #[trigger] nats@[k] == self.data@[k].natural_part(),
            decreases n - i,
        {
            if !self.data[i].is_integral() {
                assert(!(self@.data[i as int]).integral());
                return Err(UiuaError::new(Op::Bits, ErrorKind::NotIntegral));
            }
            nats.push(self.data[i].to_u128());
            i += 1;
        }
        let mut max: u128 = 0;
        let mut i: usize = 0;
        assert(self.data@.subrange(0, 0) =~= Seq::<Num>::empty());
        while i < n
            invariant
                i <= n,
                n == self.data@.len(),
                nats@.len() == n,
                forall|k: int| 0 <= k < n ==> #[trigger] nats@[k] == self.data@[k].natural_part(),
                max == largest(self.data@.subrange(0, i as int)),
                forall|k: int| 0 <= k < i ==> #[trigger] nats@[k] <= max,
            decreases n - i,
        {
            proof {
                let next = self.data@.subrange(0, i + 1);
                assert(next.drop_last() =~= self.data@.subrange(0, i as int));
                assert(next.last() == self.data@[i as int]);
            }
            if nats[i] > max {
                max = nats[i];
            }
            i += 1;
        }
        assert(self.data@.subrange(0, n as int) =~= self.data@);
        let mut width: usize = 0;
        let mut rest: u128 = max;
        while rest != 0
            invariant
                bit_length(max as nat) == width + bit_length(rest as nat),
                width <= 128,
            decreases rest,
        {
            proof {
                if max > 0 {
                    lemma_bit_length_bounds(max as nat);
                    lemma_pow2_128();
                    if bit_length(max as nat) > 128 {
                        lemma_pow2_strictly_increases(128, (bit_length(max as nat) - 1) as nat);
                    }
                }
            }
            width += 1;
            rest = rest / 2;
        }
        let total = match n.checked_mul(width) {
            Some(total) => total,
            None => {
                return Err(UiuaError::new(Op::Bits, ErrorKind::TooLarge(None)));
            },
        };
        let ghost goal = digits(self.data@);
        let mut data: Vec<u8> = Vec::with_capacity(total);
        let mut i: usize = 0;
        while i < n
            invariant
                i <= n,
                n == self.data@.len(),
                nats@.len() == n,
                width <= 128,
                width == bit_length(largest(self.data@)),
                n * width == total,
                goal == digits(self.data@),
                forall|k: int| 0 <= k < n ==> #[trigger] nats@[k] == self.data@[k].natural_part(),
                data@.len() == i * width,
                forall|x: int| 0 <= x < data@.len() ==> data@[x] == goal[x],
            decreases n - i,
        {
            let mut unit: u128 = 1;
            let mut j: usize = 0;
            proof {
                lemma2_to64();
                crate::index::lemma_row_bounds(i as int, width as int, n as int);
            }
            while j < width
                invariant
                    j <= width,
                    i < n,
                    n == self.data@.len(),
                    nats@.len() == n,
                    width <= 128,
                    n * width == total,
                    goal == digits(self.data@),
                    width == bit_length(largest(self.data@)),
                    nats@[i as int] == self.data@[i as int].natural_part(),
                    j < width ==> unit == pow2(j as nat),
                    data@.len() == i * width + j,
                    i * width + width <= n * width,
                    forall|x: int| 0 <= x < data@.len() ==> data@[x] == goal[x],
                decreases width - j,
            {
                proof {
                    crate::index::lemma_split(i as int, width as int, j as int);
                    lemma_pow2_pos(j as nat);
                }
                let bit: u8 = ((nats[i] / unit) % 2) as u8;
                data.push(bit);
                if j + 1 < width {
                    proof {
                        lemma_pow2_unfold((j + 1) as nat);
                        lemma_pow2_128();
                        if j + 1 < 127 {
                            lemma_pow2_strictly_increases((j + 1) as nat, 127);
                        }
                    }
                    unit = unit * 2;
                }
                j += 1;
            }
            i += 1;
        }
        let mut shape = self.shape.clone();
        shape.push(Dimension::unmarked(width));
        proof {
            assert(data@ =~= goal);
            assert(views(data@) =~= goal);
            let sizes = self@.shape.sizes;
            assert(sizes.push(width).drop_last() =~= sizes);
        }
        Ok(Array { shape, data, flags: ArrayFlags { boolean: n > 0 } })
    }
}

impl Array<u8> {
    /// Decode the `bits` of the array
    pub fn inverse_bits(&self) -> (r: Result<Array<Num>, UiuaError>)
        requires
            self.wf(),
        ensures
            agrees(r, inverse_bits_model(self@)),
            r is Ok ==> r->Ok_0.wf(),
    {
        let n = self.data.len();
        assert(self@.data =~= self.data@);
        let mut i: usize = 0;
        while i < n
            invariant
                i <= n,
                n == self.data@.len(),
                forall|k: int| 0 <= k < i ==> #[trigger] self.data@[k] <= 1,
            decreases n - i,
        {
            if self.data[i] > 1 {
                assert(self@.data[i as int] > 1);
                return Err(
                    UiuaError::new(Op::InverseBits, ErrorKind::NotBoolean),
                );
            }
            i += 1;
        }
        if self.shape.rank() == 0 {
            return Ok(Array::scalar(Num::from_u128(self.data[0] as u128)));
        }
        let mut shape = self.shape.clone();
        let width = match shape.pop() {
            Some(dim) => dim.size,
            None => 0,
        };
        let ghost sizes = self@.shape.sizes.drop_last();
        let kept = shape.sizes();
        assert(kept@.subrange(0, kept@.len() as int) =~= kept@);
        let rows = match checked_count(kept, 0, kept.len()) {
            Some(rows) => rows,
            None => {
                return Err(UiuaError::new(Op::InverseBits, ErrorKind::TooLarge(None)));
            },
        };
        assert(n == rows * width);
        let ghost goal = Seq::new(
            rows as nat,
            |i: int| num_of_nat(digits_value(digit_row(self.data@, width as int, i))),
        );
        let mut data: Vec<Num> = Vec::with_capacity(rows);
        let mut i: usize = 0;
        while i < rows
            invariant
                i <= rows,
                n == self.data@.len(),
                n == rows * width,
                all_boolean(self.data@),
                data@.len() == i,
                forall|k: int|
                    0 <= k < i ==> #[trigger] data@[k] == num_of_nat(
                        digits_value(digit_row(self.data@, width as int, k)),
                    ),
            decreases rows - i,
        {
            proof {
                crate::index::lemma_row_bounds(i as int, width as int, rows as int);
                let row = digit_row(self.data@, width as int, i as int);
                assert(all_boolean(row)) by {
                    assert forall|k: int| 0 <= k < row.len() implies #[trigger] row[k] <= 1 by {
                        assert(self.data@[i * width + k] <= 1);
                    }
                }
            }
            data.push(digits_number(&self.data, i * width, width));
            i += 1;
        }
        proof {
            assert(data@ =~= goal);
            assert(views(data@) =~= goal);
        }
        Ok(Array { shape, data, flags: ArrayFlags { boolean: false } })
    }
}

/// The first `w` binary digits of `n`, lowest first
pub open spec fn digits_of(n: nat, w: nat) -> Seq<u8> {
    Seq::new(w, |j: int| bit_at(n, j as nat))
}

/// The first `w` binary digits of a natural make its remainder by two to
/// the power `w`.
pub proof fn lemma_digits_of(n: nat, w: nat)
    ensures
        digits_value(digits_of(n, w)) == n % pow2(w),
        all_boolean(digits_of(n, w)),
    decreases w,
{
    lemma2_to64();
    lemma_pow2_pos(w);
    if w == 0 {
    } else {
        let v = (w - 1) as nat;
        lemma_digits_of(n, v);
        lemma_pow2_pos(v);
        lemma_pow2_unfold(w);
        assert(digits_of(n, w).drop_last() =~= digits_of(n, v));
        vstd::arithmetic::div_mod::lemma_mod_breakdown(n as int, pow2(v) as int, 2);
        assert(pow2(v) * 2 == pow2(w));
        let bit = (n / pow2(v)) % 2;
        assert(digits_of(n, w).last() == bit);
        assert((bit as nat) * pow2(v) == pow2(v) * bit) by (nonlinear_arith);
    }
    assert forall|i: int| 0 <= i < digits_of(n, w).len() implies #[trigger] digits_of(n, w)[i]
        <= 1 by {}
}

/// No number is a natural above the largest of them.
pub proof fn lemma_largest(s: Seq<Num>, i: int)
    requires
        0 <= i < s.len(),
    ensures
        s[i].natural_part() <= largest(s),
    decreases s.len(),
{
    if i < s.len() - 1 {
        lemma_largest(s.drop_last(), i);
    }
}

/// The largest of the naturals that numbers are has no more than 128
/// binary digits.
pub proof fn lemma_largest_fits(s: Seq<Num>)
    ensures
        largest(s) <= u128::MAX,
        bit_length(largest(s)) <= 128,
    decreases s.len(),
{
    if s.len() > 0 {
        lemma_largest_fits(s.drop_last());
    }
    let top = largest(s);
    if top > 0 {
        lemma_bit_length_bounds(top);
        lemma_pow2_128();
        if bit_length(top) > 128 {
            if bit_length(top) > 129 {
                lemma_pow2_strictly_increases(128, (bit_length(top) - 1) as nat);
            }
        }
    }
}

/// A number is natural: whole and not negative, and a natural that 128
/// bits hold.
pub open spec fn plain_natural(x: Num) -> bool {
    x.nat_value().is_some() && x.nat_value().unwrap() <= u128::MAX
}

/// The numbers that the binary digits of natural numbers make are those
/// numbers again: the digits of an array of naturals, made into numbers,
/// give an array of the same shape, with the same numbers but for the
/// sign of zero.
pub proof fn lemma_bits_round_trip(a: ArrayView<Num>)
    requires
        a.wf(),
        a.data.len() <= usize::MAX,
        forall|i: int| 0 <= i < a.data.len() ==> plain_natural(#[trigger] a.data[i]),
        bits_model(a) is Ok,
    ensures
        inverse_bits_model(bits_model(a)->Ok_0) is Ok,
        inverse_bits_model(bits_model(a)->Ok_0)->Ok_0.shape == a.shape,
        inverse_bits_model(bits_model(a)->Ok_0)->Ok_0.data.len() == a.data.len(),
        forall|i: int|
            0 <= i < a.data.len() ==> {
                let back = #[trigger] inverse_bits_model(bits_model(a)->Ok_0)->Ok_0.data[i];
                &&& back.key() == a.data[i].key()
                &&& !a.data[i].negative() ==> back == a.data[i]
            },
{
    let b = bits_model(a)->Ok_0;
    let n = a.data.len() as int;
    let w = bit_length(largest(a.data));
    let width = w as int;
    lemma_largest_fits(a.data);
    assert(bits_model(a) is Ok ==> all_integral(a.data));
    assert(b.shape.sizes.last() == w as usize);
    assert(b.shape.sizes.drop_last() =~= a.shape.sizes);
    assert(0 <= n * width) by (nonlinear_arith)
        requires
            0 <= n,
            0 <= width,
    ;
    assert(b.data.len() == n * width);
    assert(all_boolean(b.data)) by {
        assert forall|x: int| 0 <= x < b.data.len() implies #[trigger] b.data[x] <= 1 by {}
    }
    lemma_pow2_128();
    assert forall|i: int| 0 <= i < n implies digits_value(
        #[trigger] digit_row(b.data, width, i),
    ) == a.data[i].nat_value().unwrap() by {
        let x = a.data[i];
        assert(plain_natural(x));
        let v = x.nat_value().unwrap();
        assert(!x.negative() || x.zero());
        assert(x.natural_part() == v);
        lemma_largest(a.data, i);
        crate::index::lemma_row_bounds(i, width, n);
        assert forall|j: int| 0 <= j < width implies digit_row(b.data, width, i)[j] == digits_of(
            v,
            w,
        )[j] by {
            crate::index::lemma_split(i, width, j);
        }
        assert(digit_row(b.data, width, i) =~= digits_of(v, w));
        lemma_digits_of(v, w);
        if largest(a.data) > 0 {
            lemma_bit_length_bounds(largest(a.data));
        } else {
            lemma2_to64();
        }
        vstd::arithmetic::div_mod::lemma_small_mod(v, pow2(w));
    }
    assert(count(b.shape.sizes.drop_last()) == n);
    let r = inverse_bits_model(b)->Ok_0;
    assert(r.shape.markers =~= a.shape.markers) by {
        if a.shape.markers.len() > 0 {
            assert(b.shape.markers =~= a.shape.markers.push(EMPTY_MARKER));
            assert(b.shape.markers.drop_last() =~= a.shape.markers);
        }
    }
    assert(r.data.len() == n);
    assert forall|i: int| 0 <= i < n implies {
        let back = #[trigger] r.data[i];
        &&& back.key() == a.data[i].key()
        &&& !a.data[i].negative() ==> back == a.data[i]
    } by {
        assert(plain_natural(a.data[i]));
        assert(digits_value(digit_row(b.data, width, i)) == a.data[i].nat_value().unwrap());
        crate::num::lemma_num_of_value(a.data[i]);
    }
}

} // verus!
