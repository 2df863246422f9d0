//! Numbers: double-precision values held by their bit pattern.
//!
//! The library does no arithmetic on numbers. It orders them, tells the
//! whole numbers among them, and converts whole numbers from and to machine
//! integers, all by integer arithmetic on the sign, exponent and fraction.

use vstd::prelude::*;
use vstd::arithmetic::power2::{
    lemma2_to64, lemma2_to64_rest, lemma_pow2_adds, lemma_pow2_pos, lemma_pow2_strictly_increases,
    lemma_pow2_unfold, pow2,
};

verus! {

/// The sign bit of a number's pattern
pub const SIGN_BIT: u64 = 0x8000_0000_0000_0000;

/// The lowest bit of the exponent field, which is also the leading bit that
/// the significand of a normal number has and the pattern leaves out
pub const HIDDEN_BIT: u64 = 0x10_0000_0000_0000;

/// The exponent field of the number one
pub const EXPONENT_BIAS: u64 = 1023;

/// The exponent field from which on a number has no bits below the unit
pub const EXPONENT_WHOLE: u64 = 1075;

/// The exponent field of the infinities and of what is not a number
pub const EXPONENT_SPECIAL: u64 = 2047;

/// A number, by the bit pattern of its double-precision value: a sign bit,
/// eleven bits of exponent and fifty-two of fraction.
#[derive(Clone, Copy, PartialEq, Eq, Structural, Debug, Hash)]
pub struct Num {
    pub bits: u64,
}

/// A complex number
#[derive(Clone, Copy, PartialEq, Eq, Structural, Debug, Hash)]
pub struct Complex {
    /// The real part
    pub re: Num,
    /// The imaginary part
    pub im: Num,
}

/// The number of binary digits of `n`
pub open spec fn bit_length(n: nat) -> nat
    decreases n,
{
    if n == 0 {
        0
    } else {
        1 + bit_length(n / 2)
    }
}

/// The pattern of the normal number with exponent `p` and the 53-bit
/// significand `m`, which is `m` times two to the power `p - 52`
pub open spec fn normal(p: nat, m: nat) -> Num {
    Num { bits: ((EXPONENT_BIAS + p) * HIDDEN_BIT + (m - HIDDEN_BIT)) as u64 }
}

/// The pattern of positive infinity
pub const INFINITY_BITS: u64 = 0x7FF0_0000_0000_0000;

/// The number nearest to `n`, the one with the even significand where two
/// are equally near, and infinity where `n` is beyond every number
pub open spec fn num_of_nat(n: nat) -> Num {
    if n == 0 {
        Num { bits: 0 }
    } else {
        let p = (bit_length(n) - 1) as nat;
        if p > 1023 {
            Num { bits: INFINITY_BITS }
        } else if p <= 52 {
            normal(p, n * pow2((52 - p) as nat))
        } else {
            let unit = pow2((p - 52) as nat);
            let q = n / unit;
            let r = n % unit;
            let up = 2 * r > unit || (2 * r == unit && q % 2 == 1);
            if !up {
                normal(p, q)
            } else if q + 1 == 2 * HIDDEN_BIT {
                normal(p + 1, HIDDEN_BIT as nat)
            } else {
                normal(p, q + 1)
            }
        }
    }
}

/// The number nearest to a natural of more than 53 binary digits, from its
/// parts: the exponent `p`, the leading 53 digits `q`, whether the digit
/// below them is set (`half`) and whether any digit below that one is
/// (`rest`). It is infinity where rounding up leaves the numbers.
pub open spec fn rounded(p: nat, q: nat, half: bool, rest: bool) -> Num {
    let up = half && (rest || q % 2 == 1);
    if !up {
        normal(p, q)
    } else if q + 1 == 2 * HIDDEN_BIT {
        normal(p + 1, HIDDEN_BIT as nat)
    } else {
        normal(p, q + 1)
    }
}

impl Num {
    /// The sign bit is set.
    pub open spec fn negative(self) -> bool {
        self.bits >= SIGN_BIT
    }

    /// The exponent field
    pub open spec fn exponent(self) -> nat {
        ((self.bits / HIDDEN_BIT) % 2048) as nat
    }

    /// The fraction field
    pub open spec fn fraction(self) -> nat {
        (self.bits % HIDDEN_BIT) as nat
    }

    /// The number is not a number.
    pub open spec fn nan(self) -> bool {
        self.exponent() == EXPONENT_SPECIAL && self.fraction() != 0
    }

    /// The number is zero, of either sign.
    pub open spec fn zero(self) -> bool {
        self.exponent() == 0 && self.fraction() == 0
    }

    /// The significand of a normal number, with its leading bit
    pub open spec fn significand(self) -> nat {
        HIDDEN_BIT as nat + self.fraction()
    }

    /// The number is finite and has no fractional part.
    pub open spec fn integral(self) -> bool {
        ||| self.zero()
        ||| EXPONENT_WHOLE <= self.exponent() < EXPONENT_SPECIAL
        ||| (EXPONENT_BIAS <= self.exponent() < EXPONENT_WHOLE && self.significand() % pow2(
            (EXPONENT_WHOLE - self.exponent()) as nat,
        ) == 0)
    }

    /// The absolute value of an integral number
    pub open spec fn magnitude(self) -> nat {
        if self.zero() {
            0
        } else if self.exponent() >= EXPONENT_WHOLE {
            self.significand() * pow2((self.exponent() - EXPONENT_WHOLE) as nat)
        } else {
            self.significand() / pow2((EXPONENT_WHOLE - self.exponent()) as nat)
        }
    }

    /// The natural number that the number is, if it is one
    pub open spec fn nat_value(self) -> Option<nat> {
        if self.integral() && (!self.negative() || self.zero()) {
            Some(self.magnitude())
        } else {
            None
        }
    }

    /// The natural number that the number is, if it is one that a machine
    /// word holds
    pub open spec fn index_value(self) -> Option<usize> {
        match self.nat_value() {
            Some(n) => if n <= usize::MAX {
                Some(n as usize)
            } else {
                None
            },
            None => None,
        }
    }

    /// What an integral number is as a 128-bit natural: zero where it is
    /// negative, the largest such natural where it is beyond them
    pub open spec fn natural_part(self) -> u128 {
        if self.negative() {
            0
        } else if self.magnitude() > u128::MAX {
            u128::MAX
        } else {
            self.magnitude() as u128
        }
    }

    /// The integer by which numbers are ordered: the two zeros are equal,
    /// and what is not a number is equal to itself and above all numbers.
    pub open spec fn key(self) -> int {
        if self.nan() {
            SIGN_BIT as int
        } else if self.negative() {
            SIGN_BIT - self.bits
        } else {
            self.bits as int
        }
    }

    /// The number with the given bit pattern
    pub fn from_bits(bits: u64) -> (r: Num)
        ensures
            r.bits == bits,
    {
        Num { bits }
    }

    /// The bit pattern of the number
    pub fn to_bits(&self) -> (r: u64)
        ensures
            r == self.bits,
    {
        self.bits
    }

    /// The exponent field
    pub fn exponent_field(&self) -> (r: u64)
        ensures
            r == self.exponent(),
    {
        (self.bits / HIDDEN_BIT) % 2048
    }

    /// The fraction field
    pub fn fraction_field(&self) -> (r: u64)
        ensures
            r == self.fraction(),
    {
        self.bits % HIDDEN_BIT
    }

    /// Whether the sign bit is set
    pub fn is_negative(&self) -> (r: bool)
        ensures
            r == self.negative(),
    {
        self.bits >= SIGN_BIT
    }

    /// Whether the number is not a number
    pub fn is_nan(&self) -> (r: bool)
        ensures
            r == self.nan(),
    {
        self.exponent_field() == EXPONENT_SPECIAL && self.fraction_field() != 0
    }

    /// Whether the number is zero, of either sign
    pub fn is_zero(&self) -> (r: bool)
        ensures
            r == self.zero(),
    {
        self.exponent_field() == 0 && self.fraction_field() == 0
    }

    /// The integer by which numbers are ordered
    pub fn order_key(&self) -> (r: i128)
        ensures
            r == self.key(),
    {
        if self.is_nan() {
            SIGN_BIT as i128
        } else if self.bits >= SIGN_BIT {
            SIGN_BIT as i128 - self.bits as i128
        } else {
            self.bits as i128
        }
    }

    /// Whether the number is finite and has no fractional part
    pub fn is_integral(&self) -> (r: bool)
        ensures
            r == self.integral(),
    {
        let e = self.exponent_field();
        let f = self.fraction_field();
        if e == 0 {
            f == 0
        } else if e >= EXPONENT_SPECIAL {
            false
        } else if e >= EXPONENT_WHOLE {
            true
        } else if e >= EXPONENT_BIAS {
            let unit = pow2_u128((EXPONENT_WHOLE - e) as u32);
            proof {
                lemma_pow2_pos((EXPONENT_WHOLE - e) as nat);
            }
            ((HIDDEN_BIT + f) as u128) % unit == 0
        } else {
            false
        }
    }

    /// An integral number as a 128-bit natural: zero where it is negative,
    /// the largest such natural where it is beyond them.
    pub fn to_u128(&self) -> (r: u128)
        requires
            self.integral(),
        ensures
            r == self.natural_part(),
    {
        let e = self.exponent_field();
        let f = self.fraction_field();
        if self.bits >= SIGN_BIT || (e == 0 && f == 0) {
            return 0;
        }
        let m: u128 = (HIDDEN_BIT + f) as u128;
        if e >= EXPONENT_WHOLE {
            let shift = e - EXPONENT_WHOLE;
            if shift >= 76 {
                proof {
                    lemma_times_pow2_large(m as nat, shift as nat);
                }
                u128::MAX
            } else {
                let unit = pow2_u128(shift as u32);
                proof {
                    lemma_times_pow2_small(m as nat, shift as nat);
                }
                m * unit
            }
        } else {
            let unit = pow2_u128((EXPONENT_WHOLE - e) as u32);
            proof {
                lemma_pow2_pos((EXPONENT_WHOLE - e) as nat);
            }
            m / unit
        }
    }

    /// The natural number that the number is, if it is one that a machine
    /// word holds.
    pub fn as_nat(&self) -> (r: Option<usize>)
        ensures
            r == self.index_value(),
    {
        if !self.is_integral() {
            return None;
        }
        if self.bits >= SIGN_BIT && !self.is_zero() {
            return None;
        }
        if self.is_zero() {
            return Some(0);
        }
        let m = self.to_u128();
        if m > usize::MAX as u128 {
            None
        } else {
            Some(m as usize)
        }
    }

    /// The number nearest to the natural `n`.
    pub fn from_u128(n: u128) -> (r: Num)
        ensures
            r == num_of_nat(n as nat),
    {
        if n == 0 {
            return Num { bits: 0 };
        }
        let mut p: u32 = 0;
        let mut t: u128 = n;
        proof {
            lemma2_to64();
        }
        while t > 1
            invariant
                t >= 1,
                p <= 127,
                bit_length(n as nat) == bit_length(t as nat) + p,
                t as nat * pow2(p as nat) <= n,
            decreases t,
        {
            proof {
                lemma_pow2_unfold((p + 1) as nat);
                assert(t / 2 * (2 * pow2(p as nat)) <= t * pow2(p as nat)) by (nonlinear_arith)
                    requires
                        t >= 0,
                        pow2(p as nat) >= 0,
                ;
                if p >= 127 {
                    lemma_pow2_128();
                    lemma_pow2_strictly_increases(127, (p + 1) as nat);
                    assert(t / 2 >= 1);
                    assert(1 * pow2((p + 1) as nat) <= (t / 2) * pow2((p + 1) as nat))
                        by (nonlinear_arith)
                        requires
                            t / 2 >= 1,
                            pow2((p + 1) as nat) >= 0,
                    ;
                }
            }
            t = t / 2;
            p = p + 1;
        }
        assert(bit_length(1) == 1) by {
            reveal_with_fuel(bit_length, 2);
        }
        let p64 = p as u64;
        if p <= 52 {
            let unit = pow2_u128(52 - p);
            proof {
                lemma_bit_length_bounds(n as nat);
                lemma_pow2_adds(p as nat, (52 - p) as nat);
                lemma2_to64_rest();
                lemma_pow2_pos((52 - p) as nat);
                assert(n * pow2((52 - p) as nat) < pow2((p + 1) as nat) * pow2((52 - p) as nat))
                    by (nonlinear_arith)
                    requires
                        n < pow2((p + 1) as nat),
                        pow2((52 - p) as nat) > 0,
                ;
                assert(pow2(p as nat) * pow2((52 - p) as nat) <= n * pow2((52 - p) as nat))
                    by (nonlinear_arith)
                    requires
                        pow2(p as nat) <= n,
                        pow2((52 - p) as nat) > 0,
                ;
                lemma_pow2_adds((p + 1) as nat, (52 - p) as nat);
                lemma_pow2_pos((52 - p) as nat);
            }
            let m = n * unit;
            Num { bits: (EXPONENT_BIAS + p64) * HIDDEN_BIT + (m as u64 - HIDDEN_BIT) }
        } else {
            let unit = pow2_u128(p - 52);
            proof {
                lemma_bit_length_bounds(n as nat);
                lemma_pow2_pos((p - 52) as nat);
                lemma_pow2_adds(52, (p - 52) as nat);
                lemma_pow2_adds(53, (p - 52) as nat);
                lemma2_to64_rest();
                lemma_quotient_bounds(n as nat, unit as nat, HIDDEN_BIT as nat);
            }
            let q = n / unit;
            let r = n % unit;
            let half = unit / 2;
            proof {
                lemma_pow2_unfold((p - 52) as nat);
            }
            let up = r > half || (r == half && q % 2 == 1);
            if !up {
                Num { bits: (EXPONENT_BIAS + p64) * HIDDEN_BIT + (q as u64 - HIDDEN_BIT) }
            } else if q + 1 == 2 * (HIDDEN_BIT as u128) {
                Num { bits: (EXPONENT_BIAS + p64 + 1) * HIDDEN_BIT }
            } else {
                Num { bits: (EXPONENT_BIAS + p64) * HIDDEN_BIT + ((q + 1) as u64 - HIDDEN_BIT) }
            }
        }
    }

    /// The number nearest to a natural of more than 53 binary digits, from
    /// its exponent, its leading 53 digits, the digit below them and whether
    /// any digit below that one is set.
    pub(crate) fn round(p: u64, q: u64, half: bool, rest: bool) -> (r: Num)
        requires
            p <= 1023,
            HIDDEN_BIT <= q < 2 * HIDDEN_BIT,
        ensures
            r == rounded(p as nat, q as nat, half, rest),
    {
        let up = half && (rest || q % 2 == 1);
        if !up {
            Num { bits: (EXPONENT_BIAS + p) * HIDDEN_BIT + (q - HIDDEN_BIT) }
        } else if q + 1 == 2 * HIDDEN_BIT {
            Num { bits: (EXPONENT_BIAS + p + 1) * HIDDEN_BIT }
        } else {
            Num { bits: (EXPONENT_BIAS + p) * HIDDEN_BIT + (q + 1 - HIDDEN_BIT) }
        }
    }

    /// The number that the natural `n` is, or the nearest to it.
    pub fn from_usize(n: usize) -> (r: Num)
        ensures
            r == num_of_nat(n as nat),
    {
        Num::from_u128(n as u128)
    }
}

/// Two to the power `k`.
pub fn pow2_u128(k: u32) -> (r: u128)
    requires
        k <= 127,
    ensures
        r == pow2(k as nat),
{
    let mut r: u128 = 1;
    let mut i: u32 = 0;
    proof {
        lemma2_to64();
    }
    while i < k
        invariant
            i <= k <= 127,
            r == pow2(i as nat),
        decreases k - i,
    {
        proof {
            lemma_pow2_unfold((i + 1) as nat);
            lemma_pow2_128();
            if i + 1 < 127 {
                lemma_pow2_strictly_increases((i + 1) as nat, 127);
            }
        }
        r = r * 2;
        i = i + 1;
    }
    r
}

/// The two powers of two next to the largest 128-bit natural.
pub proof fn lemma_pow2_128()
    ensures
        pow2(127) == 0x8000_0000_0000_0000_0000_0000_0000_0000,
        pow2(128) == 0x1_0000_0000_0000_0000_0000_0000_0000_0000,
{
    lemma2_to64();
    lemma2_to64_rest();
    lemma_pow2_adds(64, 63);
    lemma_pow2_adds(64, 64);
}

/// The power of two that bounds a significand.
pub proof fn lemma_pow2_53()
    ensures
        pow2(52) == HIDDEN_BIT,
        pow2(53) == 2 * HIDDEN_BIT,
{
    lemma2_to64_rest();
}

/// A natural above zero lies between two powers of two that its number of
/// binary digits gives.
pub proof fn lemma_bit_length_bounds(n: nat)
    requires
        n > 0,
    ensures
        pow2((bit_length(n) - 1) as nat) <= n < pow2(bit_length(n)),
    decreases n,
{
    lemma2_to64();
    if n == 1 {
        reveal_with_fuel(bit_length, 2);
    } else {
        lemma_bit_length_bounds(n / 2);
        lemma_pow2_unfold(bit_length(n));
        lemma_pow2_unfold((bit_length(n) - 1) as nat);
    }
}

/// The number of binary digits of a natural that lies between two
/// neighbouring powers of two.
pub proof fn lemma_bit_length_unique(n: nat, p: nat)
    requires
        pow2(p) <= n < pow2(p + 1),
    ensures
        bit_length(n) == p + 1,
{
    lemma_pow2_pos(p);
    lemma_bit_length_bounds(n);
    let b = bit_length(n);
    if b < p + 1 {
        if b < p {
            lemma_pow2_strictly_increases(b, p);
        }
    } else if b > p + 1 {
        lemma_pow2_strictly_increases(p + 1, (b - 1) as nat);
    }
}

/// A 53-bit significand times a power of two from the 76th on is beyond the
/// 128-bit naturals.
proof fn lemma_times_pow2_large(m: nat, shift: nat)
    requires
        m >= HIDDEN_BIT,
        shift >= 76,
    ensures
        m * pow2(shift) > u128::MAX,
{
    lemma_pow2_128();
    lemma2_to64_rest();
    lemma_pow2_adds(52, 76);
    if shift > 76 {
        lemma_pow2_strictly_increases(76, shift);
    }
    assert(m * pow2(shift) >= pow2(52) * pow2(76)) by (nonlinear_arith)
        requires
            m >= pow2(52),
            pow2(shift) >= pow2(76),
    ;
}

/// A 53-bit significand times a power of two below the 76th is a 128-bit
/// natural.
proof fn lemma_times_pow2_small(m: nat, shift: nat)
    requires
        m < 2 * HIDDEN_BIT,
        shift < 76,
    ensures
        m * pow2(shift) <= u128::MAX,
{
    lemma_pow2_128();
    lemma2_to64_rest();
    lemma_pow2_adds(53, 75);
    if shift < 75 {
        lemma_pow2_strictly_increases(shift, 75);
    }
    lemma_pow2_pos(shift);
    lemma_pow2_pos(75);
    assert(m * pow2(shift) < pow2(53) * pow2(75)) by (nonlinear_arith)
        requires
            m < pow2(53),
            pow2(shift) <= pow2(75),
            pow2(shift) > 0,
            pow2(75) > 0,
    ;
    lemma_pow2_pos(shift);
    lemma_pow2_pos(75);
}

/// The quotient of a natural between `lo * unit` and `2 * lo * unit` by
/// `unit` lies between `lo` and `2 * lo`.
proof fn lemma_quotient_bounds(n: nat, unit: nat, lo: nat)
    requires
        unit > 0,
        lo * unit <= n < 2 * lo * unit,
    ensures
        lo <= n / unit < 2 * lo,
{
    vstd::arithmetic::div_mod::lemma_fundamental_div_mod(n as int, unit as int);
    let q = n / unit;
    let r = n % unit;
    assert(0 <= r < unit) by {
        vstd::arithmetic::div_mod::lemma_mod_bound(n as int, unit as int);
    }
    assert(q >= lo) by (nonlinear_arith)
        requires
            n == unit * q + r,
            0 <= r < unit,
            lo * unit <= n,
            unit > 0,
    ;
    assert(q < 2 * lo) by (nonlinear_arith)
        requires
            n == unit * q + r,
            0 <= r < unit,
            n < 2 * lo * unit,
            unit > 0,
            q >= 0,
    ;
}

/// The number nearest to a natural of more than 53 binary digits is given
/// by its parts: with `n` written as its leading 53 digits `q`, the digit
/// `half` below them and the digits `low` below that one.
pub proof fn lemma_num_of_parts(n: nat, p: nat, q: nat, half: nat, low: nat)
    requires
        53 <= p <= 1023,
        HIDDEN_BIT <= q < 2 * HIDDEN_BIT,
        half <= 1,
        low < pow2((p - 53) as nat),
        n == q * pow2((p - 52) as nat) + half * pow2((p - 53) as nat) + low,
    ensures
        bit_length(n) == p + 1,
        num_of_nat(n) == rounded(p, q, half == 1, low > 0),
{
    let unit = pow2((p - 52) as nat);
    let h = pow2((p - 53) as nat);
    let rem = half * h + low;
    lemma_pow2_unfold((p - 52) as nat);
    lemma_pow2_pos((p - 53) as nat);
    lemma2_to64_rest();
    lemma_pow2_adds(52, (p - 52) as nat);
    lemma_pow2_adds(53, (p - 52) as nat);
    assert(unit == 2 * h);
    assert(half * h <= h) by (nonlinear_arith)
        requires
            half <= 1,
            h > 0,
    ;
    assert(rem < unit);
    assert(n == q * unit + rem);
    vstd::arithmetic::div_mod::lemma_fundamental_div_mod_converse(
        n as int,
        unit as int,
        q as int,
        rem as int,
    );
    assert(n / unit == q);
    assert(n % unit == rem);
    assert(pow2(52) * unit <= q * unit) by (nonlinear_arith)
        requires
            pow2(52) <= q,
            unit > 0,
    ;
    assert(q * unit + unit <= pow2(53) * unit) by (nonlinear_arith)
        requires
            q + 1 <= pow2(53),
            unit > 0,
    ;
    lemma_bit_length_unique(n, p);
    if half == 1 {
        assert(half * h == h) by (nonlinear_arith)
            requires
                half == 1,
        ;
    } else {
        assert(half * h == 0) by (nonlinear_arith)
            requires
                half == 0,
        ;
    }
    assert((2 * rem > unit) == (half == 1 && low > 0));
    assert((2 * rem == unit) == (half == 1 && low == 0));
}

/// The fields of the pattern with exponent field `e` and fraction `f`.
pub proof fn lemma_fields(e: nat, f: nat)
    requires
        e < 2048,
        f < HIDDEN_BIT,
    ensures
        e * HIDDEN_BIT + f < SIGN_BIT,
        (Num { bits: (e * HIDDEN_BIT + f) as u64 }).exponent() == e,
        (Num { bits: (e * HIDDEN_BIT + f) as u64 }).fraction() == f,
        !(Num { bits: (e * HIDDEN_BIT + f) as u64 }).negative(),
{
    let bits = e * HIDDEN_BIT + f;
    assert(bits < 2048 * HIDDEN_BIT) by (nonlinear_arith)
        requires
            bits == e * HIDDEN_BIT + f,
            e < 2048,
            f < HIDDEN_BIT,
    ;
    crate::index::lemma_split(e as int, HIDDEN_BIT as int, f as int);
}

/// The pattern of a number that is not negative is its exponent field and
/// its fraction put together.
pub proof fn lemma_pattern(b: Num)
    requires
        !b.negative(),
    ensures
        b.bits == b.exponent() * HIDDEN_BIT + b.fraction(),
        b.exponent() < 2048,
        b.fraction() < HIDDEN_BIT,
{
    crate::index::lemma_parts(b.bits as int, HIDDEN_BIT as int);
    let q = b.bits as int / (HIDDEN_BIT as int);
    assert(q < 2048) by (nonlinear_arith)
        requires
            b.bits == q * HIDDEN_BIT + b.bits % HIDDEN_BIT,
            0 <= b.bits % HIDDEN_BIT,
            b.bits < 2048 * HIDDEN_BIT,
    ;
}

/// A natural below two to the power 53 is the natural value of the number
/// that stands for it.
pub proof fn lemma_num_of_small(n: nat)
    requires
        n < 2 * HIDDEN_BIT,
    ensures
        num_of_nat(n).nat_value() == Some(n),
        !num_of_nat(n).negative(),
        n <= usize::MAX ==> num_of_nat(n).index_value() == Some(n as usize),
{
    lemma2_to64();
    lemma2_to64_rest();
    if n == 0 {
        assert((Num { bits: 0 }).zero());
    } else {
        lemma_bit_length_bounds(n);
        let p = (bit_length(n) - 1) as nat;
        assert(p <= 52) by {
            if p > 52 {
                lemma_pow2_strictly_increases(53, p);
            }
        }
        let k = (52 - p) as nat;
        lemma_pow2_pos(k);
        lemma_pow2_adds(p, k);
        lemma_pow2_adds(p + 1, k);
        let m = n * pow2(k);
        assert(pow2(p) * pow2(k) <= m < pow2(p + 1) * pow2(k)) by (nonlinear_arith)
            requires
                m == n * pow2(k),
                pow2(p) <= n < pow2(p + 1),
                pow2(k) > 0,
        ;
        let f = (m - HIDDEN_BIT) as nat;
        lemma_fields(EXPONENT_BIAS as nat + p, f);
        let b = num_of_nat(n);
        assert(b.significand() == m);
        assert(m % pow2(k) == 0 && m / pow2(k) == n) by {
            crate::index::lemma_split(n as int, pow2(k) as int, 0);
        }
        if k == 0 {
            assert(m * pow2(0) == n) by (nonlinear_arith)
                requires
                    m == n * pow2(0),
                    pow2(0) == 1,
            ;
        }
    }
}

/// The number that stands for the natural value of a number is that number
/// again, but for the sign of zero: the two have one key.
pub proof fn lemma_num_of_value(b: Num)
    requires
        b.nat_value().is_some(),
    ensures
        num_of_nat(b.nat_value().unwrap()).key() == b.key(),
        !b.negative() ==> num_of_nat(b.nat_value().unwrap()) == b,
        num_of_nat(b.nat_value().unwrap()).nat_value() == b.nat_value(),
{
    lemma2_to64();
    lemma2_to64_rest();
    let n = b.nat_value().unwrap();
    if b.zero() {
        assert((Num { bits: 0 }).zero());
        if b.negative() {
            crate::index::lemma_parts(b.bits as int, HIDDEN_BIT as int);
            let q = b.bits as int / (HIDDEN_BIT as int);
            assert(q < 4096) by (nonlinear_arith)
                requires
                    b.bits == q * HIDDEN_BIT + b.bits % HIDDEN_BIT,
                    0 <= b.bits % HIDDEN_BIT,
                    b.bits < 4096 * HIDDEN_BIT,
            ;
            assert(q == 2048);
        } else {
            lemma_pattern(b);
        }
    } else {
        lemma_pattern(b);
        let e = b.exponent();
        let f = b.fraction();
        let m = b.significand();
        let p = (e - EXPONENT_BIAS) as nat;
        if e >= EXPONENT_WHOLE {
            let s = (e - EXPONENT_WHOLE) as nat;
            lemma_pow2_pos(s);
            lemma_pow2_adds(52, s);
            lemma_pow2_adds(53, s);
            assert(pow2(52) * pow2(s) <= n < pow2(53) * pow2(s)) by (nonlinear_arith)
                requires
                    n == m * pow2(s),
                    pow2(52) <= m < pow2(53),
                    pow2(s) > 0,
            ;
            lemma_bit_length_unique(n, p);
            crate::index::lemma_split(m as int, pow2(s) as int, 0);
            if s == 0 {
                assert(n * pow2(0) == m) by (nonlinear_arith)
                    requires
                        n == m * pow2(0),
                        pow2(0) == 1,
                ;
            }
        } else {
            let k = (EXPONENT_WHOLE - e) as nat;
            lemma_pow2_pos(k);
            crate::index::lemma_parts(m as int, pow2(k) as int);
            assert(m == n * pow2(k));
            lemma_pow2_adds(p, k);
            lemma_pow2_adds(p + 1, k);
            assert(pow2(p) <= n < pow2(p + 1)) by (nonlinear_arith)
                requires
                    m == n * pow2(k),
                    pow2(p) * pow2(k) <= m < pow2(p + 1) * pow2(k),
                    pow2(k) > 0,
            ;
            lemma_bit_length_unique(n, p);
        }
        assert(num_of_nat(n) == b);
    }
}

/// The number that stands for a natural of up to 1023 binary digits is a
/// natural number itself: the natural, where that has no more than 53
/// binary digits, and else a multiple of the unit of the last of its first
/// 53 digits that is no further from the natural than half that unit.
pub proof fn lemma_num_of_nat_nearest(n: nat)
    requires
        0 < n,
        bit_length(n) <= 1023,
    ensures
        num_of_nat(n).nat_value().is_some(),
        !num_of_nat(n).negative(),
        bit_length(n) <= 53 ==> num_of_nat(n).nat_value() == Some(n),
        bit_length(n) > 53 ==> {
            let unit = pow2((bit_length(n) - 53) as nat);
            let v = num_of_nat(n).nat_value().unwrap();
            &&& v % unit == 0
            &&& 2 * (v - n) <= unit
            &&& 2 * (n - v) <= unit
        },
{
    lemma2_to64();
    lemma2_to64_rest();
    lemma_bit_length_bounds(n);
    let p = (bit_length(n) - 1) as nat;
    if p <= 52 {
        assert(n < 2 * HIDDEN_BIT) by {
            if p + 1 < 53 {
                lemma_pow2_strictly_increases(p + 1, 53);
            }
        }
        lemma_num_of_small(n);
    } else {
        let s = (p - 52) as nat;
        let unit = pow2(s);
        lemma_pow2_pos(s);
        lemma_pow2_adds(52, s);
        lemma_pow2_adds(53, s);
        lemma_quotient_bounds(n, unit, HIDDEN_BIT as nat);
        let q = n / unit;
        let r = n % unit;
        crate::index::lemma_parts(n as int, unit as int);
        let up = 2 * r > unit || (2 * r == unit && q % 2 == 1);
        let b = num_of_nat(n);
        if !up {
            lemma_fields(EXPONENT_BIAS as nat + p, (q - HIDDEN_BIT) as nat);
            assert(b.significand() == q);
            crate::index::lemma_split(q as int, unit as int, 0);
            assert(q * unit == n - r);
        } else if q + 1 == 2 * HIDDEN_BIT {
            lemma_fields(EXPONENT_BIAS as nat + p + 1, 0);
            assert(b.significand() == HIDDEN_BIT);
            lemma_pow2_unfold(s + 1);
            let v = HIDDEN_BIT * pow2(s + 1);
            assert(v == (q + 1) * unit) by (nonlinear_arith)
                requires
                    v == HIDDEN_BIT * pow2(s + 1),
                    pow2(s + 1) == 2 * unit,
                    q + 1 == 2 * HIDDEN_BIT,
            ;
            crate::index::lemma_split((q + 1) as int, unit as int, 0);
            assert((q + 1) * unit == n - r + unit) by (nonlinear_arith)
                requires
                    n == q * unit + r,
            ;
        } else {
            lemma_fields(EXPONENT_BIAS as nat + p, (q + 1 - HIDDEN_BIT) as nat);
            assert(b.significand() == q + 1);
            crate::index::lemma_split((q + 1) as int, unit as int, 0);
            assert((q + 1) * unit == n - r + unit) by (nonlinear_arith)
                requires
                    n == q * unit + r,
            ;
        }
    }
}

} // verus!
