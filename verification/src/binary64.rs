//! The reals of the language as IEEE-754 binary64 bit patterns: literals, integers and
//! ratios rounded to the nearest real, and reals taken as integers and truth values.

use crate::ascii::{DIGIT_0, DIGIT_9, DOLLAR, DOT, LOWER_A, LOWER_F, UPPER_A, UPPER_F};
use vstd::arithmetic::div_mod::lemma_fundamental_div_mod_converse;
use vstd::arithmetic::power2::{
    lemma2_to64, lemma2_to64_rest, lemma_pow2_adds, lemma_pow2_pos, lemma_pow2_strictly_increases,
    lemma_pow2_unfold, pow2,
};
use vstd::prelude::*;

verus! {

/// A real number of the language: the bit pattern of an IEEE-754 binary64 value.
///
/// Bit 63 is the sign, bits 52 to 62 hold the exponent plus 1023, bits 0 to 51 the fraction.
/// A pattern with an exponent field between 1 and 2046 stands for
/// `(2^52 + fraction) * 2^(field - 1075)`, negated where the sign is set.
#[derive(Clone, Copy, Debug, PartialEq, Eq, Hash, Structural)]
pub struct Real {
    pub bits: u64,
}

/// Two to the power 52: the weight of the exponent field, and the hidden bit of a significand.
pub const HIDDEN: u64 = 0x10_0000_0000_0000;

/// The exponent field of one: 1023, and 52 more for a significand read as an integer.
pub const BIAS: u64 = 1075;

/// How often `n` must be doubled to reach `d * 2^52`.
pub open spec fn up_shift(n: nat, d: nat) -> nat
    decreases
            (if n < d * pow2(52) {
                d * pow2(52) - n
            } else {
                0
            }),
{
    if 0 < n < d * pow2(52) {
        1 + up_shift(2 * n, d)
    } else {
        0
    }
}

/// How often `d` must be doubled for `d * 2^53` to pass `n`.
pub open spec fn down_shift(n: nat, d: nat) -> nat
    decreases
            (if n >= d * pow2(53) {
                n - d * pow2(53) + 1
            } else {
                0
            }),
{
    if 0 < d && n >= d * pow2(53) {
        proof {
            lemma_pow2_pos(53);
            assert((2 * d) * pow2(53) == 2 * (d * pow2(53))) by (nonlinear_arith);
            assert(d * pow2(53) > 0) by (nonlinear_arith)
                requires
                    d > 0,
                    pow2(53) > 0,
            ;
        }
        1 + down_shift(n, 2 * d)
    } else {
        0
    }
}

/// The integer nearest to `a / b`; of two that are equally near, the even one.
pub open spec fn round_half_even(a: nat, b: nat) -> nat {
    let q = a / b;
    let r = a % b;
    if 2 * r < b {
        q
    } else if 2 * r > b {
        q + 1
    } else {
        q + q % 2
    }
}

/// The binary64 value nearest to `n / d`; of two that are equally near, the one with the
/// even significand.
///
/// A power of two brings `n / d` between `2^52` and `2^53`, where it is rounded to an
/// integer: the significand. The exponent field counts the doublings, and a significand
/// that rounds up to `2^53` carries into it.
pub open spec fn nearest(n: nat, d: nat) -> Real {
    if n == 0 {
        Real { bits: 0 }
    } else {
        let up = up_shift(n, d);
        let down = down_shift(n, d);
        let significand = round_half_even(n * pow2(up), d * pow2(down));
        Real { bits: ((BIAS + down - up) * pow2(52) + significand - pow2(52)) as u64 }
    }
}

proof fn lemma_quotient_bound(a: int, b: int, q: int, r: int, k: int)
    by (nonlinear_arith)
    requires
        0 < b,
        0 <= r < b,
        a == q * b + r,
    ensures
        q < k <==> a < b * k,
{
    if q < k {
        assert(q * b <= (k - 1) * b);
    } else {
        assert(q * b >= k * b);
    }
}

proof fn lemma_double_step(a: int, d: int, q: int, r: int)
    by (nonlinear_arith)
    requires
        a == q * d + r,
    ensures
        2 * a == (2 * q + 1) * d + (2 * r - d),
        2 * a == (2 * q) * d + 2 * r,
{
}

proof fn lemma_halve_step(n: int, d: int, p: int, q: int, low: int, r: int)
    by (nonlinear_arith)
    requires
        0 <= low < p,
        0 <= r < d,
        0 <= q,
        n == q * (d * p) + (low * d + r),
    ensures
        n == (q / 2) * (d * (2 * p)) + ((low + (q % 2) * p) * d + r),
        0 <= low + (q % 2) * p < 2 * p,
        0 <= low * d + r < d * p,
{
    assert(q == 2 * (q / 2) + q % 2);
    assert((low + 1) * d <= p * d);
}

proof fn lemma_round_low(d: int, p: int, low: int, r: int)
    by (nonlinear_arith)
    requires
        0 < d,
        0 <= r < d,
        0 <= low,
        p % 2 == 0,
    ensures
        2 * low > p ==> 2 * (low * d + r) > d * p,
        2 * low < p ==> 2 * (low * d + r) < d * p,
        2 * low == p ==> 2 * (low * d + r) == d * p + 2 * r,
{
    if 2 * low > p {
        assert(2 * low >= p + 1);
        assert(2 * low * d >= (p + 1) * d);
    }
    if 2 * low < p {
        assert(2 * low <= p - 2);
        assert(2 * low * d <= (p - 2) * d);
    }
}

/// The doublings that `up_shift` counts bring `n / d` to `2^52` or above, and where there are
/// any, not to `2^53`.
pub proof fn lemma_up_shift(n: nat, d: nat)
    requires
        n > 0,
        d > 0,
    ensures
        d * pow2(52) <= n * pow2(up_shift(n, d)),
        up_shift(n, d) > 0 ==> n * pow2(up_shift(n, d)) < d * pow2(53),
    decreases
            (if n < d * pow2(52) {
                d * pow2(52) - n
            } else {
                0
            }),
{
    lemma2_to64();
    lemma2_to64_rest();
    if n < d * pow2(52) {
        let rest = up_shift(2 * n, d);
        lemma_up_shift(2 * n, d);
        lemma_pow2_unfold(rest + 1);
        assert(n * pow2(rest + 1) == (2 * n) * pow2(rest)) by (nonlinear_arith)
            requires
                pow2(rest + 1) == 2 * pow2(rest),
        ;
        if rest == 0 {
            assert(d * pow2(53) == 2 * (d * pow2(52))) by (nonlinear_arith)
                requires
                    pow2(53) == 2 * pow2(52),
            ;
            assert((2 * n) * pow2(0) == 2 * n) by (nonlinear_arith)
                requires
                    pow2(0) == 1,
            ;
        }
    } else {
        assert(n * pow2(0) == n) by (nonlinear_arith)
            requires
                pow2(0) == 1,
        ;
    }
}

/// An integer below `2^53` is a real exactly: the real nearest to it has no sign, is a
/// number, and has the integer for its whole part.
pub proof fn lemma_nearest_integer(n: nat)
    requires
        n < 0x20_0000_0000_0000,
    ensures
        !nearest(n, 1).negative(),
        nearest(n, 1).is_finite(),
        !nearest(n, 1).is_nan(),
        nearest(n, 1).whole() == n,
        nearest(n, 1).bits < 0x4340_0000_0000_0000,
{
    lemma2_to64();
    lemma2_to64_rest();
    if n == 0 {
        lemma_pow2_pos(BIAS as nat);
        assert(0nat / pow2(BIAS as nat) == 0) by (nonlinear_arith)
            requires
                pow2(BIAS as nat) > 0,
        ;
    } else {
        let up = up_shift(n, 1);
        lemma_up_shift(n, 1);
        assert(down_shift(n, 1) == 0);
        let a = n * pow2(up);
        assert(1 * pow2(0) == 1);
        assert(round_half_even(a, 1) == a);
        lemma_pow2_pos(up);
        if up >= 53 {
            if up > 53 {
                lemma_pow2_strictly_increases(53, up);
            }
            assert(n * pow2(up) >= pow2(53)) by (nonlinear_arith)
                requires
                    n >= 1,
                    pow2(up) >= pow2(53),
            ;
        }
        assert(pow2(52) <= a < pow2(53));
        let made = nearest(n, 1);
        let bits = (BIAS - up) * pow2(52) + a - pow2(52);
        assert(made.bits == bits);
        assert(made.field() == BIAS - up);
        assert(made.fraction() == a - pow2(52));
        assert(made.significand() == a);
        if up == 0 {
            assert(a * pow2(0) == a);
            assert(n * pow2(0) == n);
        } else {
            assert(a / pow2(up) == n) by (nonlinear_arith)
                requires
                    a == n * pow2(up),
                    pow2(up) > 0,
            ;
        }
    }
}

/// An unsigned integer of 32 bits is found again in the real made of it.
pub proof fn lemma_u32_round_trip(value: u32)
    ensures
        nearest(value as nat, 1).spec_to_u32() == value,
{
    lemma_nearest_integer(value as nat);
}

/// A signed integer of 32 bits is found again in the real made of it.
pub proof fn lemma_i32_round_trip(value: i32)
    ensures
        Real::spec_from_i32(value).spec_to_i32() == value,
{
    if value < 0 {
        let magnitude = nearest((-value) as nat, 1);
        lemma_nearest_integer((-value) as nat);
        let made = Real::spec_from_i32(value);
        assert(made.bits == magnitude.bits + 0x8000_0000_0000_0000);
        assert(made.field() == magnitude.field());
        assert(made.fraction() == magnitude.fraction());
        assert(made.whole() == magnitude.whole());
    } else {
        lemma_nearest_integer(value as nat);
    }
}

/// A truth value is found again in the real made of it.
pub proof fn lemma_bool_round_trip(value: bool)
    ensures
        nearest(if value { 1nat } else { 0nat }, 1).spec_to_bool() == value,
{
    lemma2_to64();
    lemma2_to64_rest();
    if value {
        reveal_with_fuel(up_shift, 54);
        assert(up_shift(1, 1) == 52) by {
            lemma_up_shift_one();
        }
        assert(down_shift(1, 1) == 0);
        assert(1 * pow2(52) == pow2(52));
        assert(round_half_even(pow2(52), 1) == pow2(52));
    }
}

/// One must be doubled 52 times to reach `2^52`.
proof fn lemma_up_shift_one()
    ensures
        up_shift(1, 1) == 52,
{
    lemma2_to64();
    lemma2_to64_rest();
    lemma_up_shift_power(0);
}

/// A power of two up to `2^52` must be doubled as often as its exponent lacks to 52.
proof fn lemma_up_shift_power(exponent: nat)
    requires
        exponent <= 52,
    ensures
        up_shift(pow2(exponent), 1) == 52 - exponent,
    decreases 52 - exponent,
{
    lemma2_to64();
    lemma2_to64_rest();
    lemma_pow2_pos(exponent);
    if exponent < 52 {
        lemma_pow2_strictly_increases(exponent, 52);
        lemma_pow2_unfold(exponent + 1);
        lemma_up_shift_power(exponent + 1);
    }
}

impl Real {
    /// The real with the given bit pattern.
    pub fn from_bits(bits: u64) -> (value: Real)
        ensures
            value.bits == bits,
    {
        Real { bits }
    }

    /// The bit pattern of the real.
    pub fn to_bits(self) -> (bits: u64)
        ensures
            bits == self.bits,
    {
        self.bits
    }

    /// The exponent field: bits 52 to 62.
    pub open spec fn field(self) -> nat {
        ((self.bits / HIDDEN) % 2048) as nat
    }

    /// The fraction: bits 0 to 51.
    pub open spec fn fraction(self) -> nat {
        (self.bits % HIDDEN) as nat
    }

    /// Whether the sign bit is set.
    pub open spec fn negative(self) -> bool {
        self.bits >= 0x8000_0000_0000_0000
    }

    /// Whether the real is not a number: the exponent field is full and the fraction is not
    /// zero.
    pub open spec fn is_nan(self) -> bool {
        self.field() == 2047 && self.fraction() != 0
    }

    /// Whether the real is a number, infinity excluded: the exponent field is not full.
    pub open spec fn is_finite(self) -> bool {
        self.field() != 2047
    }

    /// Whether the real is not a number.
    pub fn nan(self) -> (nan: bool)
        ensures
            nan == self.is_nan(),
    {
        (self.bits / HIDDEN) % 2048 == 2047 && self.bits % HIDDEN != 0
    }

    /// Whether the real is a number, infinity excluded.
    pub fn finite(self) -> (finite: bool)
        ensures
            finite == self.is_finite(),
    {
        (self.bits / HIDDEN) % 2048 != 2047
    }

    /// The significand: the fraction, with the hidden bit before it unless the exponent field
    /// is zero.
    pub open spec fn significand(self) -> nat {
        if self.field() == 0 {
            self.fraction()
        } else {
            HIDDEN as nat + self.fraction()
        }
    }

    /// The whole part of the magnitude: the significand times two to the power of the
    /// exponent field less 1075, without what follows the binary point. Infinity and the
    /// reals that are no numbers count as the numbers that their bits would write.
    pub open spec fn whole(self) -> nat {
        if self.field() >= BIAS {
            self.significand() * pow2((self.field() - BIAS) as nat)
        } else {
            self.significand() / pow2((BIAS - self.field()) as nat)
        }
    }

    /// The real as a signed integer of 32 bits: what follows the binary point is dropped, a
    /// real beyond the range becomes the nearest end of the range, and a real that is not a
    /// number becomes zero.
    pub open spec fn spec_to_i32(self) -> i32 {
        if self.is_nan() {
            0
        } else if self.negative() {
            if self.whole() >= 0x8000_0000 {
                i32::MIN
            } else {
                (-(self.whole() as int)) as i32
            }
        } else {
            if self.whole() > i32::MAX {
                i32::MAX
            } else {
                self.whole() as i32
            }
        }
    }

    /// The real as an unsigned integer of 32 bits: what follows the binary point is dropped,
    /// a real beyond the range becomes the nearest end of the range, and a real that is not
    /// a number becomes zero.
    pub open spec fn spec_to_u32(self) -> u32 {
        if self.is_nan() || self.negative() {
            0
        } else if self.whole() > u32::MAX {
            u32::MAX
        } else {
            self.whole() as u32
        }
    }

    /// Whether the real counts as true: whether it is greater than one half. Of the reals
    /// without a sign, those are the ones whose bits are above those of one half,
    /// `0x3fe0_0000_0000_0000`, up to those of infinity.
    pub open spec fn spec_to_bool(self) -> bool {
        0x3fe0_0000_0000_0000 < self.bits <= 0x7ff0_0000_0000_0000
    }

    /// The whole part of the magnitude where it is below `2^53`; `None` where the exponent
    /// field says that it is `2^52` at least.
    fn whole_part(self) -> (whole: Option<u64>)
        ensures
            whole is Some <==> self.field() < BIAS,
            whole matches Some(w) ==> w == self.whole() && w < 2 * HIDDEN,
            whole is None ==> self.whole() >= HIDDEN,
    {
        let field = (self.bits / HIDDEN) % 2048;
        let fraction = self.bits % HIDDEN;
        proof {
            lemma2_to64();
            lemma2_to64_rest();
        }
        if field >= BIAS {
            proof {
                let scale = pow2((field - BIAS) as nat);
                lemma_pow2_pos((field - BIAS) as nat);
                assert(self.significand() * scale >= HIDDEN) by (nonlinear_arith)
                    requires
                        self.significand() >= HIDDEN,
                        scale >= 1,
                ;
            }
            None
        } else if field < 1023 {
            proof {
                let k = (BIAS - field) as nat;
                if k > 53 {
                    lemma_pow2_strictly_increases(53, k);
                }
                assert(self.significand() / pow2(k) == 0) by (nonlinear_arith)
                    requires
                        self.significand() < pow2(k),
                ;
            }
            Some(0)
        } else {
            let significand = HIDDEN + fraction;
            let k = BIAS - field;
            proof {
                vstd::bits::lemma_u64_shr_is_div(significand, k);
                assert(significand >> k <= significand) by (bit_vector);
            }
            Some(significand >> k)
        }
    }

    /// The real as a signed integer of 32 bits.
    pub fn to_i32(self) -> (value: i32)
        ensures
            value == self.spec_to_i32(),
    {
        if self.nan() {
            return 0;
        }
        let negative = self.bits >= 0x8000_0000_0000_0000;
        match self.whole_part() {
            Some(whole) => if negative {
                if whole >= 0x8000_0000 {
                    i32::MIN
                } else {
                    -(whole as i32)
                }
            } else {
                if whole > 0x7fff_ffff {
                    i32::MAX
                } else {
                    whole as i32
                }
            },
            None => if negative {
                i32::MIN
            } else {
                i32::MAX
            },
        }
    }

    /// The real as an unsigned integer of 32 bits.
    pub fn to_u32(self) -> (value: u32)
        ensures
            value == self.spec_to_u32(),
    {
        if self.nan() || self.bits >= 0x8000_0000_0000_0000 {
            return 0;
        }
        match self.whole_part() {
            Some(whole) => if whole > 0xffff_ffff {
                u32::MAX
            } else {
                whole as u32
            },
            None => u32::MAX,
        }
    }

    /// Whether the real counts as true.
    pub fn to_bool(self) -> (value: bool)
        ensures
            value == self.spec_to_bool(),
    {
        0x3fe0_0000_0000_0000 < self.bits && self.bits <= 0x7ff0_0000_0000_0000
    }

    /// The real of an unsigned integer: the nearest one, which is the integer itself where it
    /// has 53 bits or fewer.
    pub fn from_u64(value: u64) -> (made: Real)
        ensures
            made == nearest(value as nat, 1),
    {
        Real::from_ratio(value as u128, 1)
    }

    /// The real of an unsigned integer of 32 bits.
    pub fn from_u32(value: u32) -> (made: Real)
        ensures
            made == nearest(value as nat, 1),
    {
        Real::from_ratio(value as u128, 1)
    }

    /// The real of a signed integer of 32 bits: that of its magnitude, with the sign bit set
    /// where the integer is negative.
    pub open spec fn spec_from_i32(value: i32) -> Real {
        if value < 0 {
            Real { bits: (nearest((-value) as nat, 1).bits + 0x8000_0000_0000_0000) as u64 }
        } else {
            nearest(value as nat, 1)
        }
    }

    /// The real of a signed integer of 32 bits.
    pub fn from_i32(value: i32) -> (made: Real)
        ensures
            made == Real::spec_from_i32(value),
    {
        if value < 0 {
            let magnitude = Real::from_ratio((-(value as i64)) as u128, 1);
            Real { bits: magnitude.bits + 0x8000_0000_0000_0000 }
        } else {
            Real::from_ratio(value as u128, 1)
        }
    }

    /// The real of a truth value: one for true, zero for false.
    pub fn from_bool(value: bool) -> (made: Real)
        ensures
            made == nearest(if value { 1nat } else { 0nat }, 1),
    {
        if value {
            Real::from_ratio(1, 1)
        } else {
            Real::from_ratio(0, 1)
        }
    }

    /// Positive zero.
    pub open spec fn spec_zero() -> Real {
        Real { bits: 0 }
    }

    /// Positive zero.
    pub fn zero() -> (value: Real)
        ensures
            value == Real::spec_zero(),
    {
        Real { bits: 0 }
    }

    /// The binary64 value nearest to `n / d`, ties to even.
    pub fn from_ratio(n: u128, d: u128) -> (value: Real)
        requires
            0 < d < 0x8000_0000_0000_0000_0000_0000_0000_0000,
        ensures
            value == nearest(n as nat, d as nat),
            value.bits < 0x7ff0_0000_0000_0000,
    {
        if n == 0 {
            return Real { bits: 0 };
        }
        proof {
            lemma2_to64();
            lemma2_to64_rest();
            lemma_pow2_adds(64, 63);
            lemma_pow2_adds(127, 52);
            lemma_pow2_adds(64, 64);
        }
        let hidden: u128 = 0x10_0000_0000_0000;
        let mut q: u128 = n / d;
        let mut r: u128 = n % d;
        let mut up: u64 = 0;
        let mut down: u64 = 0;
        let round_up: bool;
        assert(n == q * d + r) by (nonlinear_arith)
            requires
                q == n / d,
                r == n % d,
                d > 0,
        ;
        if q < hidden {
            proof {
                lemma_quotient_bound(n as int, d as int, q as int, r as int, pow2(53) as int);
                assert(down_shift(n as nat, d as nat) == 0);
                assert(n * pow2(0) == n) by (nonlinear_arith)
                    requires
                        pow2(0) == 1,
                ;
            }
            while q < hidden
                invariant
                    0 < d < 0x8000_0000_0000_0000_0000_0000_0000_0000,
                    0 < n,
                    hidden == pow2(52),
                    hidden == 0x10_0000_0000_0000,
                    pow2(179) == pow2(127) * pow2(52),
                    pow2(127) == 0x8000_0000_0000_0000_0000_0000_0000_0000,
                    r < d,
                    q < 2 * hidden,
                    n * pow2(up as nat) == q * d + r,
                    up_shift(n as nat, d as nat) == up + up_shift(
                        (n * pow2(up as nat)) as nat,
                        d as nat,
                    ),
                    up <= 179,
                decreases up_shift((n * pow2(up as nat)) as nat, d as nat),
            {
                let ghost a = (n * pow2(up as nat)) as int;
                proof {
                    lemma_quotient_bound(a, d as int, q as int, r as int, pow2(52) as int);
                    lemma_double_step(a, d as int, q as int, r as int);
                    lemma_pow2_unfold((up + 1) as nat);
                    assert(n * pow2((up + 1) as nat) == 2 * a) by (nonlinear_arith)
                        requires
                            pow2((up + 1) as nat) == 2 * pow2(up as nat),
                            a == n * pow2(up as nat),
                    ;
                    lemma_pow2_pos(up as nat);
                    assert(a > 0) by (nonlinear_arith)
                        requires
                            a == n * pow2(up as nat),
                            n > 0,
                            pow2(up as nat) > 0,
                    ;
                    if up >= 179 {
                        assert(pow2(up as nat) >= pow2(179)) by {
                            if up > 179 {
                                lemma_pow2_strictly_increases(179, up as nat);
                            }
                        }
                        assert(a >= pow2(179)) by (nonlinear_arith)
                            requires
                                a == n * pow2(up as nat),
                                n >= 1,
                                pow2(up as nat) >= pow2(179),
                        ;
                        assert(d * pow2(52) < pow2(179)) by (nonlinear_arith)
                            requires
                                d < pow2(127),
                                pow2(179) == pow2(127) * pow2(52),
                                pow2(52) > 0,
                        ;
                    }
                }
                let doubled = 2 * r;
                if doubled >= d {
                    q = 2 * q + 1;
                    r = doubled - d;
                } else {
                    q = 2 * q;
                    r = doubled;
                }
                up = up + 1;
            }
            proof {
                let a = (n * pow2(up as nat)) as int;
                lemma_quotient_bound(a, d as int, q as int, r as int, pow2(52) as int);
                assert(up_shift(a as nat, d as nat) == 0);
                lemma_fundamental_div_mod_converse(a, d as int, q as int, r as int);
                assert(d * pow2(0) == d) by (nonlinear_arith)
                    requires
                        pow2(0) == 1,
                ;
            }
            round_up = 2 * r > d || (2 * r == d && q % 2 == 1);
        } else {
            let mut p: u128 = 1;
            let mut low: u128 = 0;
            proof {
                lemma_quotient_bound(n as int, d as int, q as int, r as int, pow2(52) as int);
                assert(up_shift(n as nat, d as nat) == 0);
                assert(n * pow2(0) == n) by (nonlinear_arith)
                    requires
                        pow2(0) == 1,
                ;
                assert(n == q * (d * 1) + (0 * d + r)) by (nonlinear_arith)
                    requires
                        n == q * d + r,
                ;
            }
            while q >= 2 * hidden
                invariant
                    0 < d < 0x8000_0000_0000_0000_0000_0000_0000_0000,
                    0 < n,
                    hidden == pow2(52),
                    hidden == 0x10_0000_0000_0000,
                    2 * hidden == pow2(53),
                    pow2(128) == 0x1_0000_0000_0000_0000_0000_0000_0000_0000,
                    r < d,
                    low < p,
                    p == pow2(down as nat),
                    down > 0 ==> p % 2 == 0,
                    q >= hidden,
                    n == q * (d * p) + (low * d + r),
                    q * p + low <= u128::MAX,
                    down_shift(n as nat, d as nat) == down + down_shift(n as nat, (d * p) as nat),
                    down <= 75,
                decreases q,
            {
                proof {
                    lemma_halve_step(n as int, d as int, p as int, q as int, low as int, r as int);
                    lemma_quotient_bound(
                        n as int,
                        d * p,
                        q as int,
                        low * d + r,
                        pow2(53) as int,
                    );
                    lemma_pow2_unfold((down + 1) as nat);
                    assert(d * (2 * p) == 2 * (d * p)) by (nonlinear_arith);
                    assert((q / 2) * (2 * p) + (low + (q % 2) * p) == q * p + low)
                        by (nonlinear_arith)
                        requires
                            q == 2 * (q / 2) + q % 2,
                    ;
                    if down >= 75 {
                        assert(pow2(down as nat) >= pow2(75)) by {
                            if down > 75 {
                                lemma_pow2_strictly_increases(75, down as nat);
                            }
                        }
                        lemma_pow2_adds(75, 53);
                        assert(q * p >= pow2(128)) by (nonlinear_arith)
                            requires
                                q >= pow2(53),
                                p >= pow2(75),
                                pow2(128) == pow2(75) * pow2(53),
                        ;
                    }
                    assert(p * 0x20_0000_0000_0000 <= q * p) by (nonlinear_arith)
                        requires
                            q >= 0x20_0000_0000_0000,
                            p >= 0,
                    ;
                }
                low = low + (q % 2) * p;
                q = q / 2;
                p = 2 * p;
                down = down + 1;
            }
            proof {
                lemma_halve_step(n as int, d as int, p as int, q as int, low as int, r as int);
                lemma_quotient_bound(n as int, d * p, q as int, low * d + r, pow2(53) as int);
                assert(down_shift(n as nat, (d * p) as nat) == 0);
                lemma_fundamental_div_mod_converse(n as int, d * p, q as int, low * d + r);
                if down > 0 {
                    lemma_round_low(d as int, p as int, low as int, r as int);
                }
                assert(p * 0x10_0000_0000_0000 <= q * p) by (nonlinear_arith)
                    requires
                        q >= 0x10_0000_0000_0000,
                        p >= 0,
                ;
            }
            round_up = if down == 0 {
                2 * r > d || (2 * r == d && q % 2 == 1)
            } else {
                2 * low > p || (2 * low == p && (r > 0 || q % 2 == 1))
            };
        }
        let significand: u64 = if round_up {
            (q + 1) as u64
        } else {
            q as u64
        };
        let field: u64 = BIAS + down - up;
        assert(field * HIDDEN <= 1150 * HIDDEN) by (nonlinear_arith)
            requires
                field <= 1150,
        ;
        Real { bits: field * HIDDEN + significand - HIDDEN }
    }
}

/// Whether a byte is a digit of the radix, which is 10 or 16.
pub open spec fn is_digit(byte: u8, radix: nat) -> bool {
    DIGIT_0 <= byte <= DIGIT_9 || (radix == 16 && (UPPER_A <= byte <= UPPER_F || LOWER_A <= byte
        <= LOWER_F))
}

/// The value of a digit; 0 for a byte that is no digit.
pub open spec fn digit_value(byte: u8) -> nat {
    if DIGIT_0 <= byte <= DIGIT_9 {
        (byte - DIGIT_0) as nat
    } else if UPPER_A <= byte <= UPPER_F {
        (byte - UPPER_A + 10) as nat
    } else if LOWER_A <= byte <= LOWER_F {
        (byte - LOWER_A + 10) as nat
    } else {
        0
    }
}

/// Whether every byte is a digit of the radix.
pub open spec fn all_digits(digits: Seq<u8>, radix: nat) -> bool {
    forall|i: int| 0 <= i < digits.len() ==> is_digit(#[trigger] digits[i], radix)
}

/// The number that results from writing `digits` behind a number `before`.
pub open spec fn extend(before: nat, digits: Seq<u8>, radix: nat) -> nat
    decreases digits.len(),
{
    if digits.len() == 0 {
        before
    } else {
        extend(before, digits.drop_last(), radix) * radix + digit_value(digits.last())
    }
}

/// The number that a run of digits writes in the given radix.
pub open spec fn number(digits: Seq<u8>, radix: nat) -> nat {
    extend(0, digits, radix)
}

/// Ten to the power `exponent`.
pub open spec fn pow10(exponent: nat) -> nat
    decreases exponent,
{
    if exponent == 0 {
        1
    } else {
        10 * pow10((exponent - 1) as nat)
    }
}

/// The place of the first `.` in `text`; the length of `text` where it holds none.
pub open spec fn point_at(text: Seq<u8>) -> int
    decreases text.len(),
{
    if text.len() == 0 {
        0
    } else if text[0] == DOT {
        0
    } else {
        1 + point_at(text.drop_first())
    }
}

/// The digits of a decimal literal before its first `.`.
pub open spec fn whole_part(text: Seq<u8>) -> Seq<u8> {
    text.subrange(0, point_at(text))
}

/// What follows the first `.` of a decimal literal; nothing where it has no `.`.
pub open spec fn fraction_part(text: Seq<u8>) -> Seq<u8> {
    if point_at(text) < text.len() {
        text.subrange(point_at(text) + 1, text.len() as int)
    } else {
        Seq::empty()
    }
}

/// The value of the digits of a `$` literal: the binary64 value nearest to the number they
/// write in radix 16. `None` where there is no digit, where a byte is no digit, and where the
/// number does not fit 64 bits.
pub open spec fn hex_value(digits: Seq<u8>) -> Option<Real> {
    if digits.len() >= 1 && all_digits(digits, 16) && number(digits, 16) <= u64::MAX {
        Some(nearest(number(digits, 16), 1))
    } else {
        None
    }
}

/// The value of a decimal literal: the binary64 value nearest to the number that its digits
/// write. `None` where there is no digit, where a byte other than the first `.` is no digit,
/// where the digits without the `.` write a number that does not fit 128 bits, and where more
/// than 38 digits follow the `.`.
pub open spec fn decimal_value(text: Seq<u8>) -> Option<Real> {
    let digits = whole_part(text) + fraction_part(text);
    if digits.len() >= 1 && all_digits(digits, 10) && number(digits, 10) <= u128::MAX
        && fraction_part(text).len() <= 38 {
        Some(nearest(number(digits, 10), pow10(fraction_part(text).len())))
    } else {
        None
    }
}

/// The value of a literal as it is written in the source, or `None` where the literal has
/// none: a `$` and digits of radix 16, or decimal digits with or without a `.` among them.
pub open spec fn literal_value(text: Seq<u8>) -> Option<Real> {
    if text.len() > 0 && text[0] == DOLLAR {
        hex_value(text.subrange(1, text.len() as int))
    } else {
        decimal_value(text)
    }
}

/// More digits never write a smaller number.
pub proof fn lemma_extend_prefix(before: nat, digits: Seq<u8>, radix: nat, len: int)
    requires
        radix >= 1,
        0 <= len <= digits.len(),
    ensures
        extend(before, digits.subrange(0, len), radix) <= extend(before, digits, radix),
    decreases digits.len(),
{
    if len == digits.len() {
        assert(digits.subrange(0, len) =~= digits);
    } else {
        lemma_extend_prefix(before, digits.drop_last(), radix, len);
        assert(digits.drop_last().subrange(0, len) =~= digits.subrange(0, len));
        let shorter = extend(before, digits.drop_last(), radix);
        assert(shorter <= shorter * radix) by (nonlinear_arith)
            requires
                radix >= 1,
                shorter >= 0,
        ;
    }
}

/// Digits written behind digits write the number that they extend.
pub proof fn lemma_extend_concat(before: nat, first: Seq<u8>, second: Seq<u8>, radix: nat)
    ensures
        extend(before, first + second, radix) == extend(
            extend(before, first, radix),
            second,
            radix,
        ),
    decreases second.len(),
{
    if second.len() == 0 {
        assert(first + second =~= first);
    } else {
        lemma_extend_concat(before, first, second.drop_last(), radix);
        assert((first + second).drop_last() =~= first + second.drop_last());
    }
}

/// A power of ten with a sum for its exponent is the product of the powers.
pub proof fn lemma_pow10_adds(a: nat, b: nat)
    ensures
        pow10(a + b) == pow10(a) * pow10(b),
    decreases a,
{
    if a == 0 {
        assert(pow10(0) * pow10(b) == pow10(b)) by (nonlinear_arith)
            requires
                pow10(0) == 1,
        ;
    } else {
        lemma_pow10_adds((a - 1) as nat, b);
        assert(pow10(a + b) == 10 * pow10((a - 1 + b) as nat));
        assert(10 * (pow10((a - 1) as nat) * pow10(b)) == (10 * pow10((a - 1) as nat)) * pow10(b))
            by (nonlinear_arith);
    }
}

/// A power of ten grows with its exponent.
pub proof fn lemma_pow10_increases(a: nat, b: nat)
    requires
        a <= b,
    ensures
        0 < pow10(a) <= pow10(b),
        a < b ==> pow10(a) < pow10(b),
    decreases b,
{
    if a < b {
        lemma_pow10_increases(a, (b - 1) as nat);
    } else if a > 0 {
        lemma_pow10_increases((a - 1) as nat, (a - 1) as nat);
    }
}

/// Ten to the power 38, written out.
pub proof fn lemma_pow10_38()
    ensures
        pow10(38) == 100_000_000_000_000_000_000_000_000_000_000_000_000,
{
    assert(pow10(9) == 1_000_000_000) by {
        reveal_with_fuel(pow10, 10);
    }
    assert(pow10(2) == 100) by {
        reveal_with_fuel(pow10, 3);
    }
    lemma_pow10_adds(9, 9);
    lemma_pow10_adds(18, 18);
    lemma_pow10_adds(36, 2);
    assert(pow10(18) == 1_000_000_000_000_000_000) by (nonlinear_arith)
        requires
            pow10(18) == pow10(9) * pow10(9),
            pow10(9) == 1_000_000_000,
    ;
    assert(pow10(36) == 1_000_000_000_000_000_000_000_000_000_000_000_000) by (nonlinear_arith)
        requires
            pow10(36) == pow10(18) * pow10(18),
            pow10(18) == 1_000_000_000_000_000_000,
    ;
    assert(pow10(38) == 100_000_000_000_000_000_000_000_000_000_000_000_000) by (nonlinear_arith)
        requires
            pow10(38) == pow10(36) * pow10(2),
            pow10(36) == 1_000_000_000_000_000_000_000_000_000_000_000_000,
            pow10(2) == 100,
    ;
}

/// A power of ten with an exponent up to 38 fits 127 bits, and no greater one is as small.
pub proof fn lemma_pow10_bound(exponent: nat)
    ensures
        exponent <= 38 ==> 0 < pow10(exponent)
            <= 100_000_000_000_000_000_000_000_000_000_000_000_000,
        exponent > 38 ==> pow10(exponent) > 100_000_000_000_000_000_000_000_000_000_000_000_000,
        pow10(exponent) > 0,
{
    lemma_pow10_38();
    if exponent <= 38 {
        lemma_pow10_increases(exponent, 38);
    } else {
        lemma_pow10_increases(38, exponent);
    }
}

/// The place of the first `.` lies inside the text, no `.` stands before it, and one stands
/// there unless it is the end.
pub proof fn lemma_point_at(text: Seq<u8>)
    ensures
        0 <= point_at(text) <= text.len(),
        forall|i: int| 0 <= i < point_at(text) ==> text[i] != DOT,
        point_at(text) < text.len() ==> text[point_at(text)] == DOT,
    decreases text.len(),
{
    if text.len() > 0 && text[0] != DOT {
        lemma_point_at(text.drop_first());
        assert forall|i: int| 0 <= i < point_at(text) implies text[i] != DOT by {
            if i > 0 {
                assert(text.drop_first()[i - 1] == text[i]);
            }
        }
    }
}

/// The value of a hexadecimal digit, or of a decimal one.
pub fn digit_of(byte: u8, radix: u8) -> (value: Option<u8>)
    requires
        radix == 10 || radix == 16,
    ensures
        value is Some <==> is_digit(byte, radix as nat),
        value matches Some(v) ==> v == digit_value(byte) && v < radix,
{
    if DIGIT_0 <= byte && byte <= DIGIT_9 {
        Some(byte - DIGIT_0)
    } else if radix == 16 && UPPER_A <= byte && byte <= UPPER_F {
        Some(byte - UPPER_A + 10)
    } else if radix == 16 && LOWER_A <= byte && byte <= LOWER_F {
        Some(byte - LOWER_A + 10)
    } else {
        None
    }
}

/// Writes `digits` behind the number `before`. `None` where a byte is no digit, and where the
/// number passes `limit`.
pub fn read_digits(before: u128, digits: &[u8], radix: u8, limit: u128) -> (value: Option<u128>)
    requires
        radix == 10 || radix == 16,
        before <= limit,
    ensures
        value is Some <==> all_digits(digits@, radix as nat) && extend(
            before as nat,
            digits@,
            radix as nat,
        ) <= limit,
        value matches Some(v) ==> v == extend(before as nat, digits@, radix as nat),
{
    let mut value = before;
    let mut i: usize = 0;
    assert(digits@.subrange(0, 0) =~= Seq::<u8>::empty());
    while i < digits.len()
        invariant
            radix == 10 || radix == 16,
            i <= digits@.len(),
            value <= limit,
            value == extend(before as nat, digits@.subrange(0, i as int), radix as nat),
            all_digits(digits@.subrange(0, i as int), radix as nat),
        decreases digits@.len() - i,
    {
        let ghost next = digits@.subrange(0, i + 1);
        proof {
            assert(next.drop_last() =~= digits@.subrange(0, i as int));
            lemma_extend_prefix(before as nat, digits@, radix as nat, i + 1);
        }
        let digit = match digit_of(digits[i], radix) {
            Some(digit) => digit,
            None => {
                return None;
            },
        };
        let scaled = match value.checked_mul(radix as u128) {
            Some(scaled) => scaled,
            None => {
                return None;
            },
        };
        let sum = match scaled.checked_add(digit as u128) {
            Some(sum) => sum,
            None => {
                return None;
            },
        };
        if sum > limit {
            return None;
        }
        proof {
            assert forall|j: int| 0 <= j < next.len() implies is_digit(
                #[trigger] next[j],
                radix as nat,
            ) by {
                if j < i {
                    assert(digits@.subrange(0, i as int)[j] == next[j]);
                }
            }
        }
        value = sum;
        i += 1;
    }
    assert(digits@.subrange(0, i as int) =~= digits@);
    Some(value)
}

/// The value of a literal as it is written in the source.
pub fn parse_literal(text: &[u8]) -> (value: Option<Real>)
    ensures
        value == literal_value(text@),
{
    let len = text.len();
    if len > 0 && text[0] == DOLLAR {
        if len == 1 {
            return None;
        }
        let digits = vstd::slice::slice_subrange(text, 1, len);
        match read_digits(0, digits, 16, 0xffff_ffff_ffff_ffff) {
            Some(n) => Some(Real::from_ratio(n, 1)),
            None => None,
        }
    } else {
        proof {
            lemma_point_at(text@);
        }
        let mut point: usize = 0;
        while point < len && text[point] != DOT
            invariant
                len == text@.len(),
                point <= len,
                point <= point_at(text@) <= len,
                forall|i: int| 0 <= i < point_at(text@) ==> text@[i] != DOT,
                point_at(text@) < text@.len() ==> text@[point_at(text@)] == DOT,
            decreases len - point,
        {
            point += 1;
        }
        let whole = vstd::slice::slice_subrange(text, 0, point);
        let fraction = if point < len {
            vstd::slice::slice_subrange(text, point + 1, len)
        } else {
            vstd::slice::slice_subrange(text, 0, 0)
        };
        assert(whole@ == whole_part(text@));
        assert(fraction@ =~= fraction_part(text@));
        proof {
            lemma_extend_concat(0, whole@, fraction@, 10);
            lemma_extend_prefix(0, whole@ + fraction@, 10, whole@.len() as int);
            assert((whole@ + fraction@).subrange(0, whole@.len() as int) =~= whole@);
            lemma_pow10_bound(fraction@.len());
            assert(all_digits(whole@ + fraction@, 10) <==> all_digits(whole@, 10) && all_digits(
                fraction@,
                10,
            )) by {
                if all_digits(whole@ + fraction@, 10) {
                    assert forall|i: int| 0 <= i < whole@.len() implies is_digit(
                        #[trigger] whole@[i],
                        10,
                    ) by {
                        assert((whole@ + fraction@)[i] == whole@[i]);
                    }
                    assert forall|i: int| 0 <= i < fraction@.len() implies is_digit(
                        #[trigger] fraction@[i],
                        10,
                    ) by {
                        assert((whole@ + fraction@)[whole@.len() + i] == fraction@[i]);
                    }
                }
            }
        }
        if whole.len() + fraction.len() == 0 || fraction.len() > 38 {
            return None;
        }
        let before = match read_digits(0, whole, 10, u128::MAX) {
            Some(before) => before,
            None => {
                return None;
            },
        };
        let n = match read_digits(before, fraction, 10, u128::MAX) {
            Some(n) => n,
            None => {
                return None;
            },
        };
        let mut d: u128 = 1;
        let mut i: usize = 0;
        while i < fraction.len()
            invariant
                i <= fraction@.len() <= 38,
                d == pow10(i as nat),
            decreases fraction@.len() - i,
        {
            proof {
                lemma_pow10_bound(i as nat);
                lemma_pow10_bound((i + 1) as nat);
            }
            d = d * 10;
            i += 1;
        }
        proof {
            lemma_pow10_bound(i as nat);
        }
        Some(Real::from_ratio(n, d))
    }
}

} // verus!
