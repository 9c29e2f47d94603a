//! A number of seconds as the transports carry it: an IEEE 754 double, held by
//! its bits.

use vstd::arithmetic::power2::*;
use vstd::prelude::*;

verus! {

/// The number with these bits, and the decimal form it is quoted in.
#[derive(Debug, PartialEq, Eq)]
pub struct Seconds {
    pub bits: u64,
    pub text: String,
}

/// A number of seconds by its bits and its decimal form.
pub struct SecondsView {
    pub bits: u64,
    pub text: Seq<char>,
}

impl View for Seconds {
    type V = SecondsView;

    open spec fn view(&self) -> SecondsView {
        SecondsView { bits: self.bits, text: self.text@ }
    }
}

impl Clone for Seconds {
    fn clone(&self) -> (r: Seconds)
        ensures
            r == *self,
    {
        Seconds { bits: self.bits, text: self.text.clone() }
    }
}

/// Longest explicit duration accepted, in seconds.
pub const MAX_FLASH_SECS: u64 = 86_400;

/// The biased exponent field.
pub open spec fn exponent(bits: u64) -> int {
    (bits as int / 0x10_0000_0000_0000) % 2048
}

/// The fraction field.
pub open spec fn fraction(bits: u64) -> int {
    bits as int % 0x10_0000_0000_0000
}

pub open spec fn is_nan(bits: u64) -> bool {
    exponent(bits) == 2047 && fraction(bits) != 0
}

pub open spec fn is_infinite(bits: u64) -> bool {
    exponent(bits) == 2047 && fraction(bits) == 0
}

pub open spec fn is_zero(bits: u64) -> bool {
    exponent(bits) == 0 && fraction(bits) == 0
}

/// The sign bit: set for numbers below zero, and for minus zero.
pub open spec fn is_signed(bits: u64) -> bool {
    bits >= 0x8000_0000_0000_0000
}

/// The significand as a whole number; a finite number is this times two to the
/// power of `binary_exponent`.
pub open spec fn significand(bits: u64) -> int {
    if exponent(bits) == 0 {
        fraction(bits)
    } else {
        fraction(bits) + 0x10_0000_0000_0000
    }
}

pub open spec fn binary_exponent(bits: u64) -> int {
    if exponent(bits) == 0 {
        -1074
    } else {
        exponent(bits) - 1075
    }
}

/// Whether the magnitude of a number is above `limit`.
pub open spec fn exceeds(bits: u64, limit: nat) -> bool {
    let e = binary_exponent(bits);
    if is_infinite(bits) {
        true
    } else if e >= 0 {
        significand(bits) * pow2(e as nat) > limit
    } else {
        significand(bits) > limit * pow2((-e) as nat)
    }
}

/// `num / den` to the nearest whole number, halves to the even one.
pub open spec fn nearest(num: nat, den: nat) -> nat {
    let q = num / den;
    let r = num % den;
    if 2 * r > den || (2 * r == den && q % 2 == 1) {
        q + 1
    } else {
        q
    }
}

/// Nanoseconds in a number of seconds no larger than a flash may last.
pub open spec fn nanos_in(bits: u64) -> nat {
    nearest(
        (significand(bits) * 1_000_000_000) as nat,
        pow2((-binary_exponent(bits)) as nat),
    )
}

proof fn lemma_pow2_100()
    ensures
        pow2(100) == 0x10_0000_0000_0000_0000_0000_0000,
{
    lemma2_to64_rest();
    lemma_pow2_adds(50, 50);
}

/// Two to the power of `k`.
fn power_of_two(k: u64) -> (r: u128)
    requires
        k <= 100,
    ensures
        r == pow2(k as nat),
{
    let mut r: u128 = 1;
    proof {
        lemma2_to64();
    }
    for i in 0..k
        invariant
            k <= 100,
            r == pow2(i as nat),
    {
        proof {
            lemma_pow2_unfold((i + 1) as nat);
            lemma_pow2_100();
            if i + 1 < 100 {
                lemma_pow2_strictly_increases((i + 1) as nat, 100);
            }
        }
        r = r * 2;
    }
    r
}

/// From two to the power of 100 on, no significand reaches a power of two.
proof fn lemma_pow2_beyond(k: nat)
    requires
        k >= 100,
    ensures
        pow2(k) >= 0x10_0000_0000_0000_0000_0000_0000,
{
    lemma_pow2_100();
    if k > 100 {
        lemma_pow2_strictly_increases(100, k);
    }
}

impl Seconds {
    fn exponent_field(&self) -> (e: u64)
        ensures
            e == exponent(self.bits),
            e < 2048,
    {
        (self.bits / 0x10_0000_0000_0000) % 2048
    }

    fn fraction_field(&self) -> (f: u64)
        ensures
            f == fraction(self.bits),
            f < 0x10_0000_0000_0000,
    {
        self.bits % 0x10_0000_0000_0000
    }

    /// Not a number at all.
    pub fn is_nan(&self) -> (r: bool)
        ensures
            r == is_nan(self.bits),
    {
        self.exponent_field() == 2047 && self.fraction_field() != 0
    }

    /// Zero, of either sign.
    pub fn is_zero(&self) -> (r: bool)
        ensures
            r == is_zero(self.bits),
    {
        self.exponent_field() == 0 && self.fraction_field() == 0
    }

    /// Whether the sign bit is set.
    pub fn is_signed(&self) -> (r: bool)
        ensures
            r == is_signed(self.bits),
    {
        self.bits >= 0x8000_0000_0000_0000
    }

    fn significand(&self) -> (m: u64)
        ensures
            m == significand(self.bits),
            m < 0x20_0000_0000_0000,
    {
        if self.exponent_field() == 0 {
            self.fraction_field()
        } else {
            self.fraction_field() + 0x10_0000_0000_0000
        }
    }

    /// How many of the significand's bits stand behind the binary point, for a
    /// number below two to the power of 17.
    fn fraction_bits(&self) -> (k: u64)
        requires
            exponent(self.bits) < 1040,
        ensures
            k == -binary_exponent(self.bits),
            36 <= k <= 1074,
    {
        let e = self.exponent_field();
        if e == 0 {
            1074
        } else {
            1075 - e
        }
    }

    /// Whether the magnitude is above the longest duration accepted.
    pub fn over_limit(&self) -> (r: bool)
        requires
            !is_nan(self.bits),
        ensures
            r == exceeds(self.bits, MAX_FLASH_SECS as nat),
    {
        let e = self.exponent_field();
        let m = self.significand();
        if e >= 1040 {
            proof {
                if !is_infinite(self.bits) {
                    lemma_at_least_two_to_17(self.bits);
                }
            }
            return true;
        }
        let k = self.fraction_bits();
        if k > 100 {
            proof {
                lemma_pow2_beyond(k as nat);
                assert(MAX_FLASH_SECS as nat * pow2(k as nat) >= pow2(k as nat)) by (nonlinear_arith)
                    requires
                        MAX_FLASH_SECS as nat >= 1,
                        pow2(k as nat) >= 0,
                ;
            }
            return false;
        }
        let one = power_of_two(k);
        proof {
            lemma_pow2_100();
            if k < 100 {
                lemma_pow2_strictly_increases(k as nat, 100);
            }
        }
        m as u128 > MAX_FLASH_SECS as u128 * one
    }

    /// The number in nanoseconds, to the nearest, halves to the even one.
    pub fn to_nanos(&self) -> (n: u128)
        requires
            !is_nan(self.bits),
            !exceeds(self.bits, MAX_FLASH_SECS as nat),
        ensures
            n == nanos_in(self.bits),
    {
        proof {
            if exponent(self.bits) >= 1040 {
                if !is_infinite(self.bits) {
                    lemma_at_least_two_to_17(self.bits);
                }
                assert(false);
            }
        }
        let m = self.significand();
        let k = self.fraction_bits();
        let num: u128 = m as u128 * 1_000_000_000;
        if k > 100 {
            proof {
                lemma_pow2_beyond(k as nat);
                lemma_nearest_of_little(num as nat, pow2(k as nat));
            }
            return 0;
        }
        let den = power_of_two(k);
        proof {
            lemma_pow2_pos(k as nat);
            lemma_pow2_100();
            if k < 100 {
                lemma_pow2_strictly_increases(k as nat, 100);
            }
            assert(num / den <= num) by (nonlinear_arith)
                requires
                    num >= 0,
                    den >= 1,
            ;
        }
        let q = num / den;
        let r = num % den;
        if 2 * r > den || (2 * r == den && q % 2 == 1) {
            q + 1
        } else {
            q
        }
    }
}

proof fn lemma_nearest_of_little(num: nat, den: nat)
    requires
        2 * num < den,
    ensures
        nearest(num, den) == 0,
{
    assert(num / den == 0 && num % den == num) by (nonlinear_arith)
        requires
            num < den,
    ;
}

/// A finite number with this exponent is at least two to the power of 17.
proof fn lemma_at_least_two_to_17(bits: u64)
    requires
        1040 <= exponent(bits),
        !is_infinite(bits),
    ensures
        exceeds(bits, MAX_FLASH_SECS as nat),
{
    let e = binary_exponent(bits);
    let m = significand(bits);
    lemma2_to64();
    lemma2_to64_rest();
    if e >= 0 {
        lemma_pow2_pos(e as nat);
        assert(m * pow2(e as nat) >= m) by (nonlinear_arith)
            requires
                m >= 0,
                pow2(e as nat) >= 1,
        ;
    } else {
        if -e < 35 {
            lemma_pow2_strictly_increases((-e) as nat, 35);
        }
        assert(MAX_FLASH_SECS * pow2((-e) as nat) <= MAX_FLASH_SECS * 0x8_0000_0000) by (
            nonlinear_arith)
            requires
                pow2((-e) as nat) <= 0x8_0000_0000,
        ;
    }
}

} // verus!
