//! IEEE 754 numbers held as their bit patterns.
//!
//! The configuration carries gains, decibels and durations as floating-point
//! numbers, but it never computes with them: it checks that they are finite,
//! compares them, and passes them on. All of that is decided by the bits. The
//! signed magnitude of a pattern orders every number the way `<` orders the
//! floats themselves, with both zeros in the same place, and a NaN is a
//! pattern whose magnitude lies above that of infinity.
use vstd::arithmetic::power2::pow2;
use vstd::prelude::*;

verus! {

/// A 32-bit floating-point number, by its bit pattern.
#[derive(Debug, Clone, Copy)]
pub struct Float32 {
    pub bits: u32,
}

/// A 64-bit floating-point number, by its bit pattern.
#[derive(Debug, Clone, Copy)]
pub struct Float64 {
    pub bits: u64,
}

impl DeepView for Float32 {
    type V = Float32;

    open spec fn deep_view(&self) -> Float32 {
        *self
    }
}

impl Float32 {
    /// The pattern without its sign bit.
    pub open spec fn magnitude(self) -> int {
        if self.bits >= 0x8000_0000 {
            self.bits - 0x8000_0000
        } else {
            self.bits as int
        }
    }

    /// Position among the numbers: negative patterns count down from zero.
    pub open spec fn rank(self) -> int {
        if self.bits >= 0x8000_0000 {
            -self.magnitude()
        } else {
            self.magnitude()
        }
    }

    /// Not a number: all exponent bits set and a fraction that is not zero.
    pub open spec fn nan(self) -> bool {
        self.magnitude() > 0x7f80_0000
    }

    /// Neither infinite nor NaN.
    pub open spec fn finite(self) -> bool {
        self.magnitude() < 0x7f80_0000
    }

    /// `a == b` on the numbers: both zeros are equal, a NaN equals nothing.
    pub open spec fn equals(self, other: Float32) -> bool {
        !self.nan() && !other.nan() && self.rank() == other.rank()
    }

    /// `a < b` on the numbers.
    pub open spec fn less(self, other: Float32) -> bool {
        !self.nan() && !other.nan() && self.rank() < other.rank()
    }

    /// `a <= b` on the numbers.
    pub open spec fn at_most(self, other: Float32) -> bool {
        !self.nan() && !other.nan() && self.rank() <= other.rank()
    }

    /// The number whose bit pattern is `bits`.
    pub fn from_bits(bits: u32) -> (r: Float32)
        ensures
            r.bits == bits,
    {
        Float32 { bits }
    }

    /// The bit pattern of the number.
    pub fn to_bits(self) -> (r: u32)
        ensures
            r == self.bits,
    {
        self.bits
    }

    fn abs_bits(self) -> (r: u32)
        ensures
            r == self.magnitude(),
    {
        if self.bits >= 0x8000_0000 {
            self.bits - 0x8000_0000
        } else {
            self.bits
        }
    }

    pub fn is_nan(self) -> (r: bool)
        ensures
            r == self.nan(),
    {
        self.abs_bits() > 0x7f80_0000
    }

    pub fn is_finite(self) -> (r: bool)
        ensures
            r == self.finite(),
    {
        self.abs_bits() < 0x7f80_0000
    }

    /// Whether the number is greater than zero.
    pub fn is_positive(self) -> (r: bool)
        ensures
            r == (Float32 { bits: 0 }).less(self),
    {
        !self.is_nan() && 0 < self.bits && self.bits < 0x8000_0000
    }

    /// Whether the number is zero or greater; true of the negative zero.
    pub fn is_non_negative(self) -> (r: bool)
        ensures
            r == (self.equals(Float32 { bits: 0 }) || (Float32 { bits: 0 }).less(self)),
    {
        !self.is_nan() && (self.bits < 0x8000_0000 || self.abs_bits() == 0)
    }

    fn ranked(self) -> (r: i64)
        ensures
            r == self.rank(),
    {
        if self.bits >= 0x8000_0000 {
            0 - (self.abs_bits() as i64)
        } else {
            self.bits as i64
        }
    }

    /// `a <= b` on the numbers.
    pub fn is_at_most(self, other: Float32) -> (r: bool)
        ensures
            r == self.at_most(other),
    {
        !self.is_nan() && !other.is_nan() && self.ranked() <= other.ranked()
    }

    /// `a < b` on the numbers.
    pub fn is_less(self, other: Float32) -> (r: bool)
        ensures
            r == self.less(other),
    {
        !self.is_nan() && !other.is_nan() && self.ranked() < other.ranked()
    }

    /// The number without its sign.
    pub fn abs(self) -> (r: Float32)
        ensures
            r.bits == self.magnitude(),
    {
        Float32 { bits: self.abs_bits() }
    }

    /// The number with the other sign.
    pub open spec fn opposite(self) -> Float32 {
        if self.bits >= 0x8000_0000 {
            Float32 { bits: (self.bits - 0x8000_0000) as u32 }
        } else {
            Float32 { bits: (self.bits + 0x8000_0000) as u32 }
        }
    }

    pub fn negate(self) -> (r: Float32)
        ensures
            r == self.opposite(),
    {
        if self.bits >= 0x8000_0000 {
            Float32 { bits: self.bits - 0x8000_0000 }
        } else {
            Float32 { bits: self.bits + 0x8000_0000 }
        }
    }

    /// `a == b` on the numbers.
    pub fn same(self, other: Float32) -> (r: bool)
        ensures
            r == self.equals(other),
    {
        if self.is_nan() || other.is_nan() {
            false
        } else {
            self.bits == other.bits || (self.abs_bits() == 0 && other.abs_bits() == 0)
        }
    }
}

impl PartialEq for Float32 {
    fn eq(&self, other: &Float32) -> (r: bool) {
        self.same(*other)
    }
}

impl vstd::std_specs::cmp::PartialEqSpecImpl for Float32 {
    open spec fn obeys_eq_spec() -> bool {
        true
    }

    open spec fn eq_spec(&self, other: &Float32) -> bool {
        self.equals(*other)
    }
}

impl Float64 {
    /// The pattern without its sign bit.
    pub open spec fn magnitude(self) -> int {
        if self.bits >= 0x8000_0000_0000_0000 {
            self.bits - 0x8000_0000_0000_0000
        } else {
            self.bits as int
        }
    }

    /// Position among the numbers: negative patterns count down from zero.
    pub open spec fn rank(self) -> int {
        if self.bits >= 0x8000_0000_0000_0000 {
            -self.magnitude()
        } else {
            self.magnitude()
        }
    }

    /// Not a number: all exponent bits set and a fraction that is not zero.
    pub open spec fn nan(self) -> bool {
        self.magnitude() > 0x7ff0_0000_0000_0000
    }

    /// `a == b` on the numbers: both zeros are equal, a NaN equals nothing.
    pub open spec fn equals(self, other: Float64) -> bool {
        !self.nan() && !other.nan() && self.rank() == other.rank()
    }

    /// `a <= b` on the numbers.
    pub open spec fn at_most(self, other: Float64) -> bool {
        !self.nan() && !other.nan() && self.rank() <= other.rank()
    }

    /// `a < b` on the numbers.
    pub open spec fn less(self, other: Float64) -> bool {
        !self.nan() && !other.nan() && self.rank() < other.rank()
    }

    /// `a <= b` on the numbers.
    pub fn is_at_most(self, other: Float64) -> (r: bool)
        ensures
            r == self.at_most(other),
    {
        let a: u64 = self.abs_bits();
        let b: u64 = other.abs_bits();
        if a > 0x7ff0_0000_0000_0000 || b > 0x7ff0_0000_0000_0000 {
            false
        } else if self.bits < 0x8000_0000_0000_0000 {
            if other.bits < 0x8000_0000_0000_0000 {
                a <= b
            } else {
                a == 0 && b == 0
            }
        } else if other.bits < 0x8000_0000_0000_0000 {
            true
        } else {
            b <= a
        }
    }

    /// Whether the number is greater than zero.
    pub fn is_positive(self) -> (r: bool)
        ensures
            r == (Float64 { bits: 0 }).less(self),
    {
        0 < self.bits && self.bits <= 0x7ff0_0000_0000_0000
    }

    fn abs_bits(self) -> (r: u64)
        ensures
            r == self.magnitude(),
    {
        if self.bits >= 0x8000_0000_0000_0000 {
            self.bits - 0x8000_0000_0000_0000
        } else {
            self.bits
        }
    }

    /// The number whose bit pattern is `bits`.
    pub fn from_bits(bits: u64) -> (r: Float64)
        ensures
            r.bits == bits,
    {
        Float64 { bits }
    }

    /// The bit pattern of the number.
    pub fn to_bits(self) -> (r: u64)
        ensures
            r == self.bits,
    {
        self.bits
    }

    /// Whether the number lies between two positive bounds, both included.
    pub fn is_within(self, low: Float64, high: Float64) -> (r: bool)
        requires
            0 < low.bits <= 0x7ff0_0000_0000_0000,
            0 < high.bits <= 0x7ff0_0000_0000_0000,
        ensures
            r == (low.at_most(self) && self.at_most(high)),
    {
        low.bits <= self.bits && self.bits <= high.bits
    }

    /// `a == b` on the numbers.
    pub fn same(self, other: Float64) -> (r: bool)
        ensures
            r == self.equals(other),
    {
        let a: u64 = self.abs_bits();
        let b: u64 = other.abs_bits();
        if a > 0x7ff0_0000_0000_0000 || b > 0x7ff0_0000_0000_0000 {
            false
        } else {
            self.bits == other.bits || (a == 0 && b == 0)
        }
    }
}

impl PartialEq for Float64 {
    fn eq(&self, other: &Float64) -> (r: bool) {
        self.same(*other)
    }
}

impl vstd::std_specs::cmp::PartialEqSpecImpl for Float64 {
    open spec fn obeys_eq_spec() -> bool {
        true
    }

    open spec fn eq_spec(&self, other: &Float64) -> bool {
        self.equals(*other)
    }
}

/// The distance between neighbouring 32-bit floats around a whole number: one
/// up to 24 binary digits, and twice as much for each digit more.
pub open spec fn spacing(n: nat) -> nat
    decreases n,
{
    if n < 0x100_0000 {
        1
    } else {
        2 * spacing(n / 2)
    }
}

/// The 32-bit float nearest to a whole number, the even one of two that are
/// equally near.
pub open spec fn nearest(n: nat) -> nat {
    let step = spacing(n);
    let below = n / step;
    let over = n % step;
    if 2 * over > step || (2 * over == step && below % 2 == 1) {
        (below + 1) * step
    } else {
        below * step
    }
}

impl Float32 {
    /// The exponent bits.
    pub open spec fn exponent(self) -> int {
        self.magnitude() / 0x80_0000
    }

    /// The fraction bits, with the leading one that a normal number has.
    pub open spec fn significand(self) -> int {
        if self.exponent() == 0 {
            self.magnitude()
        } else {
            self.magnitude() % 0x80_0000 + 0x80_0000
        }
    }

    /// How often a number of this exponent is doubled on its way up from the
    /// smallest numbers.
    pub open spec fn doublings(self) -> nat {
        if self.exponent() == 0 {
            0
        } else {
            (self.exponent() - 1) as nat
        }
    }

    /// The size of a finite number, counted in units of the smallest positive
    /// one, which is 2 to the power of -149.
    pub open spec fn units(self) -> int {
        self.significand() * pow2(self.doublings())
    }

    /// The positive float that is nearest to a quotient.
    pub open spec fn is_quotient(self, n: nat, d: nat) -> bool {
        &&& self.bits < 0x8000_0000
        &&& self.finite()
        &&& 2 * (d * self.units() - n * pow2(149)) <= d * pow2(self.doublings())
        &&& 2 * (n * pow2(149) - d * self.units()) <= d * pow2(self.doublings())
    }

    /// Whether a positive number is below half of a whole number, when that
    /// half is itself a 32-bit float.
    pub open spec fn below_half(self, n: nat) -> bool {
        self.finite() && 2 * self.units() < nearest(n) * pow2(149)
    }

    /// Whether a positive number is below half of `n`, with `n` brought to the
    /// nearest 32-bit float first.
    pub fn is_below_half(self, n: u32) -> (r: bool)
        requires
            (Float32 { bits: 0 }).less(self),
        ensures
            r == self.below_half(n as nat),
    {
        if !self.is_finite() {
            return false;
        }
        let e: u32 = self.bits / 0x80_0000;
        let f: u32 = if e == 0 {
            self.bits
        } else {
            self.bits % 0x80_0000 + 0x80_0000
        };
        let d: u32 = if e == 0 {
            0
        } else {
            e - 1
        };
        let whole: u64 = to_nearest(n);
        assert(f == self.significand() && d == self.doublings());
        proof {
            vstd::arithmetic::power2::lemma2_to64();
        }
        if d + 1 >= 149 {
            let k: u32 = d + 1 - 149;
            let ghost scale: int = pow2(149) as int;
            assert(2 * self.units() == f * pow2(k as nat) * scale) by {
                vstd::arithmetic::power2::lemma_pow2_unfold((d + 1) as nat);
                vstd::arithmetic::power2::lemma_pow2_adds(k as nat, 149);
                let lower: int = pow2(d as nat) as int;
                let shift: int = pow2(k as nat) as int;
                assert(2 * lower == shift * scale);
                assert(2 * (f * lower) == f * shift * scale) by (nonlinear_arith)
                    requires
                        2 * lower == shift * scale,
                ;
            }
            proof {
                vstd::arithmetic::power2::lemma_pow2_pos(149);
                lemma_scaled_order(f * pow2(k as nat), whole as int, scale);
            }
            if k >= 34 {
                assert(f * pow2(k as nat) >= whole) by {
                    vstd::arithmetic::power2::lemma_pow2_adds(32, (k - 32) as nat);
                    vstd::arithmetic::power2::lemma_pow2_pos((k - 32) as nat);
                    let shift: int = pow2(k as nat) as int;
                    let rest: int = pow2((k - 32) as nat) as int;
                    assert(shift >= 0x1_0000_0000) by (nonlinear_arith)
                        requires
                            shift == 0x1_0000_0000 * rest,
                            rest >= 1,
                    ;
                    assert(f * shift >= 0x1_0000_0000) by (nonlinear_arith)
                        requires
                            shift >= 0x1_0000_0000,
                            f >= 1,
                    ;
                }
                return false;
            }
            let scaled: u64 = doubled(f as u64, k);
            scaled < whole
        } else {
            let k: u32 = 149 - (d + 1);
            let ghost scale: int = pow2((d + 1) as nat) as int;
            assert(2 * self.units() == f * scale) by {
                vstd::arithmetic::power2::lemma_pow2_unfold((d + 1) as nat);
                let lower: int = pow2(d as nat) as int;
                assert(2 * (f * lower) == f * scale) by (nonlinear_arith)
                    requires
                        2 * lower == scale,
                ;
            }
            assert(whole * pow2(149) == whole * pow2(k as nat) * scale) by {
                vstd::arithmetic::power2::lemma_pow2_adds(k as nat, (d + 1) as nat);
                let shift: int = pow2(k as nat) as int;
                assert(whole * (shift * scale) == whole * shift * scale) by (nonlinear_arith);
            }
            proof {
                vstd::arithmetic::power2::lemma_pow2_pos((d + 1) as nat);
                lemma_scaled_order(f as int, whole * pow2(k as nat), scale);
            }
            if whole == 0 {
                assert(whole * pow2(k as nat) == 0) by (nonlinear_arith)
                    requires
                        whole == 0,
                ;
                return false;
            }
            if k >= 25 {
                assert(f < whole * pow2(k as nat)) by {
                    vstd::arithmetic::power2::lemma_pow2_adds(25, (k - 25) as nat);
                    vstd::arithmetic::power2::lemma_pow2_pos((k - 25) as nat);
                    let shift: int = pow2(k as nat) as int;
                    let rest: int = pow2((k - 25) as nat) as int;
                    assert(shift >= 0x200_0000) by (nonlinear_arith)
                        requires
                            shift == 0x200_0000 * rest,
                            rest >= 1,
                    ;
                    assert(whole * shift >= 0x200_0000) by (nonlinear_arith)
                        requires
                            shift >= 0x200_0000,
                            whole >= 1,
                    ;
                }
                return true;
            }
            let scaled: u64 = doubled(whole, k);
            (f as u64) < scaled
        }
    }
}

proof fn lemma_scaled_order(a: int, b: int, scale: int)
    requires
        scale > 0,
    ensures
        a * scale < b * scale <==> a < b,
{
    assert(a < b ==> a * scale < b * scale) by (nonlinear_arith)
        requires
            scale > 0,
    ;
    assert(a >= b ==> a * scale >= b * scale) by (nonlinear_arith)
        requires
            scale > 0,
    ;
}

/// A number doubled `k` times.
fn doubled(n: u64, k: u32) -> (r: u64)
    requires
        n <= 0x1_0000_0000,
        k <= 33 && n < 0x100_0000 || k <= 24,
    ensures
        r == n * pow2(k as nat),
{
    proof {
        vstd::arithmetic::power2::lemma2_to64();
    }
    let mut r: u64 = n;
    let mut i: u32 = 0;
    assert(n * pow2(0) == n);
    while i < k
        invariant
            i <= k,
            r == n * pow2(i as nat),
            n <= 0x1_0000_0000,
            k <= 33 && n < 0x100_0000 || k <= 24,
        decreases k - i,
    {
        proof {
            vstd::arithmetic::power2::lemma_pow2_unfold((i + 1) as nat);
            let lower: int = pow2(i as nat) as int;
            assert(n * (2 * lower) == 2 * (n * lower)) by (nonlinear_arith);
            vstd::arithmetic::power2::lemma2_to64();
            if k <= 24 {
                if i < 23 {
                    vstd::arithmetic::power2::lemma_pow2_strictly_increases(i as nat, 23);
                }
                assert(lower <= 0x80_0000);
                assert(n * lower <= 0x1_0000_0000 * 0x80_0000) by (nonlinear_arith)
                    requires
                        0 <= n <= 0x1_0000_0000,
                        0 <= lower <= 0x80_0000,
                ;
            } else {
                if i < 32 {
                    vstd::arithmetic::power2::lemma_pow2_strictly_increases(i as nat, 32);
                }
                assert(lower <= 0x1_0000_0000);
                assert(n * lower <= 0x100_0000 * 0x1_0000_0000) by (nonlinear_arith)
                    requires
                        0 <= n <= 0x100_0000,
                        0 <= lower <= 0x1_0000_0000,
                ;
            }
        }
        r = r * 2;
        i = i + 1;
    }
    r
}

fn spacing_of(n: u32) -> (r: u64)
    ensures
        r == spacing(n as nat),
        r == 1 || r == 2 || r == 4 || r == 8 || r == 16 || r == 32 || r == 64 || r == 128 || r
            == 256,
        r == 1 || 0x80_0000 * r <= n,
    decreases n,
{
    if n < 0x100_0000 {
        1
    } else {
        let half = spacing_of(n / 2);
        2 * half
    }
}

/// A whole number as the nearest 32-bit float, the even one of two that are
/// equally near.
pub fn to_nearest(n: u32) -> (r: u64)
    ensures
        r == nearest(n as nat),
        r <= 0x1_0000_0000,
{
    let step = spacing_of(n);
    let below: u64 = n as u64 / step;
    let over: u64 = n as u64 % step;
    proof {
        vstd::arithmetic::div_mod::lemma_fundamental_div_mod(n as int, step as int);
        assert(below * step <= n) by (nonlinear_arith)
            requires
                n == step * below + over,
                over >= 0,
        ;
        assert((below + 1) * step == below * step + step) by (nonlinear_arith);
        let steps: int = if step == 1 {
            0x1_0000_0000
        } else if step == 2 {
            0x8000_0000
        } else if step == 4 {
            0x4000_0000
        } else if step == 8 {
            0x2000_0000
        } else if step == 16 {
            0x1000_0000
        } else if step == 32 {
            0x800_0000
        } else if step == 64 {
            0x400_0000
        } else if step == 128 {
            0x200_0000
        } else {
            0x100_0000
        };
        assert((below + 1) * step <= 0x1_0000_0000) by (nonlinear_arith)
            requires
                below * step < 0x1_0000_0000,
                0x1_0000_0000 == steps * step,
                step > 0,
        ;
    }
    if 2 * over > step || (2 * over == step && below % 2 == 1) {
        (below + 1) * step
    } else {
        below * step
    }
}

/// The bit pattern of the 64-bit float `significand * 2^(exponent - 1046)`,
/// where a full significand has 24 binary digits.
pub open spec fn double_bits(significand: nat, exponent: int) -> int
    decreases
            if significand < 0x80_0000 {
                0x80_0000 - significand
            } else {
                0
            },
{
    if significand == 0 {
        0
    } else if significand >= 0x80_0000 {
        exponent * 0x10_0000_0000_0000 + (significand - 0x80_0000) * 0x2000_0000
    } else {
        double_bits(2 * significand, exponent - 1)
    }
}

impl Float32 {
    /// The bit pattern of the same number, no NaN, as a 64-bit float.
    pub open spec fn widened(self) -> int {
        let size = if self.magnitude() == 0x7f80_0000 {
            0x7ff0_0000_0000_0000
        } else if self.magnitude() < 0x80_0000 {
            double_bits(self.magnitude() as nat, 897)
        } else {
            double_bits(
                (0x80_0000 + self.magnitude() % 0x80_0000) as nat,
                896 + self.magnitude() / 0x80_0000,
            )
        };
        if self.bits < 0x8000_0000 {
            size
        } else {
            0x8000_0000_0000_0000 + size
        }
    }
}

impl Float64 {
    /// The same number as a 32-bit float, or a NaN like it.
    pub open spec fn stands_for(self, number: Float32) -> bool {
        if number.nan() {
            self.nan()
        } else {
            self.bits == number.widened()
        }
    }

    /// Whether this is the same number as a 32-bit float.
    pub fn is_for(self, number: Float32) -> (r: bool)
        ensures
            r == self.stands_for(number),
    {
        if number.is_nan() {
            self.abs_bits() > 0x7ff0_0000_0000_0000
        } else {
            self.bits == widened_bits(number)
        }
    }
}

proof fn lemma_double_bits(significand: nat, left: nat)
    requires
        0 < significand < 0x100_0000,
        left <= 23,
        significand * pow2(left) >= 0x80_0000,
    ensures
        0 <= double_bits(significand, 874 + left as int) < 0x7ff0_0000_0000_0000,
    decreases left,
{
    if significand < 0x80_0000 {
        if left == 0 {
            vstd::arithmetic::power2::lemma2_to64();
        } else {
            vstd::arithmetic::power2::lemma_pow2_unfold(left);
            let half = pow2((left - 1) as nat);
            assert((2 * significand) * half == significand * (2 * half)) by (nonlinear_arith);
            lemma_double_bits(2 * significand, (left - 1) as nat);
        }
    }
}

/// What is no NaN stays none when it is widened.
pub proof fn widened_numbers_are_numbers(number: Float32, double: Float64)
    requires
        double.stands_for(number),
    ensures
        double.nan() == number.nan(),
{
    if 0 < number.magnitude() < 0x80_0000 {
        vstd::arithmetic::power2::lemma2_to64();
        assert(number.magnitude() * pow2(23) >= 0x80_0000) by (nonlinear_arith)
            requires
                number.magnitude() >= 1,
                pow2(23) == 0x80_0000,
        ;
        lemma_double_bits(number.magnitude() as nat, 23);
    }
}

/// Brings the digits of a small float to the top.
fn small_bits(significand: u32) -> (r: u64)
    requires
        0 < significand < 0x80_0000,
    ensures
        r == double_bits(significand as nat, 897),
        r < 0x7ff0_0000_0000_0000,
{
    let mut s: u64 = significand as u64;
    let mut left: u64 = 23;
    proof {
        vstd::arithmetic::power2::lemma2_to64();
        assert(s * pow2(23) >= 0x80_0000) by (nonlinear_arith)
            requires
                s >= 1,
                pow2(23) == 0x80_0000,
        ;
    }
    while s < 0x80_0000
        invariant
            0 < s < 0x100_0000,
            left <= 23,
            s * pow2(left as nat) >= 0x80_0000,
            double_bits(s as nat, 874 + left) == double_bits(significand as nat, 897),
        decreases left,
    {
        proof {
            if left == 0 {
                vstd::arithmetic::power2::lemma2_to64();
            } else {
                vstd::arithmetic::power2::lemma_pow2_unfold(left as nat);
                let half = pow2((left - 1) as nat);
                assert((2 * s) * half == s * (2 * half)) by (nonlinear_arith);
            }
        }
        s = 2 * s;
        left = left - 1;
    }
    (874 + left) * 0x10_0000_0000_0000 + (s - 0x80_0000) * 0x2000_0000
}

/// The bit pattern of a number, no NaN, as a 64-bit float.
fn widened_bits(number: Float32) -> (r: u64)
    requires
        !number.nan(),
    ensures
        r == number.widened(),
{
    let magnitude: u32 = number.abs_bits();
    let size: u64 = if magnitude == 0x7f80_0000 {
        0x7ff0_0000_0000_0000
    } else if magnitude == 0 {
        0
    } else if magnitude < 0x80_0000 {
        small_bits(magnitude)
    } else {
        (896 + (magnitude / 0x80_0000) as u64) * 0x10_0000_0000_0000
            + (magnitude % 0x80_0000) as u64 * 0x2000_0000
    };
    if number.bits < 0x8000_0000 {
        size
    } else {
        0x8000_0000_0000_0000 + size
    }
}

/// Equality of numbers is symmetric and transitive, and reflexive on every
/// number that is not a NaN.
pub proof fn equality_of_numbers(a: Float32, b: Float32, c: Float32)
    ensures
        a.equals(a) <==> !a.nan(),
        a.equals(b) ==> b.equals(a),
        a.equals(b) && b.equals(c) ==> a.equals(c),
{
}

} // verus!
