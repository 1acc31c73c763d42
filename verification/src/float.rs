//! Single-precision numbers held as their IEEE 754 bit patterns.
//!
//! The library stores coordinates, centroids, norms and matrix entries, compares
//! them and moves them around; the arithmetic on them is handed in by the caller.
//! For that the 32 bits of a number are all that is needed, and every finite
//! number is an exact multiple of the smallest positive one, 2^-149, so its value
//! is an integer count of those units.
use vstd::arithmetic::mul::{
    lemma_mul_basics, lemma_mul_inequality, lemma_mul_is_associative, lemma_mul_is_commutative,
    lemma_mul_strict_inequality,
};
use vstd::arithmetic::power2::{
    lemma2_to64, lemma2_to64_rest, lemma_pow2_adds, lemma_pow2_pos, lemma_pow2_strictly_increases,
    lemma_pow2_unfold, pow2,
};
use vstd::bits::lemma_u64_shl_is_mul;
use vstd::prelude::*;

verus! {

/// Bit pattern of the number 1.0.
pub const ONE_BITS: u32 = 0x3F80_0000;

/// Bit pattern of the number -1.0.
pub const MINUS_ONE_BITS: u32 = 0xBF80_0000;

/// Bit pattern of the number 1e-10, below which a norm counts as zero.
pub const TINY_NORM_BITS: u32 = 0x2EDB_E6FF;

/// A single-precision number, held as its bit pattern.
#[derive(Debug, Clone, Copy, PartialEq, Eq, Structural)]
pub struct Float32 {
    pub bits: u32,
}

/// The value of the non-negative number with the given low 31 bits, in units of 2^-149.
///
/// The infinite pattern is given the value that follows the largest finite one, so
/// that it compares above every finite number.
pub open spec fn magnitude_units(magnitude: int) -> int {
    if magnitude < 0x80_0000 {
        magnitude
    } else {
        (0x80_0000 + magnitude % 0x80_0000) * pow2((magnitude / 0x80_0000 - 1) as nat)
    }
}

impl Float32 {
    /// Whether the sign bit is set.
    pub open spec fn negative(self) -> bool {
        self.bits >= 0x8000_0000
    }

    /// The 31 bits below the sign.
    pub open spec fn magnitude(self) -> int {
        self.bits as int % 0x8000_0000
    }

    /// Whether the pattern is not a number: all exponent bits set, and a fraction.
    pub open spec fn nan(self) -> bool {
        self.magnitude() > 0x7F80_0000
    }

    /// The value of a number, in units of 2^-149.
    pub open spec fn units(self) -> int {
        if self.negative() {
            -magnitude_units(self.magnitude())
        } else {
            magnitude_units(self.magnitude())
        }
    }

    /// The order of IEEE 754: by value, and false wherever a side is not a number.
    pub open spec fn below(self, other: Float32) -> bool {
        !self.nan() && !other.nan() && self.units() < other.units()
    }

    /// The number with the given bit pattern.
    pub fn from_bits(bits: u32) -> (r: Float32)
        ensures
            r.bits == bits,
    {
        Float32 { bits }
    }

    /// The bit pattern of the number.
    pub fn to_bits(self) -> (r: u32)
        ensures
            r == self.bits,
    {
        self.bits
    }

    /// Whether the pattern is not a number.
    pub fn is_nan(self) -> (r: bool)
        ensures
            r == self.nan(),
    {
        self.bits % 0x8000_0000 > 0x7F80_0000
    }

    /// The bit pattern read as a sign and a magnitude.
    fn key(self) -> (r: i64)
        ensures
            r == if self.negative() {
                -self.magnitude()
            } else {
                self.magnitude()
            },
    {
        let magnitude: i64 = (self.bits % 0x8000_0000) as i64;
        if self.bits >= 0x8000_0000 {
            -magnitude
        } else {
            magnitude
        }
    }

    /// Whether this number is below the other, as IEEE 754 orders them.
    pub fn less_than(self, other: Float32) -> (r: bool)
        ensures
            r == self.below(other),
    {
        if self.is_nan() || other.is_nan() {
            return false;
        }
        proof {
            lemma_units_by_magnitude(self, other);
        }
        self.key() < other.key()
    }
}

/// The power of two.
fn two_to(n: u32) -> (r: u128)
    requires
        n < 64,
    ensures
        r == pow2(n as nat),
        1 <= r <= 0x8000_0000_0000_0000,
{
    proof {
        lemma2_to64();
        lemma2_to64_rest();
        if 0 < n {
            lemma_pow2_strictly_increases(0, n as nat);
        }
        if n < 63 {
            lemma_pow2_strictly_increases(n as nat, 63);
        }
        lemma_u64_shl_is_mul(1, n as u64);
    }
    (1u64 << (n as u64)) as u128
}

impl Float32 {
    /// Whether the number is between -1 and 1.
    pub fn is_within_one(self) -> (r: bool)
        ensures
            r == (self.magnitude() <= ONE_BITS),
    {
        self.bits % 0x8000_0000 <= ONE_BITS
    }

    /// The value of a number between -1 and 1, in units of 2^-149: a multiple of 2^64 and a rest.
    pub fn unit_parts(self) -> (r: (i128, i128))
        requires
            self.magnitude() <= ONE_BITS,
        ensures
            self.units() == r.0 * 0x1_0000_0000_0000_0000 + r.1,
            -0x80_0000_0000_0000_0000_0000 < r.0 < 0x80_0000_0000_0000_0000_0000,
            -0x1_0000_0000_0000_0000 < r.1 < 0x1_0000_0000_0000_0000,
    {
        let magnitude: u32 = self.bits % 0x8000_0000;
        let mut hi: i128 = 0;
        let mut lo: i128 = magnitude as i128;
        if magnitude >= 0x80_0000 {
            let fraction: u128 = (0x80_0000 + magnitude % 0x80_0000) as u128;
            let shift: u32 = magnitude / 0x80_0000 - 1;
            if shift < 64 {
                let power: u128 = two_to(shift);
                proof {
                    lemma_mul_inequality(fraction as int, 0x100_0000, power as int);
                    lemma_mul_inequality(power as int, 0x8000_0000_0000_0000, 0x100_0000);
                    lemma_mul_inequality(0, fraction as int, power as int);
                    lemma_mul_is_commutative(power as int, 0x100_0000);
                }
                let product: u128 = fraction * power;
                hi = (product / 0x1_0000_0000_0000_0000) as i128;
                lo = (product % 0x1_0000_0000_0000_0000) as i128;
            } else {
                let power: u128 = two_to((shift - 64) as u32);
                proof {
                    lemma_pow2_adds((shift - 64) as nat, 64);
                    lemma2_to64();
                    lemma2_to64_rest();
                    lemma_pow2_strictly_increases((shift - 64) as nat, 63);
                    lemma_mul_inequality(fraction as int, 0x100_0000, power as int);
                    lemma_mul_inequality(power as int, 0x8000_0000_0000_0000, 0x100_0000);
                    lemma_mul_inequality(0, fraction as int, power as int);
                    lemma_mul_is_commutative(power as int, 0x100_0000);
                    lemma_mul_is_associative(
                        fraction as int,
                        power as int,
                        0x1_0000_0000_0000_0000,
                    );
                }
                hi = (fraction * power) as i128;
                lo = 0;
            }
        }
        if self.bits >= 0x8000_0000 {
            (-hi, -lo)
        } else {
            (hi, lo)
        }
    }
}

/// A number that is between -1 and 1 by its value is so by its magnitude.
pub proof fn lemma_within_one(x: Float32)
    ensures
        (Float32 { bits: MINUS_ONE_BITS }).units() <= x.units() <= (Float32 { bits: ONE_BITS }).units()
            <==> x.magnitude() <= ONE_BITS,
{
    lemma_units_by_magnitude(x, Float32 { bits: MINUS_ONE_BITS });
    lemma_units_by_magnitude(Float32 { bits: ONE_BITS }, x);
}

/// Magnitudes order the values that they stand for.
proof fn lemma_magnitude_units_increase(a: int, b: int)
    requires
        0 <= a < b,
    ensures
        0 <= magnitude_units(a) < magnitude_units(b),
{
    let ea = a / 0x80_0000;
    let eb = b / 0x80_0000;
    if b < 0x80_0000 {
    } else {
        let pb = pow2((eb - 1) as nat) as int;
        lemma_pow2_pos((eb - 1) as nat);
        let mb = 0x80_0000 + b % 0x80_0000;
        lemma_mul_inequality(0x80_0000, mb, pb);
        lemma_mul_inequality(1, pb, 0x80_0000);
        if a >= 0x80_0000 {
            let pa = pow2((ea - 1) as nat) as int;
            lemma_pow2_pos((ea - 1) as nat);
            let ma = 0x80_0000 + a % 0x80_0000;
            lemma_mul_strict_inequality(0, ma, pa);
            if ea == eb {
                lemma_mul_strict_inequality(ma, mb, pa);
            } else {
                lemma_mul_strict_inequality(ma, 0x100_0000, pa);
                lemma_pow2_unfold(ea as nat);
                if ea < eb - 1 {
                    lemma_pow2_strictly_increases(ea as nat, (eb - 1) as nat);
                }
                assert(2 * pa <= pb);
                assert(0x100_0000 * pa <= 0x80_0000 * pb);
            }
        }
    }
}

/// Two numbers compare by value as their sign-and-magnitude readings do.
proof fn lemma_units_by_magnitude(x: Float32, y: Float32)
    ensures
        (x.units() < y.units()) == ({
            let kx = if x.negative() { -x.magnitude() } else { x.magnitude() };
            let ky = if y.negative() { -y.magnitude() } else { y.magnitude() };
            kx < ky
        }),
{
    let a = x.magnitude();
    let b = y.magnitude();
    if a < b {
        lemma_magnitude_units_increase(a, b);
    }
    if b < a {
        lemma_magnitude_units_increase(b, a);
    }
    if 0 < a {
        lemma_magnitude_units_increase(0, a);
    }
    if 0 < b {
        lemma_magnitude_units_increase(0, b);
    }
}

/// Numbers are ordered by their bit patterns: those with a sign bit below those without, except that
/// the two zeros are equal, among those without it the smaller pattern first, among those with it the
/// larger one; what is not a number is neither below nor above anything.
pub proof fn law_order_of_bit_patterns(x: Float32, y: Float32)
    ensures
        x.bits % 0x8000_0000 > 0x7F80_0000 || y.bits % 0x8000_0000 > 0x7F80_0000 ==> !x.below(y),
        x.bits <= 0x7F80_0000 && y.bits <= 0x7F80_0000 ==> (x.below(y) <==> x.bits < y.bits),
        0x8000_0000 <= x.bits <= 0xFF80_0000 && 0x8000_0000 <= y.bits <= 0xFF80_0000 ==> (x.below(y)
            <==> y.bits < x.bits),
        0x8000_0000 <= x.bits <= 0xFF80_0000 && y.bits <= 0x7F80_0000 ==> (x.below(y) <==> !(x.bits
            == 0x8000_0000 && y.bits == 0)),
        x.bits <= 0x7F80_0000 && 0x8000_0000 <= y.bits <= 0xFF80_0000 ==> !x.below(y),
{
    lemma_units_by_magnitude(x, y);
}

/// The smallest positive number is the unit of values, the next exponent doubles a value, and the
/// sign bit negates it.
pub proof fn law_values_of_bit_patterns(x: Float32)
    ensures
        x.bits < 0x80_0000 ==> x.units() == x.bits,
        0x80_0000 <= x.bits < 0x100_0000 ==> x.units() == x.bits,
        0x80_0000 <= x.bits < 0x7F00_0000 ==> (Float32 { bits: (x.bits + 0x80_0000) as u32 }).units()
            == 2 * x.units(),
        x.bits < 0x8000_0000 ==> (Float32 { bits: (x.bits + 0x8000_0000) as u32 }).units()
            == -x.units(),
{
    lemma2_to64();
    if 0x80_0000 <= x.bits < 0x100_0000 {
        assert(x.magnitude() / 0x80_0000 - 1 == 0);
        assert(x.magnitude() % 0x80_0000 == x.bits - 0x80_0000);
        lemma_mul_basics(x.bits as int);
    }
    if 0x80_0000 <= x.bits < 0x7F00_0000 {
        let e = x.bits as int / 0x80_0000;
        lemma_pow2_unfold(e as nat);
        let m = 0x80_0000 + x.bits as int % 0x80_0000;
        let p = pow2((e - 1) as nat) as int;
        let next = Float32 { bits: (x.bits + 0x80_0000) as u32 };
        assert(next.magnitude() == x.magnitude() + 0x80_0000);
        assert(next.magnitude() / 0x80_0000 == e + 1);
        assert(next.magnitude() % 0x80_0000 == x.magnitude() % 0x80_0000);
        lemma_mul_is_associative(m, p, 2);
        lemma_mul_is_commutative(p, 2);
    }
}

/// One is `2^149` units, minus one is its negative, and the norm below which vectors count as zero
/// is the number nearest to `1e-10`: off by no more than half of the step to the next number.
pub proof fn law_named_numbers()
    ensures
        (Float32 { bits: ONE_BITS }).units() == pow2(149),
        (Float32 { bits: MINUS_ONE_BITS }).units() == -pow2(149),
        ({
            let tiny = Float32 { bits: TINY_NORM_BITS };
            let next = Float32 { bits: (TINY_NORM_BITS + 1) as u32 };
            let error = 10_000_000_000 * tiny.units() - pow2(149);
            -10_000_000_000 * (next.units() - tiny.units()) <= 2 * error <= 10_000_000_000 * (
            next.units() - tiny.units())
        }),
{
    lemma2_to64();
    lemma2_to64_rest();
    lemma_pow2_adds(23, 126);
    lemma_pow2_adds(57, 92);
    let p = pow2(92) as int;
    let tiny = Float32 { bits: TINY_NORM_BITS };
    let next = Float32 { bits: (TINY_NORM_BITS + 1) as u32 };
    assert(tiny.units() == 0xDB_E6FF * p);
    assert(next.units() == 0xDB_E700 * p);
    assert(pow2(149) == 0x200_0000_0000_0000 * p);
    lemma_pow2_pos(92);
}

} // verus!
