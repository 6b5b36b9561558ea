//! Double-precision numbers held as their bit patterns.
//!
//! A [`Binary64`] carries a number through the library without arithmetic. What
//! the library decides about such numbers (comparisons, running maxima, bounds,
//! rounding to a height) it decides on the bits.
use vstd::arithmetic::power2::{lemma2_to64, lemma_pow2_adds, lemma_pow2_pos,
    lemma_pow2_strictly_increases, lemma_pow2_unfold, pow2};
use vstd::prelude::*;

verus! {

/// The sign bit.
pub const SIGN_BIT: u64 = 0x8000_0000_0000_0000;

/// The magnitude bits of an infinity. Larger magnitudes are not numbers.
pub const INFINITE_MAGNITUDE: u64 = 0x7ff0_0000_0000_0000;

/// The weight of the exponent field.
pub const EXPONENT_UNIT: u64 = 0x0010_0000_0000_0000;

/// The largest height above ground that is stored; one more means "no data".
pub const MAX_HEIGHT: u16 = 65534;

/// An IEEE 754 double by its bits.
#[derive(Clone, Copy, Debug, PartialEq, Eq, Structural)]
pub struct Binary64 {
    pub bits: u64,
}

impl Binary64 {
    /// The bits without the sign.
    pub open spec fn spec_magnitude(self) -> u64 {
        if self.bits >= SIGN_BIT {
            (self.bits - SIGN_BIT) as u64
        } else {
            self.bits
        }
    }

    pub open spec fn spec_is_nan(self) -> bool {
        self.spec_magnitude() > INFINITE_MAGNITUDE
    }

    pub open spec fn spec_is_finite(self) -> bool {
        self.spec_magnitude() < INFINITE_MAGNITUDE
    }

    /// The place of a number in the order of numbers: both zeros are at 0.
    pub open spec fn key(self) -> int {
        if self.bits >= SIGN_BIT {
            -(self.spec_magnitude() as int)
        } else {
            self.spec_magnitude() as int
        }
    }

    pub open spec fn spec_num_eq(self, other: Self) -> bool {
        !self.spec_is_nan() && !other.spec_is_nan() && self.key() == other.key()
    }

    pub open spec fn spec_lt(self, other: Self) -> bool {
        !self.spec_is_nan() && !other.spec_is_nan() && self.key() < other.key()
    }

    pub open spec fn spec_le(self, other: Self) -> bool {
        !self.spec_is_nan() && !other.spec_is_nan() && self.key() <= other.key()
    }

    /// The larger of two numbers; the other one where one is not a number.
    pub open spec fn spec_max(self, other: Self) -> Self {
        if self.spec_is_nan() || self.spec_lt(other) {
            other
        } else {
            self
        }
    }

    /// The smaller of two numbers; the other one where one is not a number.
    pub open spec fn spec_min(self, other: Self) -> Self {
        if self.spec_is_nan() || other.spec_lt(self) {
            other
        } else {
            self
        }
    }

    /// The integer that is scaled to give the magnitude.
    pub open spec fn significand(self) -> int {
        let field = self.spec_magnitude() / EXPONENT_UNIT;
        let fraction = self.spec_magnitude() % EXPONENT_UNIT;
        if field == 0 {
            fraction as int
        } else {
            fraction + EXPONENT_UNIT
        }
    }

    /// The power of two by which the significand is scaled.
    pub open spec fn exponent(self) -> int {
        let field = self.spec_magnitude() / EXPONENT_UNIT;
        if field == 0 {
            -1074
        } else {
            field - 1075
        }
    }

    /// The smallest integer that is at least the magnitude of a finite number.
    pub open spec fn ceil_magnitude(self) -> int {
        if self.exponent() >= 0 {
            self.significand() * pow2(self.exponent() as nat)
        } else {
            let unit = pow2((-self.exponent()) as nat) as int;
            (self.significand() + unit - 1) / unit
        }
    }

    /// The height that is stored for a clearance: rounded up and saturated for a
    /// finite positive one, zero for any other.
    pub open spec fn spec_ceil_height(self) -> u16 {
        if !self.spec_is_finite() || self.key() <= 0 {
            0
        } else if self.ceil_magnitude() > MAX_HEIGHT {
            MAX_HEIGHT
        } else {
            self.ceil_magnitude() as u16
        }
    }

    pub open spec fn spec_from_bits(bits: u64) -> Self {
        Binary64 { bits }
    }

    #[verifier::when_used_as_spec(spec_from_bits)]
    pub fn from_bits(bits: u64) -> (number: Self)
        ensures
            number == Self::spec_from_bits(bits),
    {
        Binary64 { bits }
    }

    pub open spec fn spec_zero() -> Self {
        Binary64 { bits: 0 }
    }

    #[verifier::when_used_as_spec(spec_zero)]
    pub fn zero() -> (number: Self)
        ensures
            number == Self::spec_zero(),
    {
        Binary64 { bits: 0 }
    }

    pub open spec fn spec_negative_infinity() -> Self {
        Binary64 { bits: 0xfff0_0000_0000_0000 }
    }

    #[verifier::when_used_as_spec(spec_negative_infinity)]
    pub fn negative_infinity() -> (number: Self)
        ensures
            number == Self::spec_negative_infinity(),
    {
        Binary64 { bits: 0xfff0_0000_0000_0000 }
    }

    pub fn to_bits(self) -> (bits: u64)
        ensures
            bits == self.bits,
    {
        self.bits
    }

    fn magnitude(self) -> (magnitude: u64)
        ensures
            magnitude == self.spec_magnitude(),
            magnitude < SIGN_BIT,
    {
        if self.bits >= SIGN_BIT {
            self.bits - SIGN_BIT
        } else {
            self.bits
        }
    }

    pub fn is_nan(self) -> (b: bool)
        ensures
            b == self.spec_is_nan(),
    {
        self.magnitude() > INFINITE_MAGNITUDE
    }

    pub fn is_finite(self) -> (b: bool)
        ensures
            b == self.spec_is_finite(),
    {
        self.magnitude() < INFINITE_MAGNITUDE
    }

    /// Numeric equality: both zeros are equal, and what is not a number equals
    /// nothing.
    pub fn num_eq(self, other: Self) -> (b: bool)
        ensures
            b == self.spec_num_eq(other),
    {
        if self.is_nan() || other.is_nan() {
            return false;
        }
        self.signed() == other.signed()
    }

    pub fn lt(self, other: Self) -> (b: bool)
        ensures
            b == self.spec_lt(other),
    {
        if self.is_nan() || other.is_nan() {
            return false;
        }
        self.signed() < other.signed()
    }

    pub fn le(self, other: Self) -> (b: bool)
        ensures
            b == self.spec_le(other),
    {
        if self.is_nan() || other.is_nan() {
            return false;
        }
        self.signed() <= other.signed()
    }

    pub fn max(self, other: Self) -> (larger: Self)
        ensures
            larger == self.spec_max(other),
    {
        if self.is_nan() || self.lt(other) {
            other
        } else {
            self
        }
    }

    pub fn min(self, other: Self) -> (smaller: Self)
        ensures
            smaller == self.spec_min(other),
    {
        if self.is_nan() || other.lt(self) {
            other
        } else {
            self
        }
    }

    fn signed(self) -> (key: i64)
        ensures
            key == self.key(),
    {
        let magnitude: i64 = self.magnitude() as i64;
        if self.bits >= SIGN_BIT {
            -magnitude
        } else {
            magnitude
        }
    }

    /// Rounds a clearance up to whole metres. The largest result is
    /// [`MAX_HEIGHT`]; a clearance that is not finite or not positive gives zero.
    pub fn ceil_height(self) -> (height: u16)
        ensures
            height == self.spec_ceil_height(),
            height <= MAX_HEIGHT,
    {
        if !self.is_finite() || self.signed() <= 0 {
            return 0;
        }
        let magnitude: u64 = self.magnitude();
        let field: u64 = magnitude / EXPONENT_UNIT;
        let fraction: u64 = magnitude % EXPONENT_UNIT;
        let significand: u64 = if field == 0 {
            fraction
        } else {
            fraction + EXPONENT_UNIT
        };
        proof {
            lemma2_to64();
        }
        if field >= 1039 {
            proof {
                self.lemma_large();
            }
            return MAX_HEIGHT;
        }
        let places: u64 = if field == 0 {
            1074
        } else {
            1075 - field
        };
        if places >= 64 {
            proof {
                let unit = pow2(places as nat) as int;
                if places > 64 {
                    lemma_pow2_strictly_increases(64, places as nat);
                }
                assert((significand + unit - 1) / unit == 1) by (nonlinear_arith)
                    requires
                        0 < significand < unit,
                ;
            }
            return 1;
        }
        let mut unit: u64 = 1;
        let mut i: u64 = 0;
        while i < places
            invariant
                i <= places < 64,
                unit == pow2(i as nat),
            decreases places - i,
        {
            proof {
                lemma_pow2_unfold((i + 1) as nat);
                if i + 1 < 64 {
                    lemma_pow2_strictly_increases((i + 1) as nat, 64);
                }
                lemma2_to64();
            }
            unit = unit * 2;
            i = i + 1;
        }
        proof {
            lemma_pow2_pos(places as nat);
            lemma_pow2_unfold(64);
            if places < 63 {
                lemma_pow2_strictly_increases(places as nat, 63);
            }
        }
        let rounded: u64 = (significand + (unit - 1)) / unit;
        if rounded > 65534 {
            MAX_HEIGHT
        } else {
            rounded as u16
        }
    }

    /// The largest integer that is at most the magnitude of a finite number.
    pub open spec fn floor_magnitude(self) -> int {
        if self.exponent() >= 0 {
            self.significand() * pow2(self.exponent() as nat)
        } else {
            self.significand() / pow2((-self.exponent()) as nat) as int
        }
    }

    /// The largest integer that is at most a finite number.
    pub open spec fn spec_floor(self) -> int {
        if self.key() < 0 {
            -self.ceil_magnitude()
        } else {
            self.floor_magnitude()
        }
    }

    /// A number below 32768 in magnitude is not rounded down to 32768.
    pub proof fn lemma_floor_below(self)
        requires
            self.spec_magnitude() < 0x40e0_0000_0000_0000,
        ensures
            self.spec_floor() < 32768,
    {
        if self.key() >= 0 {
            let places = (-self.exponent()) as nat;
            let unit = pow2(places) as int;
            let significand = self.significand();
            lemma2_to64();
            lemma_pow2_adds(32, 6);
            if places > 38 {
                lemma_pow2_strictly_increases(38, places);
            }
            assert(significand / unit < 32768) by (nonlinear_arith)
                requires
                    unit >= 0x40_0000_0000,
                    0 <= significand < 32768 * 0x40_0000_0000,
            ;
        } else {
            let places = (-self.exponent()) as nat;
            let unit = pow2(places) as int;
            lemma_pow2_pos(places);
            assert((self.significand() + unit - 1) / unit >= 0) by (nonlinear_arith)
                requires
                    unit >= 1,
                    self.significand() >= 0,
            ;
        }
    }

    /// A number from `-degrees` to `degrees`, which are 90 or 180, is rounded down
    /// to one of these, and one below `degrees` to less.
    pub proof fn lemma_floor_degrees(self, degrees: int)
        requires
            degrees == 90 || degrees == 180,
            self.spec_magnitude() <= (if degrees == 90 {
                0x4056_8000_0000_0000u64
            } else {
                0x4066_8000_0000_0000u64
            }),
        ensures
            -degrees <= self.spec_floor() <= degrees,
            self.key() < (if degrees == 90 {
                0x4056_8000_0000_0000int
            } else {
                0x4066_8000_0000_0000int
            }) ==> self.spec_floor() < degrees,
            self.exponent() < 0,
            self.significand() <= degrees * pow2((-self.exponent()) as nat),
            self.key() == (if degrees == 90 {
                0x4056_8000_0000_0000int
            } else {
                0x4066_8000_0000_0000int
            }) ==> self.significand() == degrees * pow2((-self.exponent()) as nat),
    {
        let places = (-self.exponent()) as nat;
        let unit = pow2(places) as int;
        let significand = self.significand();
        let least: nat = if degrees == 90 {
            46
        } else {
            45
        };
        let bound: int = if degrees == 90 {
            0x4056_8000_0000_0000
        } else {
            0x4066_8000_0000_0000
        };
        lemma2_to64();
        lemma_pow2_adds(32, 13);
        lemma_pow2_adds(32, 14);
        lemma_pow2_adds(32, 15);
        lemma_pow2_pos(places);
        assert(places >= least);
        if places > least {
            if places > least + 1 {
                lemma_pow2_strictly_increases(least + 1, places);
            }
            assert(significand < degrees * unit) by (nonlinear_arith)
                requires
                    degrees == 90 && unit >= 0x8000_0000_0000 || degrees == 180 && unit
                        >= 0x4000_0000_0000,
                    significand < 0x20_0000_0000_0000,
            ;
        }
        assert(significand <= degrees * unit);
        assert(self.spec_magnitude() < bound ==> significand < degrees * unit);
        assert(0 <= (significand + unit - 1) / unit <= degrees && 0 <= significand / unit
            <= degrees && (significand < degrees * unit ==> significand / unit < degrees))
            by (nonlinear_arith)
            requires
                unit >= 1,
                0 <= significand <= degrees * unit,
        ;
    }

    /// Rounds a number of a magnitude below 32768 down.
    pub fn floor(self) -> (floor: i32)
        requires
            self.spec_magnitude() < 0x40e0_0000_0000_0000,
        ensures
            floor == self.spec_floor(),
            -32768 <= floor <= 32768,
    {
        let magnitude: u64 = self.magnitude();
        let field: u64 = magnitude / EXPONENT_UNIT;
        let fraction: u64 = magnitude % EXPONENT_UNIT;
        let significand: u64 = if field == 0 {
            fraction
        } else {
            fraction + EXPONENT_UNIT
        };
        let places: u64 = if field == 0 {
            1074
        } else {
            1075 - field
        };
        proof {
            lemma2_to64();
        }
        let below_zero = self.signed() < 0;
        if places >= 64 {
            proof {
                let unit = pow2(places as nat) as int;
                if places > 64 {
                    lemma_pow2_strictly_increases(64, places as nat);
                }
                assert(significand as int / unit == 0 && (significand > 0 ==> (significand + unit
                    - 1) / unit == 1)) by (nonlinear_arith)
                    requires
                        0 <= significand < unit,
                ;
            }
            return if below_zero {
                -1
            } else {
                0
            };
        }
        let mut unit: u64 = 1;
        let mut i: u64 = 0;
        while i < places
            invariant
                i <= places < 64,
                unit == pow2(i as nat),
            decreases places - i,
        {
            proof {
                lemma_pow2_unfold((i + 1) as nat);
                if i + 1 < 64 {
                    lemma_pow2_strictly_increases((i + 1) as nat, 64);
                }
                lemma2_to64();
            }
            unit = unit * 2;
            i = i + 1;
        }
        proof {
            lemma_pow2_pos(places as nat);
            lemma_pow2_unfold(64);
            if places < 63 {
                lemma_pow2_strictly_increases(places as nat, 63);
            }
            lemma_pow2_adds(32, 6);
            if places > 38 {
                lemma_pow2_strictly_increases(38, places as nat);
            }
            assert(significand as int / unit as int <= 32768 && (significand + unit - 1)
                / unit as int <= 32768) by (nonlinear_arith)
                requires
                    unit >= 0x40_0000_0000,
                    0 <= significand <= 32768 * 0x40_0000_0000,
            ;
        }
        if below_zero {
            -(((significand + (unit - 1)) / unit) as i32)
        } else {
            (significand / unit) as i32
        }
    }

    proof fn lemma_large(self)
        requires
            self.spec_is_finite(),
            self.spec_magnitude() / EXPONENT_UNIT >= 1039,
        ensures
            self.ceil_magnitude() > MAX_HEIGHT,
    {
        lemma2_to64();
        let significand = self.significand();
        if self.exponent() >= 0 {
            let scale = pow2(self.exponent() as nat) as int;
            lemma_pow2_pos(self.exponent() as nat);
            assert(significand * scale >= significand) by (nonlinear_arith)
                requires
                    scale >= 1,
                    significand >= 0,
            ;
        } else {
            let places = (-self.exponent()) as nat;
            let unit = pow2(places) as int;
            lemma_pow2_pos(places);
            lemma_pow2_adds(places, (36 - places) as nat);
            lemma_pow2_adds(32, 4);
            lemma_pow2_pos((36 - places) as nat);
            assert(unit <= pow2(36)) by (nonlinear_arith)
                requires
                    pow2(36) == unit * pow2((36 - places) as nat),
                    pow2((36 - places) as nat) >= 1,
                    unit >= 1,
            ;
            assert((significand + unit - 1) / unit >= 65536) by (nonlinear_arith)
                requires
                    1 <= unit <= 0x10_0000_0000,
                    significand >= 0x10_0000_0000 * 65536,
            ;
        }
    }
}

/// The weight of the exponent field of a single-precision number.
pub const EXPONENT_UNIT_32: u32 = 0x0080_0000;

/// An IEEE 754 single-precision number by its bits.
#[derive(Clone, Copy, Debug, PartialEq, Eq, Structural)]
pub struct Binary32 {
    pub bits: u32,
}

impl Binary32 {
    /// A number kept between zero and one; what is not a number stays.
    pub open spec fn spec_clamp_unit(self) -> Self {
        if self.spec_magnitude() > 0x7f80_0000 {
            self
        } else if self.spec_negative() && self.spec_magnitude() > 0 {
            Binary32 { bits: 0 }
        } else if !self.spec_negative() && self.bits > 0x3f80_0000 {
            Binary32 { bits: 0x3f80_0000 }
        } else {
            self
        }
    }

    pub fn clamp_unit(self) -> (clamped: Self)
        ensures
            clamped == self.spec_clamp_unit(),
    {
        let negative = self.bits >= 0x8000_0000;
        let magnitude: u32 = if negative {
            self.bits - 0x8000_0000
        } else {
            self.bits
        };
        if magnitude > 0x7f80_0000 {
            self
        } else if negative && magnitude > 0 {
            Binary32 { bits: 0 }
        } else if !negative && self.bits > 0x3f80_0000 {
            Binary32 { bits: 0x3f80_0000 }
        } else {
            self
        }
    }

    pub open spec fn spec_negative(self) -> bool {
        self.bits >= 0x8000_0000
    }

    /// The bits without the sign.
    pub open spec fn spec_magnitude(self) -> u32 {
        if self.spec_negative() {
            (self.bits - 0x8000_0000) as u32
        } else {
            self.bits
        }
    }

    /// The integer that is scaled to give the magnitude.
    pub open spec fn significand(self) -> int {
        let field = self.spec_magnitude() / EXPONENT_UNIT_32;
        let fraction = self.spec_magnitude() % EXPONENT_UNIT_32;
        if field == 0 {
            fraction as int
        } else {
            fraction + EXPONENT_UNIT_32
        }
    }

    /// The power of two by which the significand is scaled.
    pub open spec fn exponent(self) -> int {
        let field = self.spec_magnitude() / EXPONENT_UNIT_32;
        if field == 0 {
            -149
        } else {
            field - 150
        }
    }

    /// The integer nearest to the magnitude of a finite number; halves go up.
    pub open spec fn rounded_magnitude(self) -> int {
        if self.exponent() >= 0 {
            self.significand() * pow2(self.exponent() as nat)
        } else {
            let unit = pow2((-self.exponent()) as nat) as int;
            (2 * self.significand() + unit) / (2 * unit)
        }
    }

    /// The elevation that is stored for a number: the nearest integer, halves
    /// away from zero, kept within 32767 on both sides. What is not a number is
    /// stored as zero.
    pub open spec fn spec_rounded_elevation(self) -> i16 {
        let magnitude = self.spec_magnitude();
        let limit = if magnitude > 0x7f80_0000 {
            0
        } else if magnitude == 0x7f80_0000 || self.rounded_magnitude() > 32767 {
            32767
        } else {
            self.rounded_magnitude()
        };
        if self.spec_negative() {
            (-limit) as i16
        } else {
            limit as i16
        }
    }

    /// The elevation that stands for "no terrain" is never stored for a number.
    pub proof fn lemma_rounded_elevation_bounds(self)
        ensures
            -32767 <= self.spec_rounded_elevation() <= 32767,
    {
        if self.exponent() >= 0 {
            assert(self.significand() * pow2(self.exponent() as nat) >= 0) by (nonlinear_arith)
                requires
                    self.significand() >= 0,
            ;
        } else {
            let unit = pow2((-self.exponent()) as nat) as int;
            lemma_pow2_pos((-self.exponent()) as nat);
            assert((2 * self.significand() + unit) / (2 * unit) >= 0) by (nonlinear_arith)
                requires
                    self.significand() >= 0,
                    unit >= 1,
            ;
        }
    }

    pub fn rounded_elevation(self) -> (elevation: i16)
        ensures
            elevation == self.spec_rounded_elevation(),
            -32767 <= elevation <= 32767,
    {
        let negative = self.bits >= 0x8000_0000;
        let magnitude: u32 = if negative {
            self.bits - 0x8000_0000
        } else {
            self.bits
        };
        let size: i16 = if magnitude > 0x7f80_0000 {
            0
        } else if magnitude == 0x7f80_0000 {
            32767
        } else {
            self.rounded_size(magnitude)
        };
        if negative {
            -size
        } else {
            size
        }
    }

    fn rounded_size(self, magnitude: u32) -> (size: i16)
        requires
            magnitude == self.spec_magnitude(),
            magnitude < 0x7f80_0000,
        ensures
            size == (if self.rounded_magnitude() > 32767 {
                32767
            } else {
                self.rounded_magnitude()
            }),
            0 <= size <= 32767,
    {
        let field: u32 = magnitude / EXPONENT_UNIT_32;
        let fraction: u32 = magnitude % EXPONENT_UNIT_32;
        let significand: u64 = if field == 0 {
            fraction as u64
        } else {
            fraction as u64 + EXPONENT_UNIT_32 as u64
        };
        proof {
            lemma2_to64();
        }
        if field >= 142 {
            proof {
                self.lemma_large();
            }
            return 32767;
        }
        let places: u64 = if field == 0 {
            149
        } else {
            150 - field as u64
        };
        if places >= 25 {
            proof {
                let unit = pow2(places as nat) as int;
                if places > 25 {
                    lemma_pow2_strictly_increases(25, places as nat);
                }
                assert((2 * significand + unit) / (2 * unit) == 0) by (nonlinear_arith)
                    requires
                        0 <= significand,
                        2 * significand < unit,
                ;
            }
            return 0;
        }
        let mut unit: u64 = 1;
        let mut i: u64 = 0;
        while i < places
            invariant
                i <= places < 25,
                unit == pow2(i as nat),
            decreases places - i,
        {
            proof {
                lemma_pow2_unfold((i + 1) as nat);
                lemma_pow2_strictly_increases((i + 1) as nat, 26);
                lemma2_to64();
            }
            unit = unit * 2;
            i = i + 1;
        }
        proof {
            lemma_pow2_pos(places as nat);
            lemma_pow2_strictly_increases(places as nat, 26);
        }
        let rounded: u64 = (2 * significand + unit) / (2 * unit);
        if rounded > 32767 {
            32767
        } else {
            rounded as i16
        }
    }

    proof fn lemma_large(self)
        requires
            self.spec_magnitude() < 0x7f80_0000,
            self.spec_magnitude() / EXPONENT_UNIT_32 >= 142,
        ensures
            self.rounded_magnitude() > 32767,
    {
        lemma2_to64();
        let significand = self.significand();
        if self.exponent() >= 0 {
            let scale = pow2(self.exponent() as nat) as int;
            lemma_pow2_pos(self.exponent() as nat);
            assert(significand * scale >= significand) by (nonlinear_arith)
                requires
                    scale >= 1,
                    significand >= 0,
            ;
        } else {
            let places = (-self.exponent()) as nat;
            let unit = pow2(places) as int;
            lemma_pow2_pos(places);
            if places < 8 {
                lemma_pow2_strictly_increases(places, 8);
            }
            assert((2 * significand + unit) / (2 * unit) >= 32768) by (nonlinear_arith)
                requires
                    1 <= unit <= 256,
                    significand >= 256 * 32768,
            ;
        }
    }
}

/// `max` takes one of its arguments, and none of them is larger.
pub proof fn law_max_is_upper_bound(a: Binary64, b: Binary64)
    ensures
        a.spec_max(b) == a || a.spec_max(b) == b,
        !a.spec_is_nan() ==> a.spec_le(a.spec_max(b)),
        !b.spec_is_nan() ==> b.spec_le(a.spec_max(b)),
{
}

/// A positive clearance is never stored as ground visibility, nor as "no data".
pub proof fn law_positive_clearance_is_above_ground(a: Binary64)
    requires
        a.spec_is_finite(),
        a.key() > 0,
    ensures
        1 <= a.spec_ceil_height() <= MAX_HEIGHT,
{
    lemma2_to64();
    if a.exponent() >= 0 {
        let scale = pow2(a.exponent() as nat) as int;
        lemma_pow2_pos(a.exponent() as nat);
        assert(a.significand() * scale >= 1) by (nonlinear_arith)
            requires
                scale >= 1,
                a.significand() >= 1,
        ;
    } else {
        let unit = pow2((-a.exponent()) as nat) as int;
        lemma_pow2_pos((-a.exponent()) as nat);
        assert((a.significand() + unit - 1) / unit >= 1) by (nonlinear_arith)
            requires
                unit >= 1,
                a.significand() >= 1,
        ;
    }
}

impl Binary64 {
    /// The significand with the sign of the number.
    pub open spec fn signed_significand(self) -> int {
        if self.bits >= SIGN_BIT {
            -self.significand()
        } else {
            self.significand()
        }
    }
}

/// The order of numbers, read off their bits: patterns without a sign bit rise with
/// the number, those with one fall, negative ones come first, the two zeros are
/// equal, and what is not a number compares with nothing.
pub proof fn law_order_of_numbers(a: Binary64, b: Binary64)
    ensures
        a.spec_is_nan() <==> 0x7ff0_0000_0000_0000 < a.bits < 0x8000_0000_0000_0000 || a.bits
            > 0xfff0_0000_0000_0000,
        a.spec_is_nan() || b.spec_is_nan() ==> !a.spec_lt(b) && !a.spec_le(b) && !a.spec_num_eq(b),
        !a.spec_is_nan() && !b.spec_is_nan() ==> {
            &&& a.bits < 0x8000_0000_0000_0000 && b.bits < 0x8000_0000_0000_0000 ==> (a.spec_lt(b)
                <==> a.bits < b.bits)
            &&& a.bits >= 0x8000_0000_0000_0000 && b.bits >= 0x8000_0000_0000_0000 ==> (a.spec_lt(b)
                <==> b.bits < a.bits)
            &&& a.bits >= 0x8000_0000_0000_0000 && b.bits < 0x8000_0000_0000_0000 ==> (a.spec_lt(b)
                <==> a.bits > 0x8000_0000_0000_0000 || b.bits > 0)
            &&& a.bits < 0x8000_0000_0000_0000 && b.bits >= 0x8000_0000_0000_0000 ==> !a.spec_lt(b)
            &&& a.spec_le(b) <==> !b.spec_lt(a)
            &&& a.spec_num_eq(b) <==> a.spec_le(b) && b.spec_le(a)
        },
        Binary64::zero().bits == 0,
        !a.spec_is_nan() ==> Binary64::negative_infinity().spec_le(a),
        a.spec_is_finite() ==> Binary64::negative_infinity().spec_lt(a),
{
}

/// `min` takes one of its arguments, and none of them is smaller.
pub proof fn law_min_is_lower_bound(a: Binary64, b: Binary64)
    ensures
        a.spec_min(b) == a || a.spec_min(b) == b,
        !a.spec_is_nan() ==> a.spec_min(b).spec_le(a),
        !b.spec_is_nan() ==> a.spec_min(b).spec_le(b),
{
}

/// Patterns count numbers upwards from zero. The next pattern is one unit more, in
/// the same unit or, with the unit doubled, as far again. The smallest unit is
/// two to the power of -1074.
pub proof fn law_patterns_count_upwards(a: Binary64, b: Binary64)
    requires
        a.bits + 1 == b.bits,
        b.bits < SIGN_BIT,
    ensures
        a.bits == 0 ==> a.significand() == 0 && a.exponent() == -1074,
        b.exponent() == a.exponent() ==> b.significand() == a.significand() + 1,
        b.exponent() != a.exponent() ==> b.exponent() == a.exponent() + 1 && 2 * b.significand()
            == a.significand() + 1,
{
    let (m, n) = (a.bits as int, b.bits as int);
    let unit = EXPONENT_UNIT as int;
    if n % unit == 0 {
        vstd::arithmetic::div_mod::lemma_fundamental_div_mod_converse(
            m,
            unit,
            n / unit - 1,
            unit - 1,
        );
    } else {
        vstd::arithmetic::div_mod::lemma_fundamental_div_mod_converse(
            m,
            unit,
            n / unit,
            n % unit - 1,
        );
    }
}

/// A number and its negative have the same significand and unit.
pub proof fn law_sign_keeps_the_magnitude(a: Binary64, b: Binary64)
    requires
        a.bits < SIGN_BIT,
        b.bits == a.bits + SIGN_BIT,
    ensures
        b.significand() == a.significand(),
        b.exponent() == a.exponent(),
        b.signed_significand() == -a.signed_significand(),
        b.key() == -a.key(),
{
}

/// Rounding down gives the integer at or below a number, and the next one lies
/// above it.
pub proof fn law_floor_is_the_integer_below(a: Binary64)
    ensures
        a.exponent() < 0 ==> {
            let unit = pow2((-a.exponent()) as nat);
            &&& a.spec_floor() * unit <= a.signed_significand()
            &&& a.signed_significand() < (a.spec_floor() + 1) * unit
        },
        a.exponent() >= 0 ==> a.spec_floor() == a.signed_significand() * pow2(a.exponent() as nat),
{
    let s = a.significand();
    if a.exponent() < 0 {
        let unit = pow2((-a.exponent()) as nat) as int;
        lemma_pow2_pos((-a.exponent()) as nat);
        if a.key() < 0 {
            let n = (s + unit - 1) / unit;
            assert(-n * unit <= -s && -s < (-n + 1) * unit) by (nonlinear_arith)
                requires
                    unit >= 1,
                    n == (s + unit - 1) / unit,
            ;
        } else {
            let n = s / unit;
            assert(n * unit <= s && s < (n + 1) * unit) by (nonlinear_arith)
                requires
                    unit >= 1,
                    n == s / unit,
            ;
            if a.bits >= SIGN_BIT {
                assert(s == 0);
                assert(n == 0) by (nonlinear_arith)
                    requires
                        unit >= 1,
                        n == 0int / unit,
                ;
            }
        }
    } else {
        let scale = pow2(a.exponent() as nat) as int;
        assert((-s) * scale == -(s * scale)) by (nonlinear_arith);
    }
}

/// A height is stored as the least whole number of metres that is no less than it,
/// as far as heights go. What is not above ground, or no finite number, is stored
/// as ground.
pub proof fn law_stored_height_is_the_least_above(a: Binary64)
    ensures
        !a.spec_is_finite() || a.key() <= 0 ==> a.spec_ceil_height() == 0,
        a.spec_is_finite() && a.key() > 0 && a.exponent() < 0 ==> {
            let unit = pow2((-a.exponent()) as nat);
            let height = a.spec_ceil_height() as int;
            &&& (height - 1) * unit < a.significand()
            &&& a.significand() <= height * unit || height == 65534
        },
        a.spec_is_finite() && a.key() > 0 && a.exponent() >= 0 ==> {
            let number = a.significand() * pow2(a.exponent() as nat);
            let height = a.spec_ceil_height() as int;
            height == number || (height == 65534 && number > height)
        },
        a.spec_ceil_height() <= 65534,
{
    let s = a.significand();
    if a.spec_is_finite() && a.key() > 0 {
        if a.exponent() < 0 {
            let unit = pow2((-a.exponent()) as nat) as int;
            lemma_pow2_pos((-a.exponent()) as nat);
            let n = (s + unit - 1) / unit;
            assert((n - 1) * unit < s && s <= n * unit && (n > 65534 ==> 65533 * unit < s))
                by (nonlinear_arith)
                requires
                    unit >= 1,
                    n == (s + unit - 1) / unit,
            ;
            assert(n >= 0) by (nonlinear_arith)
                requires
                    unit >= 1,
                    s >= 0,
                    n == (s + unit - 1) / unit,
            ;
        } else {
            let scale = pow2(a.exponent() as nat) as int;
            assert(s * scale >= 0) by (nonlinear_arith)
                requires
                    scale >= 0,
                    s >= 0,
            ;
        }
    }
}

/// An elevation is stored as the nearest whole number of metres, halves away from
/// zero, as far as elevations go on either side of zero.
pub proof fn law_stored_elevation_is_the_nearest(a: Binary32)
    ensures
        a.spec_magnitude() > 0x7f80_0000 ==> a.spec_rounded_elevation() == 0,
        -32767 <= a.spec_rounded_elevation() <= 32767,
        ({
            let stored = a.spec_rounded_elevation() as int;
            let size = if a.spec_negative() {
                -stored
            } else {
                stored
            };
            &&& size >= 0
            &&& a.spec_magnitude() == 0x7f80_0000 ==> size == 32767
            &&& a.spec_magnitude() < 0x7f80_0000 && a.exponent() < 0 ==> {
                let unit = pow2((-a.exponent()) as nat);
                &&& (2 * size - 1) * unit <= 2 * a.significand()
                &&& 2 * a.significand() < (2 * size + 1) * unit || size == 32767
            }
            &&& a.spec_magnitude() < 0x7f80_0000 && a.exponent() >= 0 ==> {
                let number = a.significand() * pow2(a.exponent() as nat);
                size == number || (size == 32767 && number > size)
            }
        }),
{
    let s = a.significand();
    if a.exponent() < 0 {
        let unit = pow2((-a.exponent()) as nat) as int;
        lemma_pow2_pos((-a.exponent()) as nat);
        let n = (2 * s + unit) / (2 * unit);
        assert((2 * n - 1) * unit <= 2 * s && 2 * s < (2 * n + 1) * unit && n >= 0 && (n > 32767
            ==> 65533 * unit <= 2 * s)) by (nonlinear_arith)
            requires
                unit >= 1,
                s >= 0,
                n == (2 * s + unit) / (2 * unit),
        ;
    } else {
        let scale = pow2(a.exponent() as nat) as int;
        assert(s * scale >= 0) by (nonlinear_arith)
            requires
                scale >= 0,
                s >= 0,
        ;
    }
}

/// Patterns of the short format count upwards from zero as well, from a unit of two
/// to the power of -149.
pub proof fn law_short_patterns_count_upwards(a: Binary32, b: Binary32)
    requires
        a.bits + 1 == b.bits,
        b.bits < 0x8000_0000,
    ensures
        a.bits == 0 ==> a.significand() == 0 && a.exponent() == -149,
        b.exponent() == a.exponent() ==> b.significand() == a.significand() + 1,
        b.exponent() != a.exponent() ==> b.exponent() == a.exponent() + 1 && 2 * b.significand()
            == a.significand() + 1,
{
    let (m, n) = (a.bits as int, b.bits as int);
    let unit = EXPONENT_UNIT_32 as int;
    if n % unit == 0 {
        vstd::arithmetic::div_mod::lemma_fundamental_div_mod_converse(
            m,
            unit,
            n / unit - 1,
            unit - 1,
        );
    } else {
        vstd::arithmetic::div_mod::lemma_fundamental_div_mod_converse(
            m,
            unit,
            n / unit,
            n % unit - 1,
        );
    }
}

/// A number cut to the unit interval lies in it, and one that lay in it is kept.
/// One below it becomes zero, one above it becomes one.
pub proof fn law_cut_number_lies_in_the_unit(a: Binary32)
    ensures
        a.bits <= 0x3f80_0000 || a.bits == 0x8000_0000 ==> a.spec_clamp_unit() == a,
        0x3f80_0000 < a.bits <= 0x7f80_0000 ==> a.spec_clamp_unit().bits == 0x3f80_0000,
        0x8000_0000 < a.bits <= 0xff80_0000 ==> a.spec_clamp_unit().bits == 0,
        0x7f80_0000 < a.bits < 0x8000_0000 || 0xff80_0000 < a.bits ==> a.spec_clamp_unit() == a,
{
}

/// The order of finite numbers that are not negative is that of what they stand
/// for: significands are compared in the smaller of the two units.
pub proof fn law_order_is_numeric(a: Binary64, b: Binary64)
    requires
        a.bits < INFINITE_MAGNITUDE,
        b.bits < INFINITE_MAGNITUDE,
        a.exponent() <= b.exponent(),
    ensures
        a.spec_le(b) <==> a.significand() <= b.significand() * pow2(
            (b.exponent() - a.exponent()) as nat,
        ),
        b.spec_le(a) <==> b.significand() * pow2((b.exponent() - a.exponent()) as nat)
            <= a.significand(),
{
    let unit = EXPONENT_UNIT as int;
    let (m, n) = (a.bits as int, b.bits as int);
    let more = (b.exponent() - a.exponent()) as nat;
    lemma2_to64();
    vstd::arithmetic::div_mod::lemma_fundamental_div_mod(m, unit);
    vstd::arithmetic::div_mod::lemma_fundamental_div_mod(n, unit);
    if more == 0 {
        assert(b.significand() * pow2(more) == b.significand());
        let (f, g) = (m / unit, n / unit);
        assert(f == g || (f == 0 && g == 1) || (f == 1 && g == 0));
        assert(m == f * unit + m % unit && n == g * unit + n % unit);
        if f == g {
            assert(f * unit == g * unit);
        }
    } else {
        if more > 1 {
            lemma_pow2_strictly_increases(1, more);
        }
        let scale = pow2(more) as int;
        assert(b.significand() * scale > a.significand()) by (nonlinear_arith)
            requires
                scale >= 2,
                b.significand() >= unit,
                a.significand() < 2 * unit,
                unit == 0x0010_0000_0000_0000,
        ;
        assert(m / unit < n / unit);
        assert(m < n);
    }
}

} // verus!
