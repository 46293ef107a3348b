use vstd::prelude::*;

verus! {

/// Bit pattern of the single-precision value `1.0`.
pub const ONE_BITS: u32 = 0x3f80_0000u32;

/// Bit pattern of single-precision positive infinity.
pub const INFINITY_BITS: u32 = 0x7f80_0000u32;

/// An RGBA color. Each channel is held by the IEEE-754 single-precision bit
/// pattern of its value, so that colors are stored, compared and handed back
/// exactly as they came in.
#[derive(Clone, Copy, Debug, PartialEq, Eq, Structural)]
pub struct Color {
    pub r: u32,
    pub g: u32,
    pub b: u32,
    pub a: u32,
}

impl Color {
    /// Opaque black, `(0.0, 0.0, 0.0, 1.0)`.
    pub open spec fn spec_opaque_black() -> Color {
        Color { r: 0, g: 0, b: 0, a: ONE_BITS }
    }

    /// All four channels `0.0`.
    pub open spec fn spec_zero() -> Color {
        Color { r: 0, g: 0, b: 0, a: 0 }
    }

    pub fn opaque_black() -> (c: Color)
        ensures
            c == Color::spec_opaque_black(),
    {
        Color { r: 0, g: 0, b: 0, a: ONE_BITS }
    }

    pub fn zero() -> (c: Color)
        ensures
            c == Color::spec_zero(),
    {
        Color { r: 0, g: 0, b: 0, a: 0 }
    }
}

/// A depth value, held by the IEEE-754 single-precision bit pattern of its value.
#[derive(Clone, Copy, Debug, PartialEq, Eq, Structural)]
pub struct Depth {
    pub bits: u32,
}

/// The magnitude bits (all but the sign bit) of a single-precision pattern.
pub open spec fn f32_magnitude(bits: u32) -> int {
    bits as int % 0x8000_0000
}

/// The pattern encodes a NaN: all exponent bits set and a non-zero mantissa.
pub open spec fn f32_is_nan(bits: u32) -> bool {
    f32_magnitude(bits) > INFINITY_BITS as int
}

/// The magnitude bits with the sign of the value. For values that are not NaN,
/// this orders them as the real line does, and makes `-0.0` equal to `0.0`.
pub open spec fn f32_signed_magnitude(bits: u32) -> int {
    if bits >= 0x8000_0000 {
        -f32_magnitude(bits)
    } else {
        f32_magnitude(bits)
    }
}

/// `a < b` on the single-precision values whose bit patterns are `a` and `b`:
/// false when either is NaN, and otherwise the order of the values.
pub open spec fn f32_lt(a: u32, b: u32) -> bool {
    !f32_is_nan(a) && !f32_is_nan(b) && f32_signed_magnitude(a) < f32_signed_magnitude(b)
}

impl Depth {
    /// Positive infinity, the depth of a pixel that nothing has been drawn to.
    pub open spec fn spec_infinity() -> Depth {
        Depth { bits: INFINITY_BITS }
    }

    pub fn infinity() -> (d: Depth)
        ensures
            d == Depth::spec_infinity(),
    {
        Depth { bits: INFINITY_BITS }
    }

    /// `self < other` as single-precision values.
    pub fn less_than(self, other: Depth) -> (r: bool)
        ensures
            r == f32_lt(self.bits, other.bits),
    {
        let ma: u32 = self.bits % 0x8000_0000u32;
        let mb: u32 = other.bits % 0x8000_0000u32;
        if ma > INFINITY_BITS || mb > INFINITY_BITS {
            return false;
        }
        let ka: i64 = if self.bits >= 0x8000_0000u32 {
            -(ma as i64)
        } else {
            ma as i64
        };
        let kb: i64 = if other.bits >= 0x8000_0000u32 {
            -(mb as i64)
        } else {
            mb as i64
        };
        ka < kb
    }
}

} // verus!
