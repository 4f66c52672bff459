use vstd::prelude::*;

verus! {

/// Whether the IEEE 754 single-precision bit pattern is a NaN.
pub open spec fn spec_is_nan32(bits: u32) -> bool {
    bits % 0x8000_0000 > 0x7f80_0000
}

/// Whether the IEEE 754 double-precision bit pattern is a NaN.
pub open spec fn spec_is_nan64(bits: u64) -> bool {
    bits % 0x8000_0000_0000_0000 > 0x7ff0_0000_0000_0000
}

/// The numeric order `a < b` of two single-precision bit patterns, neither a
/// NaN: sign first, then magnitude; the two zeros are equal.
pub open spec fn spec_lt32(a: u32, b: u32) -> bool {
    let ma = a % 0x8000_0000;
    let mb = b % 0x8000_0000;
    if a >= 0x8000_0000 {
        if b >= 0x8000_0000 {
            ma > mb
        } else {
            ma != 0 || mb != 0
        }
    } else {
        b < 0x8000_0000 && ma < mb
    }
}

/// The numeric order `a < b` of two double-precision bit patterns, neither a
/// NaN: sign first, then magnitude; the two zeros are equal.
pub open spec fn spec_lt64(a: u64, b: u64) -> bool {
    let ma = a % 0x8000_0000_0000_0000;
    let mb = b % 0x8000_0000_0000_0000;
    if a >= 0x8000_0000_0000_0000 {
        if b >= 0x8000_0000_0000_0000 {
            ma > mb
        } else {
            ma != 0 || mb != 0
        }
    } else {
        b < 0x8000_0000_0000_0000 && ma < mb
    }
}

/// Numeric `a <= b` on single-precision bit patterns, neither a NaN.
pub open spec fn spec_le32(a: u32, b: u32) -> bool {
    !spec_lt32(b, a)
}

/// Numeric `a <= b` on double-precision bit patterns, neither a NaN.
pub open spec fn spec_le64(a: u64, b: u64) -> bool {
    !spec_lt64(b, a)
}

pub fn is_nan32(bits: u32) -> (r: bool)
    ensures
        r == spec_is_nan32(bits),
{
    bits % 0x8000_0000 > 0x7f80_0000
}

pub fn is_nan64(bits: u64) -> (r: bool)
    ensures
        r == spec_is_nan64(bits),
{
    bits % 0x8000_0000_0000_0000 > 0x7ff0_0000_0000_0000
}

pub fn lt32(a: u32, b: u32) -> (r: bool)
    ensures
        r == spec_lt32(a, b),
{
    let ma: u32 = a % 0x8000_0000;
    let mb: u32 = b % 0x8000_0000;
    if a >= 0x8000_0000 {
        if b >= 0x8000_0000 {
            ma > mb
        } else {
            ma != 0 || mb != 0
        }
    } else {
        b < 0x8000_0000 && ma < mb
    }
}

pub fn lt64(a: u64, b: u64) -> (r: bool)
    ensures
        r == spec_lt64(a, b),
{
    let ma: u64 = a % 0x8000_0000_0000_0000;
    let mb: u64 = b % 0x8000_0000_0000_0000;
    if a >= 0x8000_0000_0000_0000 {
        if b >= 0x8000_0000_0000_0000 {
            ma > mb
        } else {
            ma != 0 || mb != 0
        }
    } else {
        b < 0x8000_0000_0000_0000 && ma < mb
    }
}

pub fn le32(a: u32, b: u32) -> (r: bool)
    ensures
        r == spec_le32(a, b),
{
    !lt32(b, a)
}

pub fn le64(a: u64, b: u64) -> (r: bool)
    ensures
        r == spec_le64(a, b),
{
    !lt64(b, a)
}

} // verus!
