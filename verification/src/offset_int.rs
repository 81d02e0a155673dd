//! Checked addition of signed offsets to unsigned integers.
//!
//! Each function returns the sum of an unsigned value and a signed offset,
//! or `None` when the mathematical result does not fit in the unsigned type.

use vstd::prelude::*;

verus! {

/// Adds a `u8` and an `i8`, returning `None` on underflow or overflow.
pub fn offset_u8_checked(value: u8, o: i8) -> (r: Option<u8>)
    ensures
        r == (if 0 <= value + o <= u8::MAX {
            Some((value + o) as u8)
        } else {
            None::<u8>
        }),
{
    if o >= 0 {
        let off: u8 = o as u8;
        if value <= u8::MAX - off {
            Some(value + off)
        } else {
            None
        }
    } else {
        let mag: u8 = ((-(o + 1)) as u8) + 1;
        if value >= mag {
            Some(value - mag)
        } else {
            None
        }
    }
}

/// Adds a `u16` and an `i16`, returning `None` on underflow or overflow.
pub fn offset_u16_checked(value: u16, o: i16) -> (r: Option<u16>)
    ensures
        r == (if 0 <= value + o <= u16::MAX {
            Some((value + o) as u16)
        } else {
            None::<u16>
        }),
{
    if o >= 0 {
        let off: u16 = o as u16;
        if value <= u16::MAX - off {
            Some(value + off)
        } else {
            None
        }
    } else {
        let mag: u16 = ((-(o + 1)) as u16) + 1;
        if value >= mag {
            Some(value - mag)
        } else {
            None
        }
    }
}

/// Adds a `u32` and an `i32`, returning `None` on underflow or overflow.
pub fn offset_u32_checked(value: u32, o: i32) -> (r: Option<u32>)
    ensures
        r == (if 0 <= value + o <= u32::MAX {
            Some((value + o) as u32)
        } else {
            None::<u32>
        }),
{
    if o >= 0 {
        let off: u32 = o as u32;
        if value <= u32::MAX - off {
            Some(value + off)
        } else {
            None
        }
    } else {
        let mag: u32 = ((-(o + 1)) as u32) + 1;
        if value >= mag {
            Some(value - mag)
        } else {
            None
        }
    }
}

/// Adds a `u64` and an `i64`, returning `None` on underflow or overflow.
pub fn offset_u64_checked(value: u64, o: i64) -> (r: Option<u64>)
    ensures
        r == (if 0 <= value + o <= u64::MAX {
            Some((value + o) as u64)
        } else {
            None::<u64>
        }),
{
    if o >= 0 {
        let off: u64 = o as u64;
        if value <= u64::MAX - off {
            Some(value + off)
        } else {
            None
        }
    } else {
        let mag: u64 = ((-(o + 1)) as u64) + 1;
        if value >= mag {
            Some(value - mag)
        } else {
            None
        }
    }
}

/// Adds a `u128` and an `i128`, returning `None` on underflow or overflow.
pub fn offset_u128_checked(value: u128, o: i128) -> (r: Option<u128>)
    ensures
        r == (if 0 <= value + o <= u128::MAX {
            Some((value + o) as u128)
        } else {
            None::<u128>
        }),
{
    if o >= 0 {
        let off: u128 = o as u128;
        if value <= u128::MAX - off {
            Some(value + off)
        } else {
            None
        }
    } else {
        let mag: u128 = ((-(o + 1)) as u128) + 1;
        if value >= mag {
            Some(value - mag)
        } else {
            None
        }
    }
}

/// Adds a `usize` and an `isize`, returning `None` on underflow or overflow.
pub fn offset_usize_checked(value: usize, o: isize) -> (r: Option<usize>)
    ensures
        r == (if 0 <= value + o <= usize::MAX {
            Some((value + o) as usize)
        } else {
            None::<usize>
        }),
{
    if o >= 0 {
        let off: usize = o as usize;
        if value <= usize::MAX - off {
            Some(value + off)
        } else {
            None
        }
    } else {
        let mag: usize = ((-(o + 1)) as usize) + 1;
        if value >= mag {
            Some(value - mag)
        } else {
            None
        }
    }
}

} // verus!
