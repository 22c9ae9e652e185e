//! Double-precision numbers by their bits.
use vstd::prelude::*;

verus! {

/// The bit that holds the sign.
pub const SIGN: u64 = 0x8000_0000_0000_0000;

/// The bits of positive infinity; above them, sign aside, no number stands.
pub const INFINITE: u64 = 0x7ff0_0000_0000_0000;

/// The bits without the sign.
pub open spec fn magnitude(b: u64) -> int {
    if b < SIGN {
        b as int
    } else {
        b - SIGN
    }
}

/// The bits hold no number.
pub open spec fn is_nan_bits(b: u64) -> bool {
    magnitude(b) > INFINITE
}

/// Numbers compare as their ranks do; both zeros have rank 0.
pub open spec fn rank(b: u64) -> int {
    if b < SIGN {
        b as int
    } else {
        SIGN - b
    }
}

/// `a < b` as numbers: false where one of them is none.
pub open spec fn below(a: u64, b: u64) -> bool {
    !is_nan_bits(a) && !is_nan_bits(b) && rank(a) < rank(b)
}

/// The bits hold a zero of either sign.
pub open spec fn is_zero_bits(b: u64) -> bool {
    magnitude(b) == 0
}

/// The bits without the sign.
fn without_sign(b: u64) -> (r: u64)
    ensures
        r == magnitude(b),
{
    if b < SIGN {
        b
    } else {
        b - SIGN
    }
}

/// The bits hold a zero of either sign.
pub fn is_zero(b: u64) -> (r: bool)
    ensures
        r == is_zero_bits(b),
{
    without_sign(b) == 0
}

/// `a < b` as numbers.
pub fn is_below(a: u64, b: u64) -> (r: bool)
    ensures
        r == below(a, b),
{
    let x: u64 = without_sign(a);
    let y: u64 = without_sign(b);
    if x > INFINITE || y > INFINITE {
        return false;
    }
    if a < SIGN {
        b < SIGN && x < y
    } else if b < SIGN {
        x > 0 || y > 0
    } else {
        y < x
    }
}

} // verus!
