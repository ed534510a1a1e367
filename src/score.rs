use vstd::prelude::*;

verus! {

/// A score is carried as the bit pattern of an IEEE-754 single-precision value.
/// The pattern names no NaN: the exponent bits are not all set with a non-zero fraction.
pub open spec fn is_score(b: u32) -> bool {
    b % 0x8000_0000 <= 0x7f80_0000
}

/// The order of single-precision values, read from their bit patterns: a pattern
/// with the sign bit clear grows with its value, one with the sign bit set shrinks,
/// and the two zeros are equal.
pub open spec fn rank(b: u32) -> int {
    if b < 0x8000_0000 {
        b as int
    } else {
        -((b - 0x8000_0000) as int)
    }
}

/// Whether score `a` is at least score `b`.
pub fn score_ge(a: u32, b: u32) -> (r: bool)
    requires
        is_score(a),
        is_score(b),
    ensures
        r == (rank(a) >= rank(b)),
{
    let sign: u32 = 0x8000_0000;
    if a < sign && b < sign {
        a >= b
    } else if a >= sign && b >= sign {
        a - sign <= b - sign
    } else if a < sign {
        true
    } else {
        a - sign == 0 && b == 0
    }
}

} // verus!
