//! Real numbers as the bits of their IEEE 754 doubles: sign(1) | exponent(11) | fraction(52).

use vstd::prelude::*;

verus! {

/// The bits of a double without its sign.
pub open spec fn magnitude(bits: u64) -> u64 {
    bits % 0x8000_0000_0000_0000
}

/// The bits of positive infinity. What lies above them, but for the sign, is not a number.
pub const INFINITY: u64 = 0x7ff0_0000_0000_0000;

/// Whether the doubles of these bits are equal: a NaN equals nothing, not even itself, and the two
/// zeros are equal.
pub open spec fn same_real(a: u64, b: u64) -> bool {
    &&& magnitude(a) <= INFINITY
    &&& magnitude(b) <= INFINITY
    &&& a == b || (magnitude(a) == 0 && magnitude(b) == 0)
}

/// Whether the doubles of these bits are equal.
pub fn reals_equal(a: u64, b: u64) -> (equal: bool)
    ensures
        equal == same_real(a, b),
{
    let size_a: u64 = a % 0x8000_0000_0000_0000;
    let size_b: u64 = b % 0x8000_0000_0000_0000;
    size_a <= INFINITY && size_b <= INFINITY && (a == b || (size_a == 0 && size_b == 0))
}

/// Whether two optional numbers are both absent, or both there and equal.
pub open spec fn same_optional_real(a: Option<u64>, b: Option<u64>) -> bool {
    match (a, b) {
        (Some(a), Some(b)) => same_real(a, b),
        (None, None) => true,
        _ => false,
    }
}

/// Whether two optional numbers are both absent, or both there and equal.
pub fn optional_reals_equal(a: Option<u64>, b: Option<u64>) -> (equal: bool)
    ensures
        equal == same_optional_real(a, b),
{
    match (a, b) {
        (Some(a), Some(b)) => reals_equal(a, b),
        (None, None) => true,
        _ => false,
    }
}

/// Whether two optional vectors are both absent, or both there and equal number by number.
pub open spec fn same_optional_vector(
    a: Option<(u64, u64, u64)>,
    b: Option<(u64, u64, u64)>,
) -> bool {
    match (a, b) {
        (Some(a), Some(b)) => same_real(a.0, b.0) && same_real(a.1, b.1) && same_real(a.2, b.2),
        (None, None) => true,
        _ => false,
    }
}

/// Whether two optional vectors are both absent, or both there and equal number by number.
pub fn optional_vectors_equal(a: Option<(u64, u64, u64)>, b: Option<(u64, u64, u64)>) -> (equal:
    bool)
    ensures
        equal == same_optional_vector(a, b),
{
    match (a, b) {
        (Some(a), Some(b)) => {
            reals_equal(a.0, b.0) && reals_equal(a.1, b.1) && reals_equal(a.2, b.2)
        },
        (None, None) => true,
        _ => false,
    }
}

/// Equality of doubles in terms of their parts. With all bits of the exponent set, a double is
/// infinite if its fraction is zero and otherwise not a number. With both zero, it is one of the
/// two zeros.
pub proof fn law_equality_by_parts(a: u64, b: u64)
    ensures
        ({
            let exponent_a = a / 0x10_0000_0000_0000 % 2048;
            let exponent_b = b / 0x10_0000_0000_0000 % 2048;
            let fraction_a = a % 0x10_0000_0000_0000;
            let fraction_b = b % 0x10_0000_0000_0000;
            let nan_a = exponent_a == 2047 && fraction_a != 0;
            let nan_b = exponent_b == 2047 && fraction_b != 0;
            let zeros = exponent_a == 0 && fraction_a == 0 && exponent_b == 0 && fraction_b == 0;
            same_real(a, b) <==> !nan_a && !nan_b && (a == b || zeros)
        }),
{
    assert(magnitude(a) == a / 0x10_0000_0000_0000 % 2048 * 0x10_0000_0000_0000 + a
        % 0x10_0000_0000_0000);
    assert(magnitude(b) == b / 0x10_0000_0000_0000 % 2048 * 0x10_0000_0000_0000 + b
        % 0x10_0000_0000_0000);
}

/// Optional numbers and vectors are equal if they are there together and equal number by number.
pub proof fn law_equality_of_components(
    a: Option<u64>,
    b: Option<u64>,
    v: Option<(u64, u64, u64)>,
    w: Option<(u64, u64, u64)>,
)
    ensures
        same_optional_real(a, b) ==> a is Some == b is Some,
        a is None && b is None ==> same_optional_real(a, b),
        a is Some && b is Some ==> same_optional_real(a, b) == same_real(a->0, b->0),
        same_optional_vector(v, w) ==> v is Some == w is Some,
        v is None && w is None ==> same_optional_vector(v, w),
        v matches Some((x1, y1, z1)) ==> w matches Some((x2, y2, z2)) ==> (same_optional_vector(
            v,
            w,
        ) <==> same_real(x1, x2) && same_real(y1, y2) && same_real(z1, z2)),
{
}

} // verus!
