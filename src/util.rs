use vstd::prelude::*;

verus! {

/// The smaller of two integers (the second one when they are equal).
pub fn min(a: i32, b: i32) -> (r: i32)
    ensures
        r == if a < b { a } else { b },
{
    if a < b { a } else { b }
}

/// The larger of two integers (the second one when they are equal).
pub fn max(a: i32, b: i32) -> (r: i32)
    ensures
        r == if a > b { a } else { b },
{
    if a > b { a } else { b }
}

/// `v` clamped into the range of `i32`.
pub open spec fn clamp32(v: int) -> int {
    if v < i32::MIN { i32::MIN as int } else if v > i32::MAX { i32::MAX as int } else { v }
}

/// Saturating addition on `i32`.
pub fn sat_add(a: i32, b: i32) -> (r: i32)
    ensures
        r == clamp32(a + b),
{
    let v: i64 = a as i64 + b as i64;
    narrow(v)
}

/// Saturating subtraction on `i32`.
pub fn sat_sub(a: i32, b: i32) -> (r: i32)
    ensures
        r == clamp32(a - b),
{
    let v: i64 = a as i64 - b as i64;
    narrow(v)
}

/// Half of `v`, rounded toward zero.
pub open spec fn half(v: int) -> int {
    if v >= 0 { v / 2 } else { -((-v) / 2) }
}

/// Half of `v`, rounded toward zero.
pub fn halve(v: i32) -> (r: i32)
    ensures
        r == half(v as int),
{
    v / 2
}

/// `v` divided by `n`, rounded toward zero.
pub open spec fn quot(v: int, n: int) -> int {
    if v >= 0 { v / n } else { -((-v) / n) }
}

/// `v` divided by a positive `n`, rounded toward zero.
pub fn div_toward_zero(v: i32, n: i32) -> (r: i32)
    requires
        n > 0,
    ensures
        r == quot(v as int, n as int),
{
    v / n
}

/// An `i64` clamped into the range of `i32`.
pub fn narrow(v: i64) -> (r: i32)
    ensures
        r == clamp32(v as int),
{
    if v < i32::MIN as i64 {
        i32::MIN
    } else if v > i32::MAX as i64 {
        i32::MAX
    } else {
        v as i32
    }
}

} // verus!
