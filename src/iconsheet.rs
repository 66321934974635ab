use vstd::prelude::*;

verus! {

/// Builds an icon id from a column and a row of the icon sheet: the column
/// in the low byte, the row in the high byte.
#[allow(non_snake_case)]
pub fn ICONID(x: u8, y: u8) -> (r: u16)
    ensures
        r as int == x as int + 256 * (y as int),
{
    let r: u16 = x as u16 | ((y as u16) << 8u16);
    assert(r == x as u16 + 256 * (y as u16)) by (bit_vector)
        requires
            r == x as u16 | ((y as u16) << 8u16),
            x < 256,
            y < 256,
    ;
    r
}

/// The icon id of a sheet cell, widened to `i32`.
pub fn icon_id(x: u8, y: u8) -> (r: i32)
    ensures
        r as int == x as int + 256 * (y as int),
{
    ICONID(x, y) as i32
}

/// The id that stands for "no icon".
pub fn no_icon() -> (r: i32)
    ensures
        r == -1,
{
    -1
}

} // verus!
