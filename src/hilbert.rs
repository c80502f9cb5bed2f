use vstd::prelude::*;

verus! {

/// The Hilbert curve index of a point of the 32-bit-per-axis grid.
pub uninterp spec fn hilbert_index(x: u32, y: u32) -> u64;

/// Relies on `fast_hilbert::xy2h` for `u32` input: the 64-bit Hilbert index
/// of the grid point `(x, y)`, a function of `x` and `y` alone.
#[verifier::external_body]
fn xy2h(x: u32, y: u32) -> (r: u64)
    ensures
        r == hilbert_index(x, y),
{
    fast_hilbert::xy2h(x, y)
}

/// Shift of a signed coordinate onto the unsigned grid: add `i32::MAX` and
/// keep the low 32 bits.
pub open spec fn quantized(v: i64) -> u32 {
    ((v as int + 0x7fff_ffff) % 0x1_0000_0000) as u32
}

/// A representative point of an entity, in the archive's fixed-point units.
#[derive(Clone, Copy, Debug, PartialEq, Eq, Structural)]
pub struct Point {
    pub x: i64,
    pub y: i64,
}

/// The Hilbert key of a point, longitude on the first axis and latitude on the second.
pub open spec fn point_key(p: Point) -> u64 {
    hilbert_index(quantized(p.x), quantized(p.y))
}

/// Maps a signed coordinate onto the unsigned 32-bit grid of the curve.
pub fn quantize(v: i64) -> (r: u32)
    ensures
        r == quantized(v),
{
    let s: i64 = v.wrapping_add(0x7fff_ffff);
    let r: u32 = s as u32;
    assert(r == ((v as int + 0x7fff_ffff) % 0x1_0000_0000) as u32) by (bit_vector)
        requires s == v.wrapping_add(0x7fff_ffff), r == s as u32;
    r
}

/// The Hilbert key of a point.
pub fn location_key(p: Point) -> (r: u64)
    ensures
        r == point_key(p),
{
    xy2h(quantize(p.x), quantize(p.y))
}

} // verus!
