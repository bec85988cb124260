//! Pixel addressing in a row-major RGBA8 buffer, and rectangle clamping.
use vstd::arithmetic::div_mod::lemma_fundamental_div_mod;
use vstd::arithmetic::div_mod::lemma_fundamental_div_mod_converse;
use vstd::prelude::*;

verus! {

/// End of a span that starts at `start`, is `len` long, and is cut at `limit`.
pub open spec fn span_end(start: int, len: int, limit: int) -> int {
    if start + len < limit {
        start + len
    } else {
        limit
    }
}

/// Column of the pixel that holds byte `i` of a buffer `width` pixels wide.
pub open spec fn pixel_x(width: int, i: int) -> int {
    (i / 4) % width
}

/// Row of the pixel that holds byte `i` of a buffer `width` pixels wide.
pub open spec fn pixel_y(width: int, i: int) -> int {
    (i / 4) / width
}

/// Offset of the first byte of pixel `(px, py)`.
pub open spec fn pixel_base(width: int, px: int, py: int) -> int {
    (py * width + px) * 4
}

/// The red, green and blue bytes of the pixel starting at `base` lie in the buffer.
pub open spec fn rgb_fits(len: int, base: int) -> bool {
    base + 2 < len
}

/// All four bytes of the pixel starting at `base` lie in the buffer.
pub open spec fn pixel_fits(len: int, base: int) -> bool {
    base + 3 < len
}

/// Colour component `c` (0 red, 1 green, 2 blue) of `(r, g, b)`.
pub open spec fn component(r: u8, g: u8, b: u8, c: int) -> u8 {
    if c == 0 {
        r
    } else if c == 1 {
        g
    } else {
        b
    }
}

/// The byte at `(py * width + px) * 4 + c` belongs to pixel `(px, py)`, channel `c`.
pub proof fn lemma_byte_coords(width: int, px: int, py: int, c: int)
    requires
        0 <= px < width,
        0 <= py,
        0 <= c < 4,
    ensures
        (pixel_base(width, px, py) + c) / 4 == py * width + px,
        (pixel_base(width, px, py) + c) % 4 == c,
        pixel_x(width, pixel_base(width, px, py) + c) == px,
        pixel_y(width, pixel_base(width, px, py) + c) == py,
{
    let p = py * width + px;
    let i = pixel_base(width, px, py) + c;
    lemma_fundamental_div_mod_converse(i, 4, p, c);
    lemma_fundamental_div_mod_converse(p, width, py, px);
}

/// Every byte of the buffer is channel `i % 4` of pixel `(pixel_x, pixel_y)`.
pub proof fn lemma_byte_decompose(width: int, i: int)
    requires
        width > 0,
        i >= 0,
    ensures
        0 <= pixel_x(width, i) < width,
        0 <= pixel_y(width, i),
        0 <= i % 4 < 4,
        i == pixel_base(width, pixel_x(width, i), pixel_y(width, i)) + i % 4,
        i / 4 * 4 == pixel_base(width, pixel_x(width, i), pixel_y(width, i)),
{
    lemma_fundamental_div_mod(i, 4);
    lemma_fundamental_div_mod(i / 4, width);
    assert(i / 4 == width * pixel_y(width, i) + pixel_x(width, i));
    assert(width * pixel_y(width, i) == pixel_y(width, i) * width) by (nonlinear_arith);
}

/// Cell `py * width + px` of a grid `width` cells wide is column `px` of row `py`.
pub proof fn lemma_cell_coords(width: int, px: int, py: int)
    requires
        0 <= px < width,
        0 <= py,
    ensures
        (py * width + px) % width == px,
        (py * width + px) / width == py,
{
    lemma_fundamental_div_mod_converse(py * width + px, width, py, px);
}

/// Every cell index is `row * width + column`.
pub proof fn lemma_cell_decompose(width: int, p: int)
    requires
        width > 0,
        p >= 0,
    ensures
        p == p / width * width + p % width,
        0 <= p % width < width,
        0 <= p / width,
{
    lemma_fundamental_div_mod(p, width);
    assert(width * (p / width) == p / width * width) by (nonlinear_arith);
}

/// The exclusive end of `[start, start + len)` clamped to `limit`.
pub fn clamp_end(start: u32, len: u32, limit: u32) -> (r: u32)
    ensures
        r as int == span_end(start as int, len as int, limit as int),
{
    let e: u64 = start as u64 + len as u64;
    if e < limit as u64 {
        e as u32
    } else {
        limit
    }
}

/// Offset of the first byte of pixel `(px, py)`, computed without overflow.
pub fn base_index(width: u32, px: u32, py: u32) -> (r: u128)
    ensures
        r as int == pixel_base(width as int, px as int, py as int),
{
    assert((py as int) * (width as int) <= 0xffff_ffff * 0xffff_ffff) by (nonlinear_arith)
        requires py <= 0xffff_ffffu32, width <= 0xffff_ffffu32;
    assert(0 <= (py as int) * (width as int)) by (nonlinear_arith);
    (py as u128 * width as u128 + px as u128) * 4
}

} // verus!
