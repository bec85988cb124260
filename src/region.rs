//! Rectangular effects: solid fill and block pixelation.
use crate::geometry::{
    base_index, clamp_end, component, pixel_base, lemma_byte_coords, lemma_byte_decompose, pixel_fits, pixel_x,
    pixel_y, span_end,
};
use crate::blocks::{
    agree_on_block, block_len, block_mean, block_start, block_totals, fill_block, in_block,
    lemma_block_bounds, lemma_block_count_positive, lemma_block_frame, lemma_block_start,
};
use crate::geometry::rgb_fits;
use vstd::prelude::*;

verus! {

/// Overwrite the colour bytes of the pixel that starts at `k`, keeping its alpha.
pub fn put_rgb(data: &mut [u8], k: usize, r: u8, g: u8, b: u8)
    requires
        k + 2 < old(data)@.len(),
    ensures
        final(data)@ == old(data)@.update(k as int, r).update(k + 1, g).update(k + 2, b),
{
    data[k] = r;
    data[k + 1] = g;
    data[k + 2] = b;
}

/// Byte `i` is a colour byte of a whole pixel inside the clamped rectangle.
pub open spec fn fill_hits(
    width: int,
    height: int,
    x: int,
    y: int,
    w: int,
    h: int,
    len: int,
    i: int,
) -> bool {
    &&& width > 0
    &&& i % 4 < 3
    &&& x <= pixel_x(width, i) < span_end(x, w, width)
    &&& y <= pixel_y(width, i) < span_end(y, h, height)
    &&& pixel_fits(len, i / 4 * 4)
}

/// Byte `i` of `d` after filling `[x, x + w) x [y, y + h)` with `(r, g, b)`.
pub open spec fn solid_filled(
    d: Seq<u8>,
    width: int,
    height: int,
    x: int,
    y: int,
    w: int,
    h: int,
    r: u8,
    g: u8,
    b: u8,
    i: int,
) -> u8 {
    if fill_hits(width, height, x, y, w, h, d.len() as int, i) {
        component(r, g, b, i % 4)
    } else {
        d[i]
    }
}

/// Fill the colour channels of every pixel of `[x, x + w) x [y, y + h)`, clamped to the
/// canvas, with `(r, g, b)`. Alpha and every pixel outside are left as they were.
pub fn solid_fill(
    data: &mut [u8],
    width: u32,
    height: u32,
    x: u32,
    y: u32,
    w: u32,
    h: u32,
    r: u8,
    g: u8,
    b: u8,
)
    ensures
        final(data)@.len() == old(data)@.len(),
        forall|i: int|
            0 <= i < old(data)@.len() ==> #[trigger] final(data)@[i] == solid_filled(
                old(data)@,
                width as int,
                height as int,
                x as int,
                y as int,
                w as int,
                h as int,
                r,
                g,
                b,
                i,
            ),
{
    let ghost orig = data@;
    let ghost len = data@.len() as int;
    let ghost wi = width as int;
    let ghost hi = height as int;
    let ghost xi = x as int;
    let ghost yi = y as int;
    let x_end = clamp_end(x, w, width);
    let y_end = clamp_end(y, h, height);
    let mut py = y;
    while py < y_end
        invariant
            y <= py <= y_end || y_end <= y == py,
            x_end as int == span_end(xi, w as int, wi),
            y_end as int == span_end(yi, h as int, hi),
            data@.len() == len,
            len == orig.len(),
            wi == width,
            hi == height,
            xi == x,
            yi == y,
            forall|i: int|
                0 <= i < len ==> #[trigger] data@[i] == if fill_hits(
                    wi,
                    hi,
                    xi,
                    yi,
                    w as int,
                    h as int,
                    len,
                    i,
                ) && pixel_y(wi, i) < py {
                    component(r, g, b, i % 4)
                } else {
                    orig[i]
                },
        decreases y_end - py,
    {
        let mut px = x;
        while px < x_end
            invariant
                y <= py < y_end,
                x <= px <= x_end || x_end <= x == px,
                x_end as int == span_end(xi, w as int, wi),
                y_end as int == span_end(yi, h as int, hi),
                data@.len() == len,
                len == orig.len(),
                wi == width,
                hi == height,
                xi == x,
                yi == y,
                forall|i: int|
                    0 <= i < len ==> #[trigger] data@[i] == if fill_hits(
                        wi,
                        hi,
                        xi,
                        yi,
                        w as int,
                        h as int,
                        len,
                        i,
                    ) && (pixel_y(wi, i) < py || (pixel_y(wi, i) == py && pixel_x(wi, i) < px)) {
                        component(r, g, b, i % 4)
                    } else {
                        orig[i]
                    },
            decreases x_end - px,
        {
            let idx = base_index(width, px, py);
            let ghost pre = data@;
            if idx + 3 < data.len() as u128 {
                put_rgb(data, idx as usize, r, g, b);
            }
            assert forall|i: int| 0 <= i < len implies #[trigger] data@[i] == if fill_hits(
                wi,
                hi,
                xi,
                yi,
                w as int,
                h as int,
                len,
                i,
            ) && (pixel_y(wi, i) < py || (pixel_y(wi, i) == py && pixel_x(wi, i) < px + 1)) {
                component(r, g, b, i % 4)
            } else {
                orig[i]
            } by {
                lemma_byte_decompose(wi, i);
                lemma_byte_coords(wi, px as int, py as int, 0);
                lemma_byte_coords(wi, px as int, py as int, 1);
                lemma_byte_coords(wi, px as int, py as int, 2);
                lemma_byte_coords(wi, px as int, py as int, 3);
                if pixel_x(wi, i) == px && pixel_y(wi, i) == py {
                    assert(i / 4 * 4 == idx);
                } else {
                    assert(i / 4 * 4 != idx);
                    assert(i < idx || i > idx + 3);
                    assert(data@[i] == pre[i]);
                }
            }
            px = px + 1;
        }
        py = py + 1;
    }
}


/// Side of the pixelation blocks: `block_size`, and at least 1.
pub open spec fn block_side(block_size: int) -> int {
    if block_size < 1 {
        1
    } else {
        block_size
    }
}

/// Byte `i` is a colour byte of a pixel inside the clamped rectangle whose colour bytes lie
/// in the buffer.
pub open spec fn region_hits(
    width: int,
    height: int,
    x: int,
    y: int,
    w: int,
    h: int,
    len: int,
    i: int,
) -> bool {
    &&& width > 0
    &&& i % 4 < 3
    &&& x <= pixel_x(width, i) < span_end(x, w, width)
    &&& y <= pixel_y(width, i) < span_end(y, h, height)
    &&& rgb_fits(len, i / 4 * 4)
}

/// Byte `i` of `d` after pixelating `[x, x + w) x [y, y + h)` with blocks of `block_size`.
pub open spec fn pixelated(
    d: Seq<u8>,
    width: int,
    height: int,
    x: int,
    y: int,
    w: int,
    h: int,
    block_size: int,
    i: int,
) -> u8 {
    let b = block_side(block_size);
    let x_end = span_end(x, w, width);
    let y_end = span_end(y, h, height);
    if region_hits(width, height, x, y, w, h, d.len() as int, i) {
        let bx = block_start(x, b, pixel_x(width, i));
        let by = block_start(y, b, pixel_y(width, i));
        block_mean(d, width, bx, by, block_len(bx, b, x_end), block_len(by, b, y_end), i % 4) as u8
    } else {
        d[i]
    }
}

/// Replace the colour of every pixel of `[x, x + w) x [y, y + h)`, clamped to the canvas, by
/// the truncated mean colour of its block. Blocks have side `max(block_size, 1)`, are laid
/// from the rectangle's top-left corner, and are cut at its far edges.
pub fn pixelate(
    data: &mut [u8],
    width: u32,
    height: u32,
    x: u32,
    y: u32,
    w: u32,
    h: u32,
    block_size: u32,
)
    ensures
        final(data)@.len() == old(data)@.len(),
        forall|i: int|
            0 <= i < old(data)@.len() ==> #[trigger] final(data)@[i] == pixelated(
                old(data)@,
                width as int,
                height as int,
                x as int,
                y as int,
                w as int,
                h as int,
                block_size as int,
                i,
            ),
{
    let ghost orig = data@;
    let ghost len = data@.len() as int;
    let ghost wi = width as int;
    let ghost hi = height as int;
    let ghost bi = block_side(block_size as int);
    let bsz: u32 = if block_size == 0 {
        1
    } else {
        block_size
    };
    let x_end = clamp_end(x, w, width);
    let y_end = clamp_end(y, h, height);
    let ghost xe = x_end as int;
    let ghost ye = y_end as int;
    let mut by: u64 = y as u64;
    let ghost mut ky: int = 0;
    while by < y_end as u64
        invariant
            bsz == bi,
            bi >= 1,
            ky >= 0,
            by == y + ky * bi,
            by < u32::MAX + bi,
            xe == x_end,
            ye == y_end,
            wi == width,
            hi == height,
            x_end as int == span_end(x as int, w as int, wi),
            y_end as int == span_end(y as int, h as int, hi),
            bi == block_side(block_size as int),
            data@.len() == len,
            len == orig.len(),
            forall|i: int|
                0 <= i < len ==> #[trigger] data@[i] == if region_hits(
                    wi,
                    hi,
                    x as int,
                    y as int,
                    w as int,
                    h as int,
                    len,
                    i,
                ) && pixel_y(wi, i) < by {
                    pixelated(orig, wi, hi, x as int, y as int, w as int, h as int, block_size as int, i)
                } else {
                    orig[i]
                },
        decreases y_end + bsz - by,
    {
        let bh: u32 = if (bsz as u64) < y_end as u64 - by {
            bsz
        } else {
            (y_end as u64 - by) as u32
        };
        let mut bx: u64 = x as u64;
        let ghost mut kx: int = 0;
        while bx < x_end as u64
            invariant
                bsz == bi,
                bi >= 1,
                ky >= 0,
                kx >= 0,
                by == y + ky * bi,
                bx == x + kx * bi,
                by < y_end,
                bx < u32::MAX + bi,
                bh as int == block_len(by as int, bi, ye),
                xe == x_end,
                ye == y_end,
                wi == width,
                hi == height,
                x_end as int == span_end(x as int, w as int, wi),
                y_end as int == span_end(y as int, h as int, hi),
                bi == block_side(block_size as int),
                data@.len() == len,
                len == orig.len(),
                forall|i: int|
                    0 <= i < len ==> #[trigger] data@[i] == if region_hits(
                        wi,
                        hi,
                        x as int,
                        y as int,
                        w as int,
                        h as int,
                        len,
                        i,
                    ) && (pixel_y(wi, i) < by || (pixel_y(wi, i) < by + bh && pixel_x(wi, i)
                        < bx)) {
                        pixelated(
                            orig,
                            wi,
                            hi,
                            x as int,
                            y as int,
                            w as int,
                            h as int,
                            block_size as int,
                            i,
                        )
                    } else {
                        orig[i]
                    },
            decreases x_end + bsz - bx,
        {
            let bw: u32 = if (bsz as u64) < x_end as u64 - bx {
                bsz
            } else {
                (x_end as u64 - bx) as u32
            };
            let ghost pre = data@;
            let ghost (x0, y0) = (bx as int, by as int);
            assert(agree_on_block(pre, orig, wi, x0, y0, bw as int, bh as int)) by {
                assert forall|px: int, py: int, c: int|
                    x0 <= px < x0 + bw && y0 <= py < y0 + bh && 0 <= c < 3 && rgb_fits(
                        len,
                        pixel_base(wi, px, py),
                    ) implies #[trigger] pre[pixel_base(wi, px, py) + c] == orig[pixel_base(
                    wi,
                    px,
                    py,
                ) + c] by {
                    lemma_byte_coords(wi, px, py, c);
                    lemma_byte_coords(wi, px, py, 0);
                }
            }
            proof {
                lemma_block_frame(pre, orig, wi, x0, y0, bw as int, bh as int, 0);
                lemma_block_frame(pre, orig, wi, x0, y0, bw as int, bh as int, 1);
                lemma_block_frame(pre, orig, wi, x0, y0, bw as int, bh as int, 2);
                lemma_block_bounds(orig, wi, x0, y0, bw as int, bh as int, 0);
                lemma_block_bounds(orig, wi, x0, y0, bw as int, bh as int, 1);
                lemma_block_bounds(orig, wi, x0, y0, bw as int, bh as int, 2);
            }
            let (sr, sg, sb, n) = block_totals(data, width, bx as u32, by as u32, bw, bh);
            if n > 0 {
                proof {
                    assert(sr / n <= 255) by (nonlinear_arith)
                        requires
                            sr <= 255 * n,
                            n > 0,
                    ;
                    assert(sg / n <= 255) by (nonlinear_arith)
                        requires
                            sg <= 255 * n,
                            n > 0,
                    ;
                    assert(sb / n <= 255) by (nonlinear_arith)
                        requires
                            sb <= 255 * n,
                            n > 0,
                    ;
                }
                fill_block(
                    data,
                    width,
                    bx as u32,
                    by as u32,
                    bw,
                    bh,
                    (sr / n) as u8,
                    (sg / n) as u8,
                    (sb / n) as u8,
                );
            }
            assert forall|i: int| 0 <= i < len implies #[trigger] data@[i] == if region_hits(
                wi,
                hi,
                x as int,
                y as int,
                w as int,
                h as int,
                len,
                i,
            ) && (pixel_y(wi, i) < by || (pixel_y(wi, i) < by + bh && pixel_x(wi, i) < bx + bw)) {
                pixelated(orig, wi, hi, x as int, y as int, w as int, h as int, block_size as int, i)
            } else {
                orig[i]
            } by {
                lemma_byte_decompose(wi, i);
                if in_block(wi, i, x0, y0, bw as int, bh as int) {
                    let px = pixel_x(wi, i);
                    let py = pixel_y(wi, i);
                    lemma_block_start(x as int, bi, kx, px);
                    lemma_block_start(y as int, bi, ky, py);
                    if i % 4 < 3 && rgb_fits(len, i / 4 * 4) {
                        lemma_block_count_positive(orig, wi, x0, y0, bw as int, bh as int, px, py);
                    }
                }
            }
            bx = bx + bsz as u64;
            proof {
                kx = kx + 1;
                assert(x + kx * bi == x + (kx - 1) * bi + bi) by (nonlinear_arith);
            }
        }
        by = by + bsz as u64;
        proof {
            ky = ky + 1;
            assert(y + ky * bi == y + (ky - 1) * bi + bi) by (nonlinear_arith);
        }
    }
}

} // verus!
