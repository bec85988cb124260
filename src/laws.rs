//! Properties that relate the effects to their inputs as a whole.
use crate::blocks::{
    block_count, block_len, block_start, lemma_block_count_positive, lemma_block_start,
    lemma_uniform_block, block_sum, row_count, row_sum};
use crate::brush::{
    brush_filled, brush_pixelated, brush_radius, canvas_rgb, covered, in_disc, lemma_cell_of_byte,
    lemma_disc_within, pair_count, stamp_covers,
};
use crate::geometry::{
    component, lemma_byte_coords, lemma_byte_decompose, pixel_base, pixel_x, pixel_y, rgb_fits,
    span_end,
};
use crate::mask::brush_mask;
use crate::region::{block_side, pixelated, region_hits, solid_filled};
use vstd::arithmetic::div_mod::{
    lemma_div_basics, lemma_div_multiples_vanish, lemma_div_pos_is_pos, lemma_fundamental_div_mod,
};
use vstd::prelude::*;

verus! {

/// On a buffer of exactly `width * height` pixels, filling a rectangle that lies inside the
/// canvas sets the colour bytes of exactly the rectangle's pixels to `(r, g, b)` and leaves
/// every other byte, alpha included, as it was.
pub proof fn lemma_solid_fill_inside(
    d: Seq<u8>,
    width: u32,
    height: u32,
    x: u32,
    y: u32,
    w: u32,
    h: u32,
    r: u8,
    g: u8,
    b: u8,
)
    requires
        x + w <= width,
        y + h <= height,
        d.len() == width * height * 4,
    ensures
        forall|i: int|
            0 <= i < d.len() ==> #[trigger] solid_filled(
                d,
                width as int,
                height as int,
                x as int,
                y as int,
                w as int,
                h as int,
                r,
                g,
                b,
                i,
            ) == if i % 4 < 3 && x <= pixel_x(width as int, i) < x + w && y <= pixel_y(
                width as int,
                i,
            ) < y + h {
                component(r, g, b, i % 4)
            } else {
                d[i]
            },
{
    assert forall|i: int| 0 <= i < d.len() implies #[trigger] solid_filled(
        d,
        width as int,
        height as int,
        x as int,
        y as int,
        w as int,
        h as int,
        r,
        g,
        b,
        i,
    ) == if i % 4 < 3 && x <= pixel_x(width as int, i) < x + w && y <= pixel_y(width as int, i) < y
        + h {
        component(r, g, b, i % 4)
    } else {
        d[i]
    } by {
        let wi = width as int;
        let hi = height as int;
        if wi == 0 {
            assert(d.len() == 0) by (nonlinear_arith)
                requires
                    d.len() == wi * hi * 4,
                    wi == 0,
            ;
        }
        lemma_byte_decompose(wi, i);
        let px = pixel_x(wi, i);
        let py = pixel_y(wi, i);
        if py < hi {
            assert((py * wi + px) * 4 + 3 < wi * hi * 4) by (nonlinear_arith)
                requires
                    0 <= px < wi,
                    0 <= py < hi,
            ;
        }
    }
}

/// Filling a rectangle that reaches past the canvas edge changes no byte outside the part of
/// the rectangle that lies on the canvas.
pub proof fn lemma_solid_fill_clamped(
    d: Seq<u8>,
    width: u32,
    height: u32,
    x: u32,
    y: u32,
    w: u32,
    h: u32,
    r: u8,
    g: u8,
    b: u8,
)
    requires
        width > 0,
    ensures
        forall|i: int|
            0 <= i < d.len() && !(x <= pixel_x(width as int, i) < span_end(
                x as int,
                w as int,
                width as int,
            ) && y <= pixel_y(width as int, i) < span_end(y as int, h as int, height as int))
                ==> #[trigger] solid_filled(
                d,
                width as int,
                height as int,
                x as int,
                y as int,
                w as int,
                h as int,
                r,
                g,
                b,
                i,
            ) == d[i],
{
}

/// Pixelating with blocks of side 1 (or 0, which counts as 1) changes nothing.
pub proof fn lemma_pixelate_unit_blocks(
    d: Seq<u8>,
    width: u32,
    height: u32,
    x: u32,
    y: u32,
    w: u32,
    h: u32,
    block_size: u32,
)
    requires
        block_size <= 1,
    ensures
        forall|i: int|
            0 <= i < d.len() ==> #[trigger] pixelated(
                d,
                width as int,
                height as int,
                x as int,
                y as int,
                w as int,
                h as int,
                block_size as int,
                i,
            ) == d[i],
{
    assert forall|i: int| 0 <= i < d.len() implies #[trigger] pixelated(
        d,
        width as int,
        height as int,
        x as int,
        y as int,
        w as int,
        h as int,
        block_size as int,
        i,
    ) == d[i] by {
        let wi = width as int;
        if region_hits(wi, height as int, x as int, y as int, w as int, h as int, d.len() as int, i) {
            lemma_byte_decompose(wi, i);
            let px = pixel_x(wi, i);
            let py = pixel_y(wi, i);
            let c = i % 4;
            assert((px - x) * 1 == px - x);
            assert((py - y) * 1 == py - y);
            lemma_block_start(x as int, 1, px - x, px);
            lemma_block_start(y as int, 1, py - y, py);
            assert(block_start(x as int, 1, px) == px);
            assert(block_start(y as int, 1, py) == py);
            assert(row_sum(d, wi, px, py, 0, c) == 0);
            assert(row_count(d, wi, px, py, 0) == 0);
            assert(block_sum(d, wi, px, py, 1, 0, c) == 0);
            assert(block_count(d, wi, px, py, 1, 0) == 0);
            assert(rgb_fits(d.len() as int, pixel_base(wi, px, py)));
            assert(row_sum(d, wi, px, py, 1, c) == d[i] as int);
            assert(row_count(d, wi, px, py, 1) == 1);
            assert(block_sum(d, wi, px, py, 1, 1, c) == d[i] as int);
            assert(block_count(d, wi, px, py, 1, 1) == 1);
            lemma_div_basics(d[i] as int);
        }
    }
}


/// Every colour byte of the clamped rectangle's pixels in `d` is that channel of `(r, g, b)`.
pub open spec fn region_has_colour(
    d: Seq<u8>,
    width: int,
    height: int,
    x: int,
    y: int,
    w: int,
    h: int,
    r: u8,
    g: u8,
    b: u8,
) -> bool {
    forall|i: int|
        0 <= i < d.len() && region_hits(width, height, x, y, w, h, d.len() as int, i)
            ==> #[trigger] d[i] == component(r, g, b, i % 4)
}

/// Pixelating a rectangle of one colour changes nothing, whatever the block size: the mean
/// of a constant is that constant.
pub proof fn lemma_pixelate_uniform(
    d: Seq<u8>,
    width: u32,
    height: u32,
    x: u32,
    y: u32,
    w: u32,
    h: u32,
    block_size: u32,
    r: u8,
    g: u8,
    b: u8,
)
    requires
        region_has_colour(d, width as int, height as int, x as int, y as int, w as int, h as int, r, g, b),
    ensures
        forall|i: int|
            0 <= i < d.len() ==> #[trigger] pixelated(
                d,
                width as int,
                height as int,
                x as int,
                y as int,
                w as int,
                h as int,
                block_size as int,
                i,
            ) == d[i],
{
    let wi = width as int;
    let hi = height as int;
    let len = d.len() as int;
    let bs = block_side(block_size as int);
    let xe = span_end(x as int, w as int, wi);
    let ye = span_end(y as int, h as int, hi);
    assert forall|i: int| 0 <= i < d.len() implies #[trigger] pixelated(
        d,
        width as int,
        height as int,
        x as int,
        y as int,
        w as int,
        h as int,
        block_size as int,
        i,
    ) == d[i] by {
        if region_hits(wi, hi, x as int, y as int, w as int, h as int, len, i) {
            lemma_byte_decompose(wi, i);
            let px = pixel_x(wi, i);
            let py = pixel_y(wi, i);
            let c = i % 4;
            let v = component(r, g, b, c) as int;
            lemma_fundamental_div_mod(px - x, bs);
            lemma_fundamental_div_mod(py - y, bs);
            let kx = (px - x) / bs;
            let ky = (py - y) / bs;
            assert(kx >= 0) by {
                lemma_div_pos_is_pos(px - x, bs);
            }
            assert(ky >= 0) by {
                lemma_div_pos_is_pos(py - y, bs);
            }
            assert(bs * kx == kx * bs) by (nonlinear_arith);
            assert(bs * ky == ky * bs) by (nonlinear_arith);
            let bx = block_start(x as int, bs, px);
            let by = block_start(y as int, bs, py);
            let bw = block_len(bx, bs, xe);
            let bh = block_len(by, bs, ye);
            assert forall|qx: int, qy: int|
                bx <= qx < bx + bw && by <= qy < by + bh && rgb_fits(len, pixel_base(wi, qx, qy))
                    implies d[#[trigger] pixel_base(wi, qx, qy) + c] == v by {
                lemma_byte_coords(wi, qx, qy, c);
                lemma_byte_coords(wi, qx, qy, 0);
                assert(region_hits(
                    wi,
                    hi,
                    x as int,
                    y as int,
                    w as int,
                    h as int,
                    len,
                    pixel_base(wi, qx, qy) + c,
                ));
            }
            lemma_uniform_block(d, wi, bx, by, bw, bh, c, v);
            lemma_block_count_positive(d, wi, bx, by, bw, bh, px, py);
            let n = block_count(d, wi, bx, by, bw, bh);
            lemma_div_multiples_vanish(v, n);
            assert(v * n == n * v) by (nonlinear_arith);
        }
    }
}


/// A stroke of one point colours the pixel under that point, and no pixel outside the disc
/// about it.
pub proof fn lemma_brush_single_point(
    d: Seq<u8>,
    width: u32,
    height: u32,
    pts: Seq<i32>,
    brush_size: u32,
    red: u8,
    green: u8,
    blue: u8,
)
    requires
        pair_count(pts) == 1,
    ensures
        forall|i: int|
            0 <= i < d.len() && canvas_rgb(width as int, height as int, d.len() as int, i)
                && pixel_x(width as int, i) == pts[0] && pixel_y(width as int, i) == pts[1]
                ==> #[trigger] brush_filled(
                d,
                width as int,
                height as int,
                pts,
                brush_size as int,
                red,
                green,
                blue,
                i,
            ) == component(red, green, blue, i % 4),
        forall|i: int|
            0 <= i < d.len() && !in_disc(
                pts[0] as int,
                pts[1] as int,
                brush_radius(brush_size as int),
                pixel_x(width as int, i),
                pixel_y(width as int, i),
            ) ==> #[trigger] brush_filled(
                d,
                width as int,
                height as int,
                pts,
                brush_size as int,
                red,
                green,
                blue,
                i,
            ) == d[i],
{
    let r = brush_radius(brush_size as int);
    let wi = width as int;
    assert(0 <= r * r) by (nonlinear_arith);
    assert forall|px: int, py: int| #[trigger] covered(pts, 1, r, px, py) <==> in_disc(
        pts[0] as int,
        pts[1] as int,
        r,
        px,
        py,
    ) by {
        if in_disc(pts[0] as int, pts[1] as int, r, px, py) {
            assert(stamp_covers(pts, 0, r, px, py));
        }
    }
    assert forall|i: int|
        0 <= i < d.len() && canvas_rgb(width as int, height as int, d.len() as int, i) && pixel_x(
            wi,
            i,
        ) == pts[0] && pixel_y(wi, i) == pts[1] implies #[trigger] brush_filled(
        d,
        width as int,
        height as int,
        pts,
        brush_size as int,
        red,
        green,
        blue,
        i,
    ) == component(red, green, blue, i % 4) by {
        assert(in_disc(pts[0] as int, pts[1] as int, r, pixel_x(wi, i), pixel_y(wi, i)));
    }
}

/// The disc of radius `r` about `(cx, cy)` lies wholly off the `width` x `height` canvas.
pub open spec fn disc_off_canvas(cx: int, cy: int, r: int, width: int, height: int) -> bool {
    cx + r < 0 || cx - r >= width || cy + r < 0 || cy - r >= height
}

/// The disc stamped at the `k`-th point of `pts` lies wholly off the canvas.
pub open spec fn stamp_off_canvas(pts: Seq<i32>, k: int, r: int, width: int, height: int) -> bool {
    disc_off_canvas(pts[2 * k] as int, pts[2 * k + 1] as int, r, width, height)
}

/// Every disc of the stroke lies wholly off the canvas; so does that of an empty stroke.
pub open spec fn stroke_off_canvas(pts: Seq<i32>, r: int, width: int, height: int) -> bool {
    forall|k: int| 0 <= k < pair_count(pts) ==> #[trigger] stamp_off_canvas(pts, k, r, width, height)
}

proof fn lemma_off_canvas_uncovered(pts: Seq<i32>, r: int, width: int, height: int, px: int, py: int)
    requires
        r >= 0,
        stroke_off_canvas(pts, r, width, height),
        0 <= px < width,
        0 <= py < height,
    ensures
        !covered(pts, pair_count(pts), r, px, py),
{
    if covered(pts, pair_count(pts), r, px, py) {
        let k = choose|k: int| 0 <= k < pair_count(pts) && #[trigger] stamp_covers(pts, k, r, px, py);
        assert(stamp_off_canvas(pts, k, r, width, height));
        lemma_disc_within(pts[2 * k] as int, pts[2 * k + 1] as int, r, px, py);
    }
}

/// A brush fill whose stroke is empty, or whose discs all lie off the canvas, changes nothing.
pub proof fn lemma_brush_fill_off_canvas(
    d: Seq<u8>,
    width: u32,
    height: u32,
    pts: Seq<i32>,
    brush_size: u32,
    red: u8,
    green: u8,
    blue: u8,
)
    requires
        stroke_off_canvas(pts, brush_radius(brush_size as int), width as int, height as int),
    ensures
        forall|i: int|
            0 <= i < d.len() ==> #[trigger] brush_filled(
                d,
                width as int,
                height as int,
                pts,
                brush_size as int,
                red,
                green,
                blue,
                i,
            ) == d[i],
{
    assert forall|i: int| 0 <= i < d.len() implies #[trigger] brush_filled(
        d,
        width as int,
        height as int,
        pts,
        brush_size as int,
        red,
        green,
        blue,
        i,
    ) == d[i] by {
        if canvas_rgb(width as int, height as int, d.len() as int, i) {
            lemma_byte_decompose(width as int, i);
            lemma_off_canvas_uncovered(
                pts,
                brush_radius(brush_size as int),
                width as int,
                height as int,
                pixel_x(width as int, i),
                pixel_y(width as int, i),
            );
        }
    }
}

/// A brush pixelation whose stroke is empty, or whose discs all lie off the canvas, changes
/// nothing.
pub proof fn lemma_brush_pixelate_off_canvas(
    d: Seq<u8>,
    width: u32,
    height: u32,
    pts: Seq<i32>,
    brush_size: u32,
    block_size: u32,
)
    requires
        stroke_off_canvas(pts, brush_radius(brush_size as int), width as int, height as int),
    ensures
        forall|i: int|
            0 <= i < d.len() ==> #[trigger] brush_pixelated(
                d,
                width as int,
                height as int,
                pts,
                brush_size as int,
                block_size as int,
                i,
            ) == d[i],
{
    assert forall|i: int| 0 <= i < d.len() implies #[trigger] brush_pixelated(
        d,
        width as int,
        height as int,
        pts,
        brush_size as int,
        block_size as int,
        i,
    ) == d[i] by {
        let wi = width as int;
        let hi = height as int;
        if canvas_rgb(wi, hi, d.len() as int, i) {
            lemma_cell_of_byte(wi, hi, d.len() as int, i);
            lemma_off_canvas_uncovered(
                pts,
                brush_radius(brush_size as int),
                wi,
                hi,
                pixel_x(wi, i),
                pixel_y(wi, i),
            );
            let m = brush_mask(pts, brush_radius(brush_size as int), wi, hi);
            assert(!m[i / 4]);
        }
    }
}

} // verus!
