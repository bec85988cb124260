//! Brush strokes: discs stamped at each point of a path.
use crate::geometry::{
    base_index, component, lemma_byte_coords, lemma_byte_decompose, pixel_base, pixel_x, pixel_y,
    rgb_fits,
};
use crate::blocks::{
    agree_on_block, block_has_masked, block_len, block_masked, block_mean, block_start,
    block_totals, fill_block_masked, in_block, lemma_block_bounds, lemma_block_count_positive,
    lemma_block_frame, lemma_block_start, mask_cell,
};
use crate::mask::{
    brush_mask, build_mask, is_mask_box, lemma_mask_box_unique, mask_bounds, mask_box,
};
use crate::region::{block_side, put_rgb};
use vstd::prelude::*;

verus! {

/// Radius of the disc that a brush of `brush_size` stamps.
pub open spec fn brush_radius(brush_size: int) -> int {
    brush_size / 2
}

/// `(px, py)` lies in the closed disc of radius `r` about `(cx, cy)`.
pub open spec fn in_disc(cx: int, cy: int, r: int, px: int, py: int) -> bool {
    (px - cx) * (px - cx) + (py - cy) * (py - cy) <= r * r
}

/// The disc of radius `r` stamped at the `k`-th point of the flat list `pts` holds `(px, py)`.
pub open spec fn stamp_covers(pts: Seq<i32>, k: int, r: int, px: int, py: int) -> bool {
    in_disc(pts[2 * k] as int, pts[2 * k + 1] as int, r, px, py)
}

/// Some disc among those of the first `n` points of `pts` holds `(px, py)`.
pub open spec fn covered(pts: Seq<i32>, n: int, r: int, px: int, py: int) -> bool {
    exists|k: int| 0 <= k < n && #[trigger] stamp_covers(pts, k, r, px, py)
}

/// Number of whole coordinate pairs in the flat list `pts`; a trailing value is not one.
pub open spec fn pair_count(pts: Seq<i32>) -> int {
    pts.len() as int / 2
}

/// `p` lies within `r` of `c`.
pub open spec fn near(c: int, r: int, p: int) -> bool {
    c - r <= p <= c + r
}

/// A point in the disc lies within `r` of its centre along each axis.
pub proof fn lemma_disc_within(cx: int, cy: int, r: int, px: int, py: int)
    requires
        r >= 0,
        in_disc(cx, cy, r, px, py),
    ensures
        near(cx, r, px),
        near(cy, r, py),
{
    let dx = px - cx;
    let dy = py - cy;
    assert(dy * dy >= 0) by (nonlinear_arith);
    assert(dx * dx >= 0) by (nonlinear_arith);
    if dx > r || dx < -r {
        assert(dx * dx > r * r) by (nonlinear_arith)
            requires
                dx > r || dx < -r,
                r >= 0,
        ;
    }
    if dy > r || dy < -r {
        assert(dy * dy > r * r) by (nonlinear_arith)
            requires
                dy > r || dy < -r,
                r >= 0,
        ;
    }
}

/// The indices in `[0, limit)` that lie within `r` of `c`, as `[lo, hi)`.
pub fn disc_span(c: i32, r: i64, limit: u32) -> (s: (u32, u32))
    requires
        0 <= r <= i32::MAX,
    ensures
        s.0 <= s.1 <= limit,
        forall|p: int| 0 <= p < limit ==> ((s.0 <= p < s.1) <==> #[trigger] near(c as int, r as int, p)),
{
    let lo: i64 = if (c as i64) - r < 0 {
        0
    } else {
        (c as i64) - r
    };
    let hi: i64 = if (c as i64) + r + 1 > limit as i64 {
        limit as i64
    } else {
        (c as i64) + r + 1
    };
    if lo >= hi {
        (0, 0)
    } else {
        (lo as u32, hi as u32)
    }
}

/// Whether `(px, py)` lies in the disc, computed without overflow.
pub fn disc_test(cx: i32, cy: i32, r: i64, px: u32, py: u32) -> (b: bool)
    requires
        0 <= r <= i32::MAX,
        cx - r <= px <= cx + r,
        cy - r <= py <= cy + r,
    ensures
        b == in_disc(cx as int, cy as int, r as int, px as int, py as int),
{
    let dx: i64 = px as i64 - cx as i64;
    let dy: i64 = py as i64 - cy as i64;
    assert(0 <= dx * dx <= r * r) by (nonlinear_arith)
        requires
            -r <= dx <= r,
    ;
    assert(0 <= dy * dy <= r * r) by (nonlinear_arith)
        requires
            -r <= dy <= r,
    ;
    assert(r * r <= 0x7fff_ffff * 0x7fff_ffff) by (nonlinear_arith)
        requires
            0 <= r <= 0x7fff_ffff,
    ;
    dx * dx + dy * dy <= r * r
}

/// Byte `i` is a colour byte of a canvas pixel whose colour bytes lie in a buffer of `len`.
pub open spec fn canvas_rgb(width: int, height: int, len: int, i: int) -> bool {
    &&& width > 0
    &&& i % 4 < 3
    &&& pixel_y(width, i) < height
    &&& rgb_fits(len, i / 4 * 4)
}

/// Colour the pixels of the canvas in the disc of radius `r` about `(cx, cy)`.
pub fn stamp_disc(
    data: &mut [u8],
    width: u32,
    height: u32,
    cx: i32,
    cy: i32,
    r: i64,
    red: u8,
    green: u8,
    blue: u8,
)
    requires
        0 <= r <= i32::MAX,
    ensures
        final(data)@.len() == old(data)@.len(),
        forall|i: int|
            0 <= i < old(data)@.len() ==> #[trigger] final(data)@[i] == if canvas_rgb(
                width as int,
                height as int,
                old(data)@.len() as int,
                i,
            ) && in_disc(
                cx as int,
                cy as int,
                r as int,
                pixel_x(width as int, i),
                pixel_y(width as int, i),
            ) {
                component(red, green, blue, i % 4)
            } else {
                old(data)@[i]
            },
{
    let ghost orig = data@;
    let ghost len = data@.len() as int;
    let ghost wi = width as int;
    let ghost hi = height as int;
    let (ylo, yhi) = disc_span(cy, r, height);
    let (xlo, xhi) = disc_span(cx, r, width);
    let mut py = ylo;
    assert forall|i: int| 0 <= i < len && canvas_rgb(wi, hi, len, i) && in_disc(
        cx as int,
        cy as int,
        r as int,
        pixel_x(wi, i),
        pixel_y(wi, i),
    ) implies pixel_y(wi, i) >= ylo by {
        lemma_byte_decompose(wi, i);
        lemma_disc_within(cx as int, cy as int, r as int, pixel_x(wi, i), pixel_y(wi, i));
    }
    while py < yhi
        invariant
            0 <= r <= i32::MAX,
            ylo <= py <= yhi <= height,
            xlo <= xhi <= width,
            forall|p: int| 0 <= p < height ==> ((ylo <= p < yhi) <==> #[trigger] near(cy as int, r as int, p)),
            forall|p: int| 0 <= p < width ==> ((xlo <= p < xhi) <==> #[trigger] near(cx as int, r as int, p)),
            wi == width,
            hi == height,
            data@.len() == len,
            len == orig.len(),
            forall|i: int|
                0 <= i < len ==> #[trigger] data@[i] == if canvas_rgb(wi, hi, len, i) && in_disc(
                    cx as int,
                    cy as int,
                    r as int,
                    pixel_x(wi, i),
                    pixel_y(wi, i),
                ) && pixel_y(wi, i) < py {
                    component(red, green, blue, i % 4)
                } else {
                    orig[i]
                },
        decreases yhi - py,
    {
        let mut px = xlo;
        assert forall|i: int| 0 <= i < len && canvas_rgb(wi, hi, len, i) && in_disc(
            cx as int,
            cy as int,
            r as int,
            pixel_x(wi, i),
            pixel_y(wi, i),
        ) implies pixel_x(wi, i) >= xlo by {
            lemma_byte_decompose(wi, i);
            lemma_disc_within(cx as int, cy as int, r as int, pixel_x(wi, i), pixel_y(wi, i));
        }
        while px < xhi
            invariant
                0 <= r <= i32::MAX,
                ylo <= py < yhi <= height,
                xlo <= px <= xhi <= width,
                forall|p: int| 0 <= p < height ==> ((ylo <= p < yhi) <==> #[trigger] near(cy as int, r as int, p)),
                forall|p: int| 0 <= p < width ==> ((xlo <= p < xhi) <==> #[trigger] near(cx as int, r as int, p)),
                wi == width,
                hi == height,
                data@.len() == len,
                len == orig.len(),
                forall|i: int|
                    0 <= i < len ==> #[trigger] data@[i] == if canvas_rgb(wi, hi, len, i) && in_disc(
                        cx as int,
                        cy as int,
                        r as int,
                        pixel_x(wi, i),
                        pixel_y(wi, i),
                    ) && (pixel_y(wi, i) < py || (pixel_y(wi, i) == py && pixel_x(wi, i) < px)) {
                        component(red, green, blue, i % 4)
                    } else {
                        orig[i]
                    },
            decreases xhi - px,
        {
            let ghost pre = data@;
            let idx = base_index(width, px, py);
            assert(near(cx as int, r as int, px as int));
            assert(near(cy as int, r as int, py as int));
            if disc_test(cx, cy, r, px, py) {
                if idx + 2 < data.len() as u128 {
                    put_rgb(data, idx as usize, red, green, blue);
                }
            }
            assert forall|i: int| 0 <= i < len implies #[trigger] data@[i] == if canvas_rgb(
                wi,
                hi,
                len,
                i,
            ) && in_disc(cx as int, cy as int, r as int, pixel_x(wi, i), pixel_y(wi, i)) && (
            pixel_y(wi, i) < py || (pixel_y(wi, i) == py && pixel_x(wi, i) < px + 1)) {
                component(red, green, blue, i % 4)
            } else {
                orig[i]
            } by {
                lemma_byte_decompose(wi, i);
                lemma_byte_coords(wi, px as int, py as int, 0);
                lemma_byte_coords(wi, px as int, py as int, 1);
                lemma_byte_coords(wi, px as int, py as int, 2);
                lemma_byte_coords(wi, px as int, py as int, 3);
                if pixel_x(wi, i) == px && pixel_y(wi, i) == py {
                    assert(i / 4 * 4 == idx);
                } else {
                    assert(i / 4 * 4 != idx);
                    assert(data@[i] == pre[i]);
                }
            }
            px = px + 1;
        }
        assert forall|i: int| 0 <= i < len implies #[trigger] data@[i] == if canvas_rgb(
            wi,
            hi,
            len,
            i,
        ) && in_disc(cx as int, cy as int, r as int, pixel_x(wi, i), pixel_y(wi, i)) && pixel_y(
            wi,
            i,
        ) < py + 1 {
            component(red, green, blue, i % 4)
        } else {
            orig[i]
        } by {
            if canvas_rgb(wi, hi, len, i) {
                lemma_byte_decompose(wi, i);
                if in_disc(cx as int, cy as int, r as int, pixel_x(wi, i), pixel_y(wi, i)) {
                    lemma_disc_within(cx as int, cy as int, r as int, pixel_x(wi, i), pixel_y(wi, i));
                }
            }
        }
        py = py + 1;
    }
    assert forall|i: int| 0 <= i < len implies #[trigger] data@[i] == if canvas_rgb(
        wi,
        hi,
        len,
        i,
    ) && in_disc(cx as int, cy as int, r as int, pixel_x(wi, i), pixel_y(wi, i)) {
        component(red, green, blue, i % 4)
    } else {
        orig[i]
    } by {
        if canvas_rgb(wi, hi, len, i) {
            lemma_byte_decompose(wi, i);
            if in_disc(cx as int, cy as int, r as int, pixel_x(wi, i), pixel_y(wi, i)) {
                lemma_disc_within(cx as int, cy as int, r as int, pixel_x(wi, i), pixel_y(wi, i));
            }
        }
    }
}


/// Byte `i` of `d` after the stroke of `pts` with a brush of `brush_size` is filled with
/// `(red, green, blue)`.
pub open spec fn brush_filled(
    d: Seq<u8>,
    width: int,
    height: int,
    pts: Seq<i32>,
    brush_size: int,
    red: u8,
    green: u8,
    blue: u8,
    i: int,
) -> u8 {
    if canvas_rgb(width, height, d.len() as int, i) && covered(
        pts,
        pair_count(pts),
        brush_radius(brush_size),
        pixel_x(width, i),
        pixel_y(width, i),
    ) {
        component(red, green, blue, i % 4)
    } else {
        d[i]
    }
}

/// Colour `(red, green, blue)` into every canvas pixel that lies in the disc of radius
/// `brush_size / 2` about some point `(points[2k], points[2k + 1])`. A trailing unpaired value
/// is ignored; alpha and all other pixels are left as they were.
pub fn brush_solid_fill(
    data: &mut [u8],
    width: u32,
    height: u32,
    points: &[i32],
    brush_size: u32,
    red: u8,
    green: u8,
    blue: u8,
)
    ensures
        final(data)@.len() == old(data)@.len(),
        forall|i: int|
            0 <= i < old(data)@.len() ==> #[trigger] final(data)@[i] == brush_filled(
                old(data)@,
                width as int,
                height as int,
                points@,
                brush_size as int,
                red,
                green,
                blue,
                i,
            ),
{
    let ghost orig = data@;
    let ghost len = data@.len() as int;
    let ghost wi = width as int;
    let ghost hi = height as int;
    let ghost pts = points@;
    let radius: i64 = (brush_size / 2) as i64;
    let ghost ri = brush_radius(brush_size as int);
    let n: usize = points.len() / 2;
    let mut k: usize = 0;
    while k < n
        invariant
            k <= n,
            n == pair_count(pts),
            n == points.len() / 2,
            pts == points@,
            radius == ri,
            0 <= ri <= i32::MAX,
            wi == width,
            hi == height,
            data@.len() == len,
            len == orig.len(),
            forall|i: int|
                0 <= i < len ==> #[trigger] data@[i] == if canvas_rgb(wi, hi, len, i) && covered(
                    pts,
                    k as int,
                    ri,
                    pixel_x(wi, i),
                    pixel_y(wi, i),
                ) {
                    component(red, green, blue, i % 4)
                } else {
                    orig[i]
                },
        decreases n - k,
    {
        let ghost pre = data@;
        stamp_disc(data, width, height, points[2 * k], points[2 * k + 1], radius, red, green, blue);
        assert forall|i: int| 0 <= i < len implies #[trigger] data@[i] == if canvas_rgb(
            wi,
            hi,
            len,
            i,
        ) && covered(pts, k + 1, ri, pixel_x(wi, i), pixel_y(wi, i)) {
            component(red, green, blue, i % 4)
        } else {
            orig[i]
        } by {
            let px = pixel_x(wi, i);
            let py = pixel_y(wi, i);
            if covered(pts, k + 1, ri, px, py) {
                let j = choose|j: int| 0 <= j < k + 1 && #[trigger] stamp_covers(pts, j, ri, px, py);
                if j < k {
                    assert(covered(pts, k as int, ri, px, py));
                }
            }
            if stamp_covers(pts, k as int, ri, px, py) {
                assert(covered(pts, k + 1, ri, px, py));
            }
            if covered(pts, k as int, ri, px, py) {
                let j = choose|j: int| 0 <= j < k && #[trigger] stamp_covers(pts, j, ri, px, py);
                assert(covered(pts, k + 1, ri, px, py));
            }
        }
        k = k + 1;
    }
}


/// Byte `i` of `d` after pixelating the stroke of `pts` with a brush of `brush_size` and
/// blocks of `block_size`: blocks are laid from the corner of the mask's bounding box and cut
/// at its far edges; each masked pixel takes the truncated mean colour of its whole block.
pub open spec fn brush_pixelated(
    d: Seq<u8>,
    width: int,
    height: int,
    pts: Seq<i32>,
    brush_size: int,
    block_size: int,
    i: int,
) -> u8 {
    let m = brush_mask(pts, brush_radius(brush_size), width, height);
    if canvas_rgb(width, height, d.len() as int, i) && m[i / 4] {
        let bb = mask_box(m, width);
        let b = block_side(block_size);
        let bx = block_start(bb.0, b, pixel_x(width, i));
        let by = block_start(bb.1, b, pixel_y(width, i));
        block_mean(
            d,
            width,
            bx,
            by,
            block_len(bx, b, bb.2 + 1),
            block_len(by, b, bb.3 + 1),
            i % 4,
        ) as u8
    } else {
        d[i]
    }
}

/// The cell of the mask that byte `i` of a canvas colour byte belongs to.
pub proof fn lemma_cell_of_byte(width: int, height: int, len: int, i: int)
    requires
        0 <= i,
        canvas_rgb(width, height, len, i),
    ensures
        0 <= i / 4 < width * height,
        (i / 4) % width == pixel_x(width, i),
        (i / 4) / width == pixel_y(width, i),
        i / 4 == pixel_y(width, i) * width + pixel_x(width, i),
{
    lemma_byte_decompose(width, i);
    let px = pixel_x(width, i);
    let py = pixel_y(width, i);
    assert(py * width + px < width * height) by (nonlinear_arith)
        requires
            py < height,
            0 <= px < width,
    ;
    assert(0 <= py * width) by (nonlinear_arith)
        requires
            0 <= py,
            0 <= width,
    ;
}

/// Pixelate the pixels that the stroke covers. The stroke's mask and its bounding box are
/// built first; nothing changes where no canvas pixel is covered. Blocks of side
/// `max(block_size, 1)` are laid over the box; in each block holding a masked pixel, the
/// masked pixels take the truncated mean colour of the whole block.
pub fn brush_pixelate(
    data: &mut [u8],
    width: u32,
    height: u32,
    points: &[i32],
    brush_size: u32,
    block_size: u32,
)
    requires
        width * height <= usize::MAX,
    ensures
        final(data)@.len() == old(data)@.len(),
        forall|i: int|
            0 <= i < old(data)@.len() ==> #[trigger] final(data)@[i] == brush_pixelated(
                old(data)@,
                width as int,
                height as int,
                points@,
                brush_size as int,
                block_size as int,
                i,
            ),
{
    let ghost orig = data@;
    let ghost len = data@.len() as int;
    let ghost wi = width as int;
    let ghost hi = height as int;
    let ghost pts = points@;
    let mask = build_mask(width, height, points, brush_size);
    let ghost m = mask@;
    let bounds = mask_bounds(&mask, width, height);
    let (min_x, min_y, max_x, max_y) = match bounds {
        None => {
            assert forall|i: int| 0 <= i < len implies #[trigger] data@[i] == brush_pixelated(
                orig,
                wi,
                hi,
                pts,
                brush_size as int,
                block_size as int,
                i,
            ) by {
                if canvas_rgb(wi, hi, len, i) {
                    lemma_cell_of_byte(wi, hi, len, i);
                    assert(!m[i / 4]);
                }
            }
            return ;
        },
        Some(bb) => bb,
    };
    let ghost bbox = (min_x as int, min_y as int, max_x as int, max_y as int);
    proof {
        lemma_mask_box_unique(m, wi, bbox);
    }
    let ghost bi = block_side(block_size as int);
    let bsz: u32 = if block_size == 0 {
        1
    } else {
        block_size
    };
    let x_end = max_x + 1;
    let y_end = max_y + 1;
    let mut by: u64 = min_y as u64;
    let ghost mut ky: int = 0;
    assert forall|i: int| 0 <= i < len && canvas_rgb(wi, hi, len, i) && m[i / 4] implies pixel_y(
        wi,
        i,
    ) >= min_y by {
        lemma_cell_of_byte(wi, hi, len, i);
    }
    while by < y_end as u64
        invariant
            bsz == bi,
            bi >= 1,
            ky >= 0,
            by == min_y + ky * bi,
            by < u32::MAX + bi,
            x_end == max_x + 1,
            y_end == max_y + 1,
            max_x < width,
            max_y < height,
            wi == width,
            hi == height,
            m == mask@,
            m == brush_mask(pts, brush_radius(brush_size as int), wi, hi),
            m.len() == wi * hi,
            is_mask_box(m, wi, bbox),
            mask_box(m, wi) == bbox,
            bbox == (min_x as int, min_y as int, max_x as int, max_y as int),
            bi == block_side(block_size as int),
            data@.len() == len,
            len == orig.len(),
            forall|i: int|
                0 <= i < len ==> #[trigger] data@[i] == if canvas_rgb(wi, hi, len, i) && m[i / 4]
                    && pixel_y(wi, i) < by {
                    brush_pixelated(orig, wi, hi, pts, brush_size as int, block_size as int, i)
                } else {
                    orig[i]
                },
        decreases y_end + bsz - by,
    {
        let bh: u32 = if (bsz as u64) < y_end as u64 - by {
            bsz
        } else {
            (y_end as u64 - by) as u32
        };
        let mut bx: u64 = min_x as u64;
        let ghost mut kx: int = 0;
        assert forall|i: int| 0 <= i < len && canvas_rgb(wi, hi, len, i) && m[i / 4] implies pixel_x(
            wi,
            i,
        ) >= min_x by {
            lemma_cell_of_byte(wi, hi, len, i);
        }
        while bx < x_end as u64
            invariant
                bsz == bi,
                bi >= 1,
                ky >= 0,
                kx >= 0,
                by == min_y + ky * bi,
                bx == min_x + kx * bi,
                by < y_end,
                bx < u32::MAX + bi,
                bh as int == block_len(by as int, bi, y_end as int),
                x_end == max_x + 1,
                y_end == max_y + 1,
                max_x < width,
                max_y < height,
                wi == width,
                hi == height,
                m == mask@,
                m == brush_mask(pts, brush_radius(brush_size as int), wi, hi),
                m.len() == wi * hi,
                is_mask_box(m, wi, bbox),
                mask_box(m, wi) == bbox,
                bbox == (min_x as int, min_y as int, max_x as int, max_y as int),
                bi == block_side(block_size as int),
                data@.len() == len,
                len == orig.len(),
                forall|i: int|
                    0 <= i < len ==> #[trigger] data@[i] == if canvas_rgb(wi, hi, len, i) && m[i
                        / 4] && (pixel_y(wi, i) < by || (pixel_y(wi, i) < by + bh && pixel_x(wi, i)
                        < bx)) {
                        brush_pixelated(orig, wi, hi, pts, brush_size as int, block_size as int, i)
                    } else {
                        orig[i]
                    },
            decreases x_end + bsz - bx,
        {
            let bw: u32 = if (bsz as u64) < x_end as u64 - bx {
                bsz
            } else {
                (x_end as u64 - bx) as u32
            };
            let ghost pre = data@;
            let ghost (x0, y0) = (bx as int, by as int);
            let has = block_has_masked(&mask, width, height, bx as u32, by as u32, bw, bh);
            if has {
                assert(agree_on_block(pre, orig, wi, x0, y0, bw as int, bh as int)) by {
                    assert forall|px: int, py: int, c: int|
                        x0 <= px < x0 + bw && y0 <= py < y0 + bh && 0 <= c < 3 && rgb_fits(
                            len,
                            pixel_base(wi, px, py),
                        ) implies #[trigger] pre[pixel_base(wi, px, py) + c] == orig[pixel_base(
                        wi,
                        px,
                        py,
                    ) + c] by {
                        lemma_byte_coords(wi, px, py, c);
                        lemma_byte_coords(wi, px, py, 0);
                    }
                }
                proof {
                    lemma_block_frame(pre, orig, wi, x0, y0, bw as int, bh as int, 0);
                    lemma_block_frame(pre, orig, wi, x0, y0, bw as int, bh as int, 1);
                    lemma_block_frame(pre, orig, wi, x0, y0, bw as int, bh as int, 2);
                }
                let (sr, sg, sb, n) = block_totals(data, width, bx as u32, by as u32, bw, bh);
                if n > 0 {
                    proof {
                        lemma_block_bounds(orig, wi, x0, y0, bw as int, bh as int, 0);
                        lemma_block_bounds(orig, wi, x0, y0, bw as int, bh as int, 1);
                        lemma_block_bounds(orig, wi, x0, y0, bw as int, bh as int, 2);
                        assert(sr / n <= 255) by (nonlinear_arith)
                            requires
                                sr <= 255 * n,
                                n > 0,
                        ;
                        assert(sg / n <= 255) by (nonlinear_arith)
                            requires
                                sg <= 255 * n,
                                n > 0,
                        ;
                        assert(sb / n <= 255) by (nonlinear_arith)
                            requires
                                sb <= 255 * n,
                                n > 0,
                        ;
                    }
                    fill_block_masked(
                        data,
                        &mask,
                        width,
                        height,
                        bx as u32,
                        by as u32,
                        bw,
                        bh,
                        (sr / n) as u8,
                        (sg / n) as u8,
                        (sb / n) as u8,
                    );
                }
            }
            assert forall|i: int| 0 <= i < len implies #[trigger] data@[i] == if canvas_rgb(
                wi,
                hi,
                len,
                i,
            ) && m[i / 4] && (pixel_y(wi, i) < by || (pixel_y(wi, i) < by + bh && pixel_x(wi, i)
                < bx + bsz)) {
                brush_pixelated(orig, wi, hi, pts, brush_size as int, block_size as int, i)
            } else {
                orig[i]
            } by {
                if canvas_rgb(wi, hi, len, i) {
                    lemma_cell_of_byte(wi, hi, len, i);
                    let px = pixel_x(wi, i);
                    let py = pixel_y(wi, i);
                    if m[i / 4] {
                        assert(min_x <= px <= max_x && min_y <= py <= max_y);
                    }
                    if in_block(wi, i, x0, y0, bw as int, bh as int) && m[i / 4] {
                        assert(mask_cell(m, wi, px, py));
                        assert(block_masked(m, wi, x0, y0, bw as int, bh as int));
                        lemma_block_start(min_x as int, bi, kx, px);
                        lemma_block_start(min_y as int, bi, ky, py);
                        lemma_block_count_positive(orig, wi, x0, y0, bw as int, bh as int, px, py);
                    }
                }
            }
            bx = bx + bsz as u64;
            proof {
                kx = kx + 1;
                assert(min_x + kx * bi == min_x + (kx - 1) * bi + bi) by (nonlinear_arith);
            }
        }
        assert forall|i: int| 0 <= i < len implies #[trigger] data@[i] == if canvas_rgb(
            wi,
            hi,
            len,
            i,
        ) && m[i / 4] && pixel_y(wi, i) < by + bsz {
            brush_pixelated(orig, wi, hi, pts, brush_size as int, block_size as int, i)
        } else {
            orig[i]
        } by {
            if canvas_rgb(wi, hi, len, i) {
                lemma_cell_of_byte(wi, hi, len, i);
                if m[i / 4] {
                    assert(min_x <= pixel_x(wi, i) <= max_x && min_y <= pixel_y(wi, i) <= max_y);
                }
            }
        }
        by = by + bsz as u64;
        proof {
            ky = ky + 1;
            assert(min_y + ky * bi == min_y + (ky - 1) * bi + bi) by (nonlinear_arith);
        }
    }
    assert forall|i: int| 0 <= i < len implies #[trigger] data@[i] == brush_pixelated(
        orig,
        wi,
        hi,
        pts,
        brush_size as int,
        block_size as int,
        i,
    ) by {
        if canvas_rgb(wi, hi, len, i) {
            lemma_cell_of_byte(wi, hi, len, i);
        }
    }
}

} // verus!
