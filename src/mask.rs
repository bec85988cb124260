//! The mask of pixels that a brush stroke covers, and its bounding box.
use crate::brush::{
    brush_radius, covered, disc_span, disc_test, in_disc, lemma_disc_within, near, pair_count,
    stamp_covers,
};
use crate::geometry::{lemma_cell_coords, lemma_cell_decompose};
use vstd::prelude::*;

verus! {

/// The mask of a stroke: cell `py * width + px` is set when some disc of radius `r` stamped at
/// a point of `pts` holds `(px, py)`.
pub open spec fn brush_mask(pts: Seq<i32>, r: int, width: int, height: int) -> Seq<bool> {
    Seq::new(
        (width * height) as nat,
        |p: int| covered(pts, pair_count(pts), r, p % width, p / width),
    )
}

/// Some cell of the mask is set.
pub open spec fn mask_any(m: Seq<bool>) -> bool {
    exists|p: int| 0 <= p < m.len() && #[trigger] m[p]
}

/// `(min_x, min_y, max_x, max_y)` bound the set cells of `m` and each bound is reached.
pub open spec fn is_mask_box(m: Seq<bool>, width: int, bx: (int, int, int, int)) -> bool {
    &&& forall|p: int|
        0 <= p < m.len() && #[trigger] m[p] ==> bx.0 <= p % width <= bx.2 && bx.1 <= p / width
            <= bx.3
    &&& exists|p: int| 0 <= p < m.len() && #[trigger] m[p] && p % width == bx.0
    &&& exists|p: int| 0 <= p < m.len() && #[trigger] m[p] && p / width == bx.1
    &&& exists|p: int| 0 <= p < m.len() && #[trigger] m[p] && p % width == bx.2
    &&& exists|p: int| 0 <= p < m.len() && #[trigger] m[p] && p / width == bx.3
}

/// The bounding box of the set cells of `m`.
pub open spec fn mask_box(m: Seq<bool>, width: int) -> (int, int, int, int) {
    choose|bx: (int, int, int, int)| is_mask_box(m, width, bx)
}

/// A mask has at most one bounding box, so `mask_box` names the one found.
pub proof fn lemma_mask_box_unique(m: Seq<bool>, width: int, bx: (int, int, int, int))
    requires
        is_mask_box(m, width, bx),
    ensures
        mask_box(m, width) == bx,
{
    let other = mask_box(m, width);
    assert(is_mask_box(m, width, other));
    let p0 = choose|p: int| 0 <= p < m.len() && #[trigger] m[p] && p % width == bx.0;
    let q0 = choose|p: int| 0 <= p < m.len() && #[trigger] m[p] && p % width == other.0;
    let p1 = choose|p: int| 0 <= p < m.len() && #[trigger] m[p] && p / width == bx.1;
    let q1 = choose|p: int| 0 <= p < m.len() && #[trigger] m[p] && p / width == other.1;
    let p2 = choose|p: int| 0 <= p < m.len() && #[trigger] m[p] && p % width == bx.2;
    let q2 = choose|p: int| 0 <= p < m.len() && #[trigger] m[p] && p % width == other.2;
    let p3 = choose|p: int| 0 <= p < m.len() && #[trigger] m[p] && p / width == bx.3;
    let q3 = choose|p: int| 0 <= p < m.len() && #[trigger] m[p] && p / width == other.3;
    assert(other.0 == bx.0 && other.1 == bx.1 && other.2 == bx.2 && other.3 == bx.3);
}

/// Set every cell of the mask whose pixel lies in the disc of radius `r` about `(cx, cy)`.
pub fn stamp_mask(mask: &mut Vec<bool>, width: u32, height: u32, cx: i32, cy: i32, r: i64)
    requires
        0 <= r <= i32::MAX,
        old(mask)@.len() == width * height,
    ensures
        final(mask)@.len() == old(mask)@.len(),
        forall|p: int|
            0 <= p < old(mask)@.len() ==> #[trigger] final(mask)@[p] == (old(mask)@[p] || in_disc(
                cx as int,
                cy as int,
                r as int,
                p % (width as int),
                p / (width as int),
            )),
{
    let ghost orig = mask@;
    let ghost len = mask@.len() as int;
    let ghost wi = width as int;
    assert(len <= usize::MAX) by {
        assert(mask.len() == len);
    }
    let (ylo, yhi) = disc_span(cy, r, height);
    let (xlo, xhi) = disc_span(cx, r, width);
    let mut py = ylo;
    proof {
        if len > 0 {
            assert(wi > 0) by (nonlinear_arith)
                requires
                    len == wi * height,
            len <= usize::MAX,
                    len > 0,
                    wi >= 0,
            ;
        }
    }
    assert forall|p: int| 0 <= p < len && #[trigger] in_disc(cx as int, cy as int, r as int, p % wi, p / wi) implies p
        / wi >= ylo && p / wi < yhi && xlo <= p % wi < xhi by {
        lemma_cell_decompose(wi, p);
        lemma_disc_within(cx as int, cy as int, r as int, p % wi, p / wi);
        assert(p / wi < height) by (nonlinear_arith)
            requires
                p == p / wi * wi + p % wi,
                0 <= p % wi,
                p < wi * height,
                wi > 0,
        ;
        assert(near(cy as int, r as int, p / wi));
        assert(near(cx as int, r as int, p % wi));
    }
    while py < yhi
        invariant
            0 <= r <= i32::MAX,
            ylo <= py <= yhi <= height,
            xlo <= xhi <= width,
            forall|p: int| 0 <= p < height ==> ((ylo <= p < yhi) <==> #[trigger] near(cy as int, r as int, p)),
            forall|p: int| 0 <= p < width ==> ((xlo <= p < xhi) <==> #[trigger] near(cx as int, r as int, p)),
            forall|p: int| 0 <= p < len && #[trigger] in_disc(cx as int, cy as int, r as int, p % wi, p / wi) ==> p
                / wi >= ylo && p / wi < yhi && xlo <= p % wi < xhi,
            wi == width,
            len > 0 ==> wi > 0,
            mask@.len() == len,
            len == orig.len(),
            len == wi * height,
            len <= usize::MAX,
            forall|p: int|
                0 <= p < len ==> #[trigger] mask@[p] == (orig[p] || (in_disc(
                    cx as int,
                    cy as int,
                    r as int,
                    p % wi,
                    p / wi,
                ) && p / wi < py)),
        decreases yhi - py,
    {
        let mut px = xlo;
        while px < xhi
            invariant
                0 <= r <= i32::MAX,
                ylo <= py < yhi <= height,
                xlo <= px <= xhi <= width,
                forall|p: int| 0 <= p < height ==> ((ylo <= p < yhi) <==> #[trigger] near(cy as int, r as int, p)),
                forall|p: int| 0 <= p < width ==> ((xlo <= p < xhi) <==> #[trigger] near(cx as int, r as int, p)),
                forall|p: int| 0 <= p < len && #[trigger] in_disc(cx as int, cy as int, r as int, p % wi, p / wi) ==> p
                    / wi >= ylo && p / wi < yhi && xlo <= p % wi < xhi,
                wi == width,
                mask@.len() == len,
                len == orig.len(),
                len == wi * height,
            len <= usize::MAX,
                forall|p: int|
                    0 <= p < len ==> #[trigger] mask@[p] == (orig[p] || (in_disc(
                        cx as int,
                        cy as int,
                        r as int,
                        p % wi,
                        p / wi,
                    ) && (p / wi < py || (p / wi == py && p % wi < px)))),
            decreases xhi - px,
        {
            assert(near(cx as int, r as int, px as int));
            assert(near(cy as int, r as int, py as int));
            proof {
                lemma_cell_coords(wi, px as int, py as int);
                assert(py * wi + px < wi * height) by (nonlinear_arith)
                    requires
                        py < height,
                        px < wi,
                ;
                assert(py * wi <= py * wi + px);
            }
            let idx: usize = py as usize * width as usize + px as usize;
            let ghost pre = mask@;
            if disc_test(cx, cy, r, px, py) {
                mask.set(idx, true);
            }
            assert forall|p: int| 0 <= p < len implies #[trigger] mask@[p] == (orig[p] || (in_disc(
                cx as int,
                cy as int,
                r as int,
                p % wi,
                p / wi,
            ) && (p / wi < py || (p / wi == py && p % wi < px + 1)))) by {
                lemma_cell_decompose(wi, p);
                if p != idx {
                    assert(mask@[p] == pre[p]);
                    if p / wi == py && p % wi == px {
                        assert(p == idx);
                    }
                }
            }
            px = px + 1;
        }
        py = py + 1;
    }
}

/// The mask of a stroke over a `width` x `height` canvas.
pub fn build_mask(width: u32, height: u32, points: &[i32], brush_size: u32) -> (m: Vec<bool>)
    requires
        width * height <= usize::MAX,
    ensures
        m@ == brush_mask(points@, brush_radius(brush_size as int), width as int, height as int),
{
    let ghost pts = points@;
    let ghost wi = width as int;
    let ghost ri = brush_radius(brush_size as int);
    let cells: usize = width as usize * height as usize;
    let mut mask: Vec<bool> = vec![false; cells];
    let radius: i64 = (brush_size / 2) as i64;
    let n: usize = points.len() / 2;
    let mut k: usize = 0;
    assert forall|p: int| 0 <= p < cells implies #[trigger] mask@[p] == false by {
        assert(cloned(false, mask@[p]));
    }
    while k < n
        invariant
            k <= n,
            n == pair_count(pts),
            n == points.len() / 2,
            pts == points@,
            radius == ri,
            0 <= ri <= i32::MAX,
            wi == width,
            mask@.len() == cells,
            cells == wi * height,
            forall|p: int|
                0 <= p < cells ==> #[trigger] mask@[p] == covered(pts, k as int, ri, p % wi, p / wi),
        decreases n - k,
    {
        let ghost pre = mask@;
        stamp_mask(&mut mask, width, height, points[2 * k], points[2 * k + 1], radius);
        assert forall|p: int| 0 <= p < cells implies #[trigger] mask@[p] == covered(
            pts,
            k + 1,
            ri,
            p % wi,
            p / wi,
        ) by {
            let px = p % wi;
            let py = p / wi;
            if covered(pts, k + 1, ri, px, py) {
                let j = choose|j: int| 0 <= j < k + 1 && #[trigger] stamp_covers(pts, j, ri, px, py);
                if j < k {
                    assert(covered(pts, k as int, ri, px, py));
                }
            }
            if stamp_covers(pts, k as int, ri, px, py) {
                assert(covered(pts, k + 1, ri, px, py));
            }
            if covered(pts, k as int, ri, px, py) {
                let j = choose|j: int| 0 <= j < k && #[trigger] stamp_covers(pts, j, ri, px, py);
                assert(covered(pts, k + 1, ri, px, py));
            }
        }
        k = k + 1;
    }
    assert(mask@ =~= brush_mask(pts, ri, wi, height as int));
    mask
}


/// The bounding box `(min_x, min_y, max_x, max_y)` of the set cells of a `width` x `height`
/// mask, or `None` when no cell is set.
pub fn mask_bounds(mask: &Vec<bool>, width: u32, height: u32) -> (r: Option<(u32, u32, u32, u32)>)
    requires
        mask@.len() == width * height,
    ensures
        r is None <==> !mask_any(mask@),
        r matches Some(b) ==> b.2 < width && b.3 < height && is_mask_box(
            mask@,
            width as int,
            (b.0 as int, b.1 as int, b.2 as int, b.3 as int),
        ),
{
    let ghost m = mask@;
    let ghost wi = width as int;
    let ghost len = m.len() as int;
    let mut found = false;
    let mut min_x: u32 = 0;
    let mut min_y: u32 = 0;
    let mut max_x: u32 = 0;
    let mut max_y: u32 = 0;
    let ghost mut w0: int = 0;
    let ghost mut w1: int = 0;
    let ghost mut w2: int = 0;
    let ghost mut w3: int = 0;
    let mut p: usize = 0;
    let mut y: u32 = 0;
    while y < height
        invariant
            m == mask@,
            wi == width,
            len == wi * height,
            y <= height,
            p == y * wi,
            p <= len,
            len == m.len(),
            !found ==> forall|q: int| 0 <= q < p ==> !#[trigger] m[q],
            found ==> {
                &&& forall|q: int|
                    0 <= q < p && #[trigger] m[q] ==> min_x <= q % wi <= max_x && min_y <= q / wi
                        <= max_y
                &&& 0 <= w0 < p && m[w0] && w0 % wi == min_x
                &&& 0 <= w1 < p && m[w1] && w1 / wi == min_y
                &&& 0 <= w2 < p && m[w2] && w2 % wi == max_x
                &&& 0 <= w3 < p && m[w3] && w3 / wi == max_y
                &&& max_x < width
                &&& max_y < height
            },
        decreases height - y,
    {
        let mut x: u32 = 0;
        assert(len <= usize::MAX) by {
            assert(mask.len() == len);
        }
        proof {
            assert(y * wi + wi <= wi * height) by (nonlinear_arith)
                requires
                    y < height,
                    wi >= 0,
            ;
        }
        while x < width
            invariant
                m == mask@,
                wi == width,
                len == wi * height,
                y < height,
                x <= width,
                p == y * wi + x,
                p <= len,
                len == m.len(),
                len <= usize::MAX,
                !found ==> forall|q: int| 0 <= q < p ==> !#[trigger] m[q],
                found ==> {
                    &&& forall|q: int|
                        0 <= q < p && #[trigger] m[q] ==> min_x <= q % wi <= max_x && min_y <= q
                            / wi <= max_y
                    &&& 0 <= w0 < p && m[w0] && w0 % wi == min_x
                    &&& 0 <= w1 < p && m[w1] && w1 / wi == min_y
                    &&& 0 <= w2 < p && m[w2] && w2 % wi == max_x
                    &&& 0 <= w3 < p && m[w3] && w3 / wi == max_y
                    &&& max_x < width
                    &&& max_y < height
                },
            decreases width - x,
        {
            proof {
                lemma_cell_coords(wi, x as int, y as int);
                assert(y * wi + x < wi * height) by (nonlinear_arith)
                    requires
                        y < height,
                        x < wi,
                ;
            }
            if mask[p] {
                if !found {
                    found = true;
                    min_x = x;
                    min_y = y;
                    max_x = x;
                    max_y = y;
                    proof {
                        w0 = p as int;
                        w1 = p as int;
                        w2 = p as int;
                        w3 = p as int;
                    }
                } else {
                    if x < min_x {
                        min_x = x;
                        proof {
                            w0 = p as int;
                        }
                    }
                    if y < min_y {
                        min_y = y;
                        proof {
                            w1 = p as int;
                        }
                    }
                    if x > max_x {
                        max_x = x;
                        proof {
                            w2 = p as int;
                        }
                    }
                    if y > max_y {
                        max_y = y;
                        proof {
                            w3 = p as int;
                        }
                    }
                }
            }
            p = p + 1;
            x = x + 1;
        }
        assert(y * wi + wi == (y + 1) * wi) by (nonlinear_arith);
        y = y + 1;
    }
    assert(y * wi == wi * height) by (nonlinear_arith)
        requires
            y == height,
    ;
    assert(p == len);
    if found {
        assert(m[w0] && m[w1] && m[w2] && m[w3]);
        Some((min_x, min_y, max_x, max_y))
    } else {
        None
    }
}

} // verus!
