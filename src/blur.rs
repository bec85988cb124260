//! The integer side of the separable blur: copying a region out, the window of kernel taps
//! that fall inside it, and writing blurred colours back.
use crate::geometry::{
    base_index, lemma_byte_coords, lemma_byte_decompose, pixel_base, pixel_fits, pixel_x, pixel_y,
    rgb_fits,
};
use crate::region::put_rgb;
use vstd::prelude::*;

verus! {

/// Byte `j` of the copy of the region of `rw` columns whose top-left pixel is `(x, y)`: the
/// matching byte of `d` where that whole pixel lies in `d`, else 0.
pub open spec fn cropped(d: Seq<u8>, width: int, x: int, y: int, rw: int, j: int) -> u8 {
    let base = pixel_base(width, x + pixel_x(rw, j), y + pixel_y(rw, j));
    if pixel_fits(d.len() as int, base) {
        d[base + j % 4]
    } else {
        0
    }
}

/// Copy the pixels of `[x, x_end) x [y, y_end)` into a buffer of their own, row-major with
/// `x_end - x` pixels a row. Pixels that do not lie wholly in `data` are left zero.
pub fn crop_region(data: &[u8], width: u32, x: u32, y: u32, x_end: u32, y_end: u32) -> (r: Vec<u8>)
    requires
        x <= x_end <= width,
        y <= y_end,
        (x_end - x) * (y_end - y) * 4 <= usize::MAX,
    ensures
        r@.len() == (x_end - x) * (y_end - y) * 4,
        forall|j: int|
            0 <= j < r@.len() ==> #[trigger] r@[j] == cropped(
                data@,
                width as int,
                x as int,
                y as int,
                (x_end - x) as int,
                j,
            ),
{
    let ghost d = data@;
    let ghost wi = width as int;
    let rw: usize = (x_end - x) as usize;
    let rh: usize = (y_end - y) as usize;
    let ghost rwi = rw as int;
    assert(rw * rh <= rw * rh * 4) by (nonlinear_arith);
    let size: usize = rw * rh * 4;
    let mut out: Vec<u8> = vec![0u8; size];
    assert forall|j: int| 0 <= j < size implies #[trigger] out@[j] == 0 by {
        assert(cloned(0u8, out@[j]));
    }
    let mut qy: usize = 0;
    assert forall|j: int| 0 <= j < size implies pixel_y(rwi, j) >= 0 by {
        if rwi == 0 {
            assert(size == 0) by (nonlinear_arith)
                requires
                    size == rw * rh * 4,
                    rw == 0,
            ;
        }
        lemma_byte_decompose(rwi, j);
    }
    while qy < rh
        invariant
            d == data@,
            wi == width,
            rwi == rw,
            rw == x_end - x,
            rh == y_end - y,
            x <= x_end <= width,
            size == rw * rh * 4,
            out@.len() == size,
            qy <= rh,
            forall|j: int|
                0 <= j < size ==> #[trigger] out@[j] == if pixel_y(rwi, j) < qy {
                    cropped(d, wi, x as int, y as int, rwi, j)
                } else {
                    0
                },
        decreases rh - qy,
    {
        let mut qx: usize = 0;
        while qx < rw
            invariant
                d == data@,
                wi == width,
                rwi == rw,
                rw == x_end - x,
                rh == y_end - y,
                x <= x_end <= width,
                size == rw * rh * 4,
                out@.len() == size,
                qy < rh,
                qx <= rw,
                forall|j: int|
                    0 <= j < size ==> #[trigger] out@[j] == if pixel_y(rwi, j) < qy || (pixel_y(
                        rwi,
                        j,
                    ) == qy && pixel_x(rwi, j) < qx) {
                        cropped(d, wi, x as int, y as int, rwi, j)
                    } else {
                        0
                    },
            decreases rw - qx,
        {
            proof {
                assert(qy * rw + qx < rw * rh) by (nonlinear_arith)
                    requires
                        qy < rh,
                        qx < rw,
                ;
                assert(qy * rw <= qy * rw + qx);
            }
            let dst: usize = (qy * rw + qx) * 4;
            let src = base_index(width, x + qx as u32, y + qy as u32);
            let ghost pre = out@;
            if src + 3 < data.len() as u128 {
                let s = src as usize;
                out.set(dst, data[s]);
                out.set(dst + 1, data[s + 1]);
                out.set(dst + 2, data[s + 2]);
                out.set(dst + 3, data[s + 3]);
            }
            assert forall|j: int| 0 <= j < size implies #[trigger] out@[j] == if pixel_y(rwi, j) < qy
                || (pixel_y(rwi, j) == qy && pixel_x(rwi, j) < qx + 1) {
                cropped(d, wi, x as int, y as int, rwi, j)
            } else {
                0
            } by {
                lemma_byte_decompose(rwi, j);
                lemma_byte_coords(rwi, qx as int, qy as int, 0);
                lemma_byte_coords(rwi, qx as int, qy as int, 1);
                lemma_byte_coords(rwi, qx as int, qy as int, 2);
                lemma_byte_coords(rwi, qx as int, qy as int, 3);
                if pixel_x(rwi, j) == qx && pixel_y(rwi, j) == qy {
                    assert(j / 4 * 4 == dst);
                } else {
                    assert(j / 4 * 4 != dst);
                    assert(out@[j] == pre[j]);
                }
            }
            qx = qx + 1;
        }
        qy = qy + 1;
    }
    assert forall|j: int| 0 <= j < size implies pixel_y(rwi, j) < rh by {
        if rwi == 0 {
            assert(size == 0) by (nonlinear_arith)
                requires
                    size == rw * rh * 4,
                    rw == 0,
            ;
        }
        lemma_byte_decompose(rwi, j);
        let py = pixel_y(rwi, j);
        let px = pixel_x(rwi, j);
        assert(py < rh) by (nonlinear_arith)
            requires
                j == (py * rwi + px) * 4 + j % 4,
                0 <= px,
                0 <= j % 4,
                j < rwi * rh * 4,
                rwi > 0,
        ;
    }
    out
}

/// The kernel taps `k` in `[lo, hi)` are exactly those of `0 ..= 2 * radius` whose sample
/// `p + k - radius` falls inside `[0, n)`.
pub fn tap_range(p: usize, n: usize, radius: u32) -> (s: (u64, u64))
    requires
        p < n,
    ensures
        s.0 <= s.1 <= 2 * radius + 1,
        forall|k: int|
            0 <= k <= 2 * radius ==> ((s.0 <= k < s.1) <==> (0 <= #[trigger] (p + k - radius) < n)),
{
    let r = radius as u64;
    let lo: u64 = if (p as u64) < r {
        r - p as u64
    } else {
        0
    };
    let room: u64 = (n - 1 - p) as u64;
    let hi: u64 = if room < r {
        r + room + 1
    } else {
        2 * r + 1
    };
    (lo, hi)
}


/// Byte `i` of `d` after the colour bytes of the region of `rw` x `rh` pixels at `(x, y)` are
/// taken from the row-major region buffer `src`.
pub open spec fn stored(
    d: Seq<u8>,
    src: Seq<u8>,
    width: int,
    x: int,
    y: int,
    rw: int,
    rh: int,
    i: int,
) -> u8 {
    if width > 0 && i % 4 < 3 && x <= pixel_x(width, i) < x + rw && y <= pixel_y(width, i) < y
        + rh && rgb_fits(d.len() as int, i / 4 * 4) {
        src[pixel_base(rw, pixel_x(width, i) - x, pixel_y(width, i) - y) + i % 4]
    } else {
        d[i]
    }
}

/// Write the colour bytes of the region buffer `src`, `rw` pixels a row and `rh` rows, into
/// `data` at `(x, y)`. Alpha, and pixels whose colour bytes lie past the end, are left alone.
pub fn store_region(data: &mut [u8], width: u32, x: u32, y: u32, rw: u32, rh: u32, src: &[u8])
    requires
        x + rw <= width,
        y + rh <= u32::MAX,
        src@.len() == rw * rh * 4,
    ensures
        final(data)@.len() == old(data)@.len(),
        forall|i: int|
            0 <= i < old(data)@.len() ==> #[trigger] final(data)@[i] == stored(
                old(data)@,
                src@,
                width as int,
                x as int,
                y as int,
                rw as int,
                rh as int,
                i,
            ),
{
    let ghost orig = data@;
    let ghost len = data@.len() as int;
    let ghost wi = width as int;
    let ghost sv = src@;
    let ghost (xi, yi, rwi, rhi) = (x as int, y as int, rw as int, rh as int);
    let mut qy: u32 = 0;
    while qy < rh
        invariant
            qy <= rh,
            x + rw <= width,
            y + rh <= u32::MAX,
            sv == src@,
            sv.len() == rw * rh * 4,
            wi == width,
            xi == x,
            yi == y,
            rwi == rw,
            rhi == rh,
            data@.len() == len,
            len == orig.len(),
            forall|i: int|
                0 <= i < len ==> #[trigger] data@[i] == if pixel_y(wi, i) < y + qy {
                    stored(orig, sv, wi, xi, yi, rwi, rhi, i)
                } else {
                    orig[i]
                },
        decreases rh - qy,
    {
        let mut qx: u32 = 0;
        while qx < rw
            invariant
                qy < rh,
                qx <= rw,
                x + rw <= width,
                y + rh <= u32::MAX,
                sv == src@,
                sv.len() == rw * rh * 4,
                wi == width,
                xi == x,
                yi == y,
                rwi == rw,
                rhi == rh,
                data@.len() == len,
                len == orig.len(),
                forall|i: int|
                    0 <= i < len ==> #[trigger] data@[i] == if pixel_y(wi, i) < y + qy || (pixel_y(
                        wi,
                        i,
                    ) == y + qy && pixel_x(wi, i) < x + qx) {
                        stored(orig, sv, wi, xi, yi, rwi, rhi, i)
                    } else {
                        orig[i]
                    },
            decreases rw - qx,
        {
            proof {
                assert(qy * rw + qx < rw * rh) by (nonlinear_arith)
                    requires
                        qy < rh,
                        qx < rw,
                ;
                assert(qy * rw <= qy * rw + qx);
                assert(src@.len() <= usize::MAX) by {
                    assert(src.len() == src@.len());
                }
            }
            let s: usize = (qy as usize * rw as usize + qx as usize) * 4;
            let px = x + qx;
            let py = y + qy;
            let dst = base_index(width, px, py);
            let ghost pre = data@;
            if dst + 2 < data.len() as u128 {
                put_rgb(data, dst as usize, src[s], src[s + 1], src[s + 2]);
            }
            assert forall|i: int| 0 <= i < len implies #[trigger] data@[i] == if pixel_y(wi, i) < y
                + qy || (pixel_y(wi, i) == y + qy && pixel_x(wi, i) < x + qx + 1) {
                stored(orig, sv, wi, xi, yi, rwi, rhi, i)
            } else {
                orig[i]
            } by {
                lemma_byte_decompose(wi, i);
                lemma_byte_coords(wi, px as int, py as int, 0);
                lemma_byte_coords(wi, px as int, py as int, 1);
                lemma_byte_coords(wi, px as int, py as int, 2);
                lemma_byte_coords(wi, px as int, py as int, 3);
                if pixel_x(wi, i) == px && pixel_y(wi, i) == py {
                    assert(i / 4 * 4 == dst);
                    assert(pixel_base(rwi, px - xi, py - yi) == s);
                } else {
                    assert(i / 4 * 4 != dst);
                    assert(data@[i] == pre[i]);
                }
            }
            qx = qx + 1;
        }
        qy = qy + 1;
    }
    assert forall|i: int| 0 <= i < len implies #[trigger] data@[i] == stored(
        orig,
        sv,
        wi,
        xi,
        yi,
        rwi,
        rhi,
        i,
    ) by {
        if wi > 0 {
            lemma_byte_decompose(wi, i);
        }
    }
}

} // verus!
