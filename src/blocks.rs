//! Sums and truncated means of colour channels over rectangular blocks of pixels.
use crate::geometry::{
    base_index, component, lemma_byte_coords, lemma_byte_decompose, lemma_cell_coords, pixel_base,
    pixel_x, pixel_y, rgb_fits,
};
use crate::region::put_rgb;
use vstd::arithmetic::div_mod::lemma_fundamental_div_mod_converse;
use vstd::prelude::*;

verus! {

/// Channel `c` of pixel `(px, py)` of `d`, or 0 where the pixel's colour bytes lie past the end.
pub open spec fn sample(d: Seq<u8>, width: int, px: int, py: int, c: int) -> int {
    if rgb_fits(d.len() as int, pixel_base(width, px, py)) {
        d[pixel_base(width, px, py) + c] as int
    } else {
        0
    }
}

/// 1 where the colour bytes of pixel `(px, py)` lie in `d`, else 0.
pub open spec fn present(d: Seq<u8>, width: int, px: int, py: int) -> int {
    if rgb_fits(d.len() as int, pixel_base(width, px, py)) {
        1
    } else {
        0
    }
}

/// Sum of channel `c` over pixels `x0 .. x0 + n` of row `py`.
pub open spec fn row_sum(d: Seq<u8>, width: int, x0: int, py: int, n: int, c: int) -> int
    decreases n,
{
    if n <= 0 {
        0
    } else {
        row_sum(d, width, x0, py, n - 1, c) + sample(d, width, x0 + n - 1, py, c)
    }
}

/// Number of pixels among `x0 .. x0 + n` of row `py` that lie in `d`.
pub open spec fn row_count(d: Seq<u8>, width: int, x0: int, py: int, n: int) -> int
    decreases n,
{
    if n <= 0 {
        0
    } else {
        row_count(d, width, x0, py, n - 1) + present(d, width, x0 + n - 1, py)
    }
}

/// Sum of channel `c` over the block of `bw` columns from `x0` and `bh` rows from `y0`.
pub open spec fn block_sum(
    d: Seq<u8>,
    width: int,
    x0: int,
    y0: int,
    bw: int,
    bh: int,
    c: int,
) -> int
    decreases bh,
{
    if bh <= 0 {
        0
    } else {
        block_sum(d, width, x0, y0, bw, bh - 1, c) + row_sum(d, width, x0, y0 + bh - 1, bw, c)
    }
}

/// Number of pixels of the block that lie in `d`.
pub open spec fn block_count(d: Seq<u8>, width: int, x0: int, y0: int, bw: int, bh: int) -> int
    decreases bh,
{
    if bh <= 0 {
        0
    } else {
        block_count(d, width, x0, y0, bw, bh - 1) + row_count(d, width, x0, y0 + bh - 1, bw)
    }
}

/// Truncated mean of channel `c` over the pixels of the block that lie in `d`.
pub open spec fn block_mean(
    d: Seq<u8>,
    width: int,
    x0: int,
    y0: int,
    bw: int,
    bh: int,
    c: int,
) -> int {
    block_sum(d, width, x0, y0, bw, bh, c) / block_count(d, width, x0, y0, bw, bh)
}

/// Two buffers of one length whose colour bytes agree on a block.
pub open spec fn agree_on_block(
    d1: Seq<u8>,
    d2: Seq<u8>,
    width: int,
    x0: int,
    y0: int,
    bw: int,
    bh: int,
) -> bool {
    &&& d1.len() == d2.len()
    &&& forall|px: int, py: int, c: int|
        x0 <= px < x0 + bw && y0 <= py < y0 + bh && 0 <= c < 3 && rgb_fits(
            d1.len() as int,
            pixel_base(width, px, py),
        ) ==> #[trigger] d1[pixel_base(width, px, py) + c] == d2[pixel_base(width, px, py) + c]
}

proof fn lemma_row_frame(d1: Seq<u8>, d2: Seq<u8>, width: int, x0: int, py: int, n: int, c: int)
    requires
        d1.len() == d2.len(),
        0 <= c < 3,
        forall|px: int, c2: int|
            x0 <= px < x0 + n && 0 <= c2 < 3 && rgb_fits(d1.len() as int, pixel_base(width, px, py))
                ==> #[trigger] d1[pixel_base(width, px, py) + c2] == d2[pixel_base(width, px, py) + c2],
    ensures
        row_sum(d1, width, x0, py, n, c) == row_sum(d2, width, x0, py, n, c),
        row_count(d1, width, x0, py, n) == row_count(d2, width, x0, py, n),
    decreases n,
{
    if n > 0 {
        lemma_row_frame(d1, d2, width, x0, py, n - 1, c);
        let px = x0 + n - 1;
        if rgb_fits(d1.len() as int, pixel_base(width, px, py)) {
            assert(d1[pixel_base(width, px, py) + c] == d2[pixel_base(width, px, py) + c]);
        }
    }
}

/// Sums and counts over a block read only its colour bytes.
pub proof fn lemma_block_frame(
    d1: Seq<u8>,
    d2: Seq<u8>,
    width: int,
    x0: int,
    y0: int,
    bw: int,
    bh: int,
    c: int,
)
    requires
        agree_on_block(d1, d2, width, x0, y0, bw, bh),
        0 <= c < 3,
    ensures
        block_sum(d1, width, x0, y0, bw, bh, c) == block_sum(d2, width, x0, y0, bw, bh, c),
        block_count(d1, width, x0, y0, bw, bh) == block_count(d2, width, x0, y0, bw, bh),
    decreases bh,
{
    if bh > 0 {
        lemma_block_frame(d1, d2, width, x0, y0, bw, bh - 1, c);
        let py = y0 + bh - 1;
        assert forall|px: int, c2: int|
            x0 <= px < x0 + bw && 0 <= c2 < 3 && rgb_fits(d1.len() as int, pixel_base(width, px, py))
                implies #[trigger] d1[pixel_base(width, px, py) + c2] == d2[pixel_base(width, px, py)
            + c2] by {
            assert(d1[pixel_base(width, px, py) + c2] == d2[pixel_base(width, px, py) + c2]);
        }
        lemma_row_frame(d1, d2, width, x0, py, bw, c);
    }
}

proof fn lemma_row_bounds(d: Seq<u8>, width: int, x0: int, py: int, n: int, c: int)
    requires
        0 <= x0,
        0 <= py,
        0 <= width,
        0 <= c < 3,
    ensures
        0 <= row_sum(d, width, x0, py, n, c) <= 255 * row_count(d, width, x0, py, n),
        0 <= row_count(d, width, x0, py, n) <= if n < 0 { 0 } else { n },
    decreases n,
{
    if n > 0 {
        lemma_row_bounds(d, width, x0, py, n - 1, c);
        assert(0 <= (py * width)) by (nonlinear_arith)
            requires
                0 <= py,
                0 <= width,
        ;
    }
}

/// The block sum is at most 255 per counted pixel, and the count at most the block's area.
pub proof fn lemma_block_bounds(
    d: Seq<u8>,
    width: int,
    x0: int,
    y0: int,
    bw: int,
    bh: int,
    c: int,
)
    requires
        0 <= x0,
        0 <= y0,
        0 <= width,
        0 <= bw,
        0 <= bh,
        0 <= c < 3,
    ensures
        0 <= block_sum(d, width, x0, y0, bw, bh, c) <= 255 * block_count(d, width, x0, y0, bw, bh),
        0 <= block_count(d, width, x0, y0, bw, bh) <= bw * bh,
    decreases bh,
{
    if bh > 0 {
        lemma_block_bounds(d, width, x0, y0, bw, bh - 1, c);
        lemma_row_bounds(d, width, x0, y0 + bh - 1, bw, c);
        assert(bw * (bh - 1) + bw == bw * bh) by (nonlinear_arith);
    }
}

/// Channel sums and pixel count over the block `[bx, bx + bw) x [by, by + bh)`.
pub fn block_totals(data: &[u8], width: u32, bx: u32, by: u32, bw: u32, bh: u32) -> (r: (
    u128,
    u128,
    u128,
    u128,
))
    requires
        bx + bw <= u32::MAX,
        by + bh <= u32::MAX,
    ensures
        r.0 == block_sum(data@, width as int, bx as int, by as int, bw as int, bh as int, 0),
        r.1 == block_sum(data@, width as int, bx as int, by as int, bw as int, bh as int, 1),
        r.2 == block_sum(data@, width as int, bx as int, by as int, bw as int, bh as int, 2),
        r.3 == block_count(data@, width as int, bx as int, by as int, bw as int, bh as int),
{
    let ghost d = data@;
    let ghost (wi, x0, y0, bwi) = (width as int, bx as int, by as int, bw as int);
    let mut sr: u128 = 0;
    let mut sg: u128 = 0;
    let mut sb: u128 = 0;
    let mut n: u128 = 0;
    let mut j: u32 = 0;
    while j < bh
        invariant
            d == data@,
            wi == width,
            x0 == bx,
            y0 == by,
            bwi == bw,
            by + bh <= u32::MAX,
            bx + bw <= u32::MAX,
            j <= bh,
            sr == block_sum(d, wi, x0, y0, bwi, j as int, 0),
            sg == block_sum(d, wi, x0, y0, bwi, j as int, 1),
            sb == block_sum(d, wi, x0, y0, bwi, j as int, 2),
            n == block_count(d, wi, x0, y0, bwi, j as int),
        decreases bh - j,
    {
        proof {
            lemma_block_bounds(d, wi, x0, y0, bwi, j as int, 0);
            lemma_block_bounds(d, wi, x0, y0, bwi, j as int, 1);
            lemma_block_bounds(d, wi, x0, y0, bwi, j as int, 2);
            assert(bwi * j <= 0xffff_ffff * 0xffff_ffff) by (nonlinear_arith)
                requires
                    0 <= bwi <= 0xffff_ffff,
                    0 <= j <= 0xffff_ffff,
            ;
        }
        let py = by + j;
        let mut i: u32 = 0;
        while i < bw
            invariant
                d == data@,
                wi == width,
                x0 == bx,
                y0 == by,
                bwi == bw,
                py == by + j,
                bx + bw <= u32::MAX,
                i <= bw,
                sr == block_sum(d, wi, x0, y0, bwi, j as int, 0) + row_sum(d, wi, x0, py as int, i as int, 0),
                sg == block_sum(d, wi, x0, y0, bwi, j as int, 1) + row_sum(d, wi, x0, py as int, i as int, 1),
                sb == block_sum(d, wi, x0, y0, bwi, j as int, 2) + row_sum(d, wi, x0, py as int, i as int, 2),
                n == block_count(d, wi, x0, y0, bwi, j as int) + row_count(d, wi, x0, py as int, i as int),
                n <= bwi * j + i,
                sr <= 255 * n,
                sg <= 255 * n,
                sb <= 255 * n,
                bwi * j <= 0xffff_ffff * 0xffff_ffff,
            decreases bw - i,
        {
            let px = bx + i;
            let k = base_index(width, px, py);
            if k + 2 < data.len() as u128 {
                let kk = k as usize;
                sr = sr + data[kk] as u128;
                sg = sg + data[kk + 1] as u128;
                sb = sb + data[kk + 2] as u128;
                n = n + 1;
            }
            i = i + 1;
        }
        proof {
            lemma_block_bounds(d, wi, x0, y0, bwi, j as int + 1, 0);
        }
        j = j + 1;
    }
    (sr, sg, sb, n)
}


/// First column (or row) of the block that holds `p`, for blocks of side `b` laid from `origin`.
pub open spec fn block_start(origin: int, b: int, p: int) -> int {
    origin + (p - origin) / b * b
}

/// Side of the block that starts at `start`: `b`, cut at `end`.
pub open spec fn block_len(start: int, b: int, end: int) -> int {
    if b < end - start {
        b
    } else {
        end - start
    }
}

/// Byte `i` lies in a pixel of the block `[bx, bx + bw) x [by, by + bh)`.
pub open spec fn in_block(width: int, i: int, bx: int, by: int, bw: int, bh: int) -> bool {
    &&& bx <= pixel_x(width, i) < bx + bw
    &&& by <= pixel_y(width, i) < by + bh
}

/// A pixel `p` in the `k`-th block from `origin` has that block's first index as block start.
pub proof fn lemma_block_start(origin: int, b: int, k: int, p: int)
    requires
        b > 0,
        k >= 0,
        origin + k * b <= p < origin + k * b + b,
    ensures
        block_start(origin, b, p) == origin + k * b,
{
    lemma_fundamental_div_mod_converse(p - origin, b, k, p - origin - k * b);
}

proof fn lemma_row_count_positive(d: Seq<u8>, width: int, x0: int, py: int, n: int, px: int)
    requires
        x0 <= px < x0 + n,
        rgb_fits(d.len() as int, pixel_base(width, px, py)),
        0 <= x0,
        0 <= py,
        0 <= width,
    ensures
        row_count(d, width, x0, py, n) >= 1,
    decreases n,
{
    lemma_row_bounds(d, width, x0, py, n - 1, 0);
    if px < x0 + n - 1 {
        lemma_row_count_positive(d, width, x0, py, n - 1, px);
    }
}

/// A block holding a pixel that lies in `d` has a positive count.
pub proof fn lemma_block_count_positive(
    d: Seq<u8>,
    width: int,
    x0: int,
    y0: int,
    bw: int,
    bh: int,
    px: int,
    py: int,
)
    requires
        x0 <= px < x0 + bw,
        y0 <= py < y0 + bh,
        rgb_fits(d.len() as int, pixel_base(width, px, py)),
        0 <= x0,
        0 <= y0,
        0 <= width,
    ensures
        block_count(d, width, x0, y0, bw, bh) >= 1,
    decreases bh,
{
    lemma_block_bounds(d, width, x0, y0, bw, bh - 1, 0);
    lemma_row_bounds(d, width, x0, y0 + bh - 1, bw, 0);
    if py < y0 + bh - 1 {
        lemma_block_count_positive(d, width, x0, y0, bw, bh - 1, px, py);
    } else {
        lemma_row_count_positive(d, width, x0, py, bw, px);
    }
}

proof fn lemma_uniform_row(d: Seq<u8>, width: int, x0: int, py: int, n: int, c: int, v: int)
    requires
        forall|qx: int|
            x0 <= qx < x0 + n && rgb_fits(d.len() as int, pixel_base(width, qx, py)) ==> d[#[trigger] pixel_base(
                width,
                qx,
                py,
            ) + c] == v,
    ensures
        row_sum(d, width, x0, py, n, c) == v * row_count(d, width, x0, py, n),
    decreases n,
{
    if n > 0 {
        lemma_uniform_row(d, width, x0, py, n - 1, c, v);
        let k = row_count(d, width, x0, py, n - 1);
        assert(v * (k + 1) == v * k + v) by (nonlinear_arith);
        assert(v * (k + 0) == v * k) by (nonlinear_arith);
    }
}

/// Where channel `c` is `v` on every pixel of the block that lies in `d`, its sum is `v` per
/// counted pixel.
pub proof fn lemma_uniform_block(
    d: Seq<u8>,
    width: int,
    x0: int,
    y0: int,
    bw: int,
    bh: int,
    c: int,
    v: int,
)
    requires
        forall|qx: int, qy: int|
            x0 <= qx < x0 + bw && y0 <= qy < y0 + bh && rgb_fits(
                d.len() as int,
                pixel_base(width, qx, qy),
            ) ==> d[#[trigger] pixel_base(width, qx, qy) + c] == v,
    ensures
        block_sum(d, width, x0, y0, bw, bh, c) == v * block_count(d, width, x0, y0, bw, bh),
    decreases bh,
{
    if bh > 0 {
        lemma_uniform_block(d, width, x0, y0, bw, bh - 1, c, v);
        lemma_uniform_row(d, width, x0, y0 + bh - 1, bw, c, v);
        let k = block_count(d, width, x0, y0, bw, bh - 1);
        let k2 = row_count(d, width, x0, y0 + bh - 1, bw);
        assert(v * (k + k2) == v * k + v * k2) by (nonlinear_arith);
    }
}

/// Fill the colour bytes of every pixel of the block that lies in `data` with `(r, g, b)`.
pub fn fill_block(
    data: &mut [u8],
    width: u32,
    bx: u32,
    by: u32,
    bw: u32,
    bh: u32,
    r: u8,
    g: u8,
    b: u8,
)
    requires
        bx + bw <= width,
        by + bh <= u32::MAX,
    ensures
        final(data)@.len() == old(data)@.len(),
        forall|i: int|
            0 <= i < old(data)@.len() ==> #[trigger] final(data)@[i] == if i % 4 < 3 && in_block(
                width as int,
                i,
                bx as int,
                by as int,
                bw as int,
                bh as int,
            ) && rgb_fits(old(data)@.len() as int, i / 4 * 4) {
                component(r, g, b, i % 4)
            } else {
                old(data)@[i]
            },
{
    let ghost orig = data@;
    let ghost len = data@.len() as int;
    let ghost wi = width as int;
    let mut j: u32 = 0;
    while j < bh
        invariant
            j <= bh,
            by + bh <= u32::MAX,
            bx + bw <= width,
            wi == width,
            data@.len() == len,
            len == orig.len(),
            forall|i: int|
                0 <= i < len ==> #[trigger] data@[i] == if i % 4 < 3 && in_block(
                    wi,
                    i,
                    bx as int,
                    by as int,
                    bw as int,
                    j as int,
                ) && rgb_fits(len, i / 4 * 4) {
                    component(r, g, b, i % 4)
                } else {
                    orig[i]
                },
        decreases bh - j,
    {
        let py = by + j;
        let mut k: u32 = 0;
        while k < bw
            invariant
                j < bh,
                k <= bw,
                py == by + j,
                by + bh <= u32::MAX,
                bx + bw <= width,
                wi == width,
                data@.len() == len,
                len == orig.len(),
                forall|i: int|
                    0 <= i < len ==> #[trigger] data@[i] == if i % 4 < 3 && (in_block(
                        wi,
                        i,
                        bx as int,
                        by as int,
                        bw as int,
                        j as int,
                    ) || (pixel_y(wi, i) == py && bx <= pixel_x(wi, i) < bx + k)) && rgb_fits(
                        len,
                        i / 4 * 4,
                    ) {
                        component(r, g, b, i % 4)
                    } else {
                        orig[i]
                    },
            decreases bw - k,
        {
            let px = bx + k;
            let idx = base_index(width, px, py);
            let ghost pre = data@;
            if idx + 2 < data.len() as u128 {
                put_rgb(data, idx as usize, r, g, b);
            }
            assert forall|i: int| 0 <= i < len implies #[trigger] data@[i] == if i % 4 < 3 && (
            in_block(wi, i, bx as int, by as int, bw as int, j as int) || (pixel_y(wi, i) == py
                && bx <= pixel_x(wi, i) < bx + k + 1)) && rgb_fits(len, i / 4 * 4) {
                component(r, g, b, i % 4)
            } else {
                orig[i]
            } by {
                lemma_byte_decompose(wi, i);
                lemma_byte_coords(wi, px as int, py as int, 0);
                lemma_byte_coords(wi, px as int, py as int, 1);
                lemma_byte_coords(wi, px as int, py as int, 2);
                lemma_byte_coords(wi, px as int, py as int, 3);
                if pixel_x(wi, i) == px && pixel_y(wi, i) == py {
                    assert(i / 4 * 4 == idx);
                } else {
                    assert(i / 4 * 4 != idx);
                    assert(data@[i] == pre[i]);
                }
            }
            k = k + 1;
        }
        j = j + 1;
    }
}

/// Fill the colour bytes of every masked pixel of the block that lies in `data` with `(r, g, b)`.
pub fn fill_block_masked(
    data: &mut [u8],
    mask: &Vec<bool>,
    width: u32,
    height: u32,
    bx: u32,
    by: u32,
    bw: u32,
    bh: u32,
    r: u8,
    g: u8,
    b: u8,
)
    requires
        bx + bw <= width,
        by + bh <= height,
        mask@.len() == width * height,
    ensures
        final(data)@.len() == old(data)@.len(),
        forall|i: int|
            0 <= i < old(data)@.len() ==> #[trigger] final(data)@[i] == if i % 4 < 3 && in_block(
                width as int,
                i,
                bx as int,
                by as int,
                bw as int,
                bh as int,
            ) && rgb_fits(old(data)@.len() as int, i / 4 * 4) && mask@[i / 4] {
                component(r, g, b, i % 4)
            } else {
                old(data)@[i]
            },
{
    let ghost orig = data@;
    let ghost len = data@.len() as int;
    let ghost wi = width as int;
    let mut j: u32 = 0;
    while j < bh
        invariant
            j <= bh,
            by + bh <= height,
            bx + bw <= width,
            mask@.len() == wi * height,
            wi == width,
            data@.len() == len,
            len == orig.len(),
            forall|i: int|
                0 <= i < len ==> #[trigger] data@[i] == if i % 4 < 3 && in_block(
                    wi,
                    i,
                    bx as int,
                    by as int,
                    bw as int,
                    j as int,
                ) && rgb_fits(len, i / 4 * 4) && mask@[i / 4] {
                    component(r, g, b, i % 4)
                } else {
                    orig[i]
                },
        decreases bh - j,
    {
        let py = by + j;
        let mut k: u32 = 0;
        while k < bw
            invariant
                j < bh,
                k <= bw,
                py == by + j,
                by + bh <= height,
                bx + bw <= width,
                mask@.len() == wi * height,
                wi == width,
                data@.len() == len,
                len == orig.len(),
                forall|i: int|
                    0 <= i < len ==> #[trigger] data@[i] == if i % 4 < 3 && (in_block(
                        wi,
                        i,
                        bx as int,
                        by as int,
                        bw as int,
                        j as int,
                    ) || (pixel_y(wi, i) == py && bx <= pixel_x(wi, i) < bx + k)) && rgb_fits(
                        len,
                        i / 4 * 4,
                    ) && mask@[i / 4] {
                        component(r, g, b, i % 4)
                    } else {
                        orig[i]
                    },
            decreases bw - k,
        {
            let px = bx + k;
            let idx = base_index(width, px, py);
            let ghost pre = data@;
            proof {
                lemma_cell_coords(wi, px as int, py as int);
                assert(py * wi + px < wi * height) by (nonlinear_arith)
                    requires
                        py < height,
                        px < wi,
                ;
                assert(py * wi <= py * wi + px);
                assert(mask@.len() <= usize::MAX) by {
                    assert(mask.len() == mask@.len());
                }
            }
            let cell: usize = py as usize * width as usize + px as usize;
            if mask[cell] && idx + 2 < data.len() as u128 {
                put_rgb(data, idx as usize, r, g, b);
            }
            assert forall|i: int| 0 <= i < len implies #[trigger] data@[i] == if i % 4 < 3 && (
            in_block(wi, i, bx as int, by as int, bw as int, j as int) || (pixel_y(wi, i) == py
                && bx <= pixel_x(wi, i) < bx + k + 1)) && rgb_fits(len, i / 4 * 4) && mask@[i / 4] {
                component(r, g, b, i % 4)
            } else {
                orig[i]
            } by {
                lemma_byte_decompose(wi, i);
                lemma_byte_coords(wi, px as int, py as int, 0);
                lemma_byte_coords(wi, px as int, py as int, 1);
                lemma_byte_coords(wi, px as int, py as int, 2);
                lemma_byte_coords(wi, px as int, py as int, 3);
                if pixel_x(wi, i) == px && pixel_y(wi, i) == py {
                    assert(i / 4 * 4 == idx);
                } else {
                    assert(i / 4 * 4 != idx);
                    assert(data@[i] == pre[i]);
                }
            }
            k = k + 1;
        }
        j = j + 1;
    }
}

/// Some cell of the block is set in a mask `width` cells wide.
pub open spec fn block_masked(m: Seq<bool>, width: int, bx: int, by: int, bw: int, bh: int) -> bool {
    exists|px: int, py: int|
        bx <= px < bx + bw && by <= py < by + bh && #[trigger] mask_cell(m, width, px, py)
}

/// Cell `(px, py)` of a mask `width` cells wide.
pub open spec fn mask_cell(m: Seq<bool>, width: int, px: int, py: int) -> bool {
    m[py * width + px]
}

/// Whether some pixel of the block `[bx, bx + bw) x [by, by + bh)` is set in the mask;
/// stops at the first one found.
pub fn block_has_masked(
    mask: &Vec<bool>,
    width: u32,
    height: u32,
    bx: u32,
    by: u32,
    bw: u32,
    bh: u32,
) -> (r: bool)
    requires
        bx + bw <= width,
        by + bh <= height,
        mask@.len() == width * height,
    ensures
        r == block_masked(mask@, width as int, bx as int, by as int, bw as int, bh as int),
{
    let ghost m = mask@;
    let ghost wi = width as int;
    let mut found = false;
    let mut j: u32 = 0;
    while j < bh && !found
        invariant
            m == mask@,
            wi == width,
            bx + bw <= width,
            by + bh <= height,
            m.len() == wi * height,
            j <= bh,
            found ==> block_masked(m, wi, bx as int, by as int, bw as int, bh as int),
            !found ==> forall|px: int, py: int|
                bx <= px < bx + bw && by <= py < by + j ==> !#[trigger] mask_cell(m, wi, px, py),
        decreases bh - j,
    {
        let py = by + j;
        let mut k: u32 = 0;
        while k < bw && !found
            invariant
                m == mask@,
                wi == width,
                bx + bw <= width,
                by + bh <= height,
                m.len() == wi * height,
                j < bh,
                py == by + j,
                k <= bw,
                found ==> block_masked(m, wi, bx as int, by as int, bw as int, bh as int),
                !found ==> forall|px: int, qy: int|
                    bx <= px < bx + bw && by <= qy < by + j ==> !#[trigger] mask_cell(m, wi, px, qy),
                !found ==> forall|px: int| bx <= px < bx + k ==> !#[trigger] mask_cell(m, wi, px, py as int),
            decreases bw - k,
        {
            let px = bx + k;
            proof {
                assert(py * wi + px < wi * height) by (nonlinear_arith)
                    requires
                        py < height,
                        px < wi,
                ;
                assert(py * wi <= py * wi + px);
                assert(m.len() <= usize::MAX) by {
                    assert(mask.len() == m.len());
                }
            }
            if mask[py as usize * width as usize + px as usize] {
                assert(mask_cell(m, wi, px as int, py as int));
                found = true;
            }
            k = k + 1;
        }
        if !found {
            assert forall|px: int, qy: int|
                bx <= px < bx + bw && by <= qy < by + j + 1 implies !#[trigger] mask_cell(m, wi, px, qy) by {
                if qy == py {
                    assert(!mask_cell(m, wi, px, py as int));
                }
            }
        }
        j = j + 1;
    }
    found
}

} // verus!
