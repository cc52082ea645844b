use vstd::prelude::*;
use crate::framebuffer::{lemma_index_in_frame, pixel_index};

verus! {

/// Channel `c` of a packed `0xRRGGBB` colour: `0` red, `1` green, `2` blue.
pub open spec fn channel(p: u32, c: int) -> int {
    if c == 0 {
        (p as int / 0x10000) % 0x100
    } else if c == 1 {
        (p as int / 0x100) % 0x100
    } else {
        p as int % 0x100
    }
}

/// The colour `0xRRGGBB` with the given channels, each in `0..=255`.
pub open spec fn pack(r: int, g: int, b: int) -> int {
    r * 0x10000 + g * 0x100 + b
}

/// Sum of channel `c` over the `n` pixels of row `y` that start at column
/// `x0`, in a buffer of rows of `width` pixels.
pub open spec fn row_sum(buf: Seq<u32>, width: nat, x0: int, y: int, n: nat, c: int) -> int
    decreases n,
{
    if n == 0 {
        0
    } else {
        row_sum(buf, width, x0, y, (n - 1) as nat, c) + channel(buf[pixel_index(width, x0 + n - 1, y)], c)
    }
}

/// Sum of channel `c` over the block of `m` rows of `n` pixels whose top-left
/// pixel is `(x0, y0)`.
pub open spec fn block_sum(buf: Seq<u32>, width: nat, x0: int, y0: int, n: nat, m: nat, c: int) -> int
    decreases m,
{
    if m == 0 {
        0
    } else {
        block_sum(buf, width, x0, y0, n, (m - 1) as nat, c) + row_sum(buf, width, x0, y0 + m - 1, n, c)
    }
}

/// Output pixel `(x, y)` of the box filter with blocks of `sx * sy` input
/// pixels: each channel is the mean of that channel over the block, rounded
/// down; with empty blocks the pixel is black.
pub open spec fn box_average(buf: Seq<u32>, width: nat, sx: nat, sy: nat, x: int, y: int) -> int {
    if sx * sy == 0 {
        0
    } else {
        let count = (sx * sy) as int;
        pack(
            block_sum(buf, width, x * sx, y * sy, sx, sy, 0) / count,
            block_sum(buf, width, x * sx, y * sy, sx, sy, 1) / count,
            block_sum(buf, width, x * sx, y * sy, sx, sy, 2) / count,
        )
    }
}

proof fn lemma_row_sum_bounds(buf: Seq<u32>, width: nat, x0: int, y: int, n: nat, c: int)
    ensures
        0 <= row_sum(buf, width, x0, y, n, c) <= 255 * n,
    decreases n,
{
    if n > 0 {
        lemma_row_sum_bounds(buf, width, x0, y, (n - 1) as nat, c);
    }
}

proof fn lemma_block_sum_bounds(buf: Seq<u32>, width: nat, x0: int, y0: int, n: nat, m: nat, c: int)
    ensures
        0 <= block_sum(buf, width, x0, y0, n, m, c) <= 255 * n * m,
    decreases m,
{
    if m > 0 {
        lemma_block_sum_bounds(buf, width, x0, y0, n, (m - 1) as nat, c);
        lemma_row_sum_bounds(buf, width, x0, y0 + m - 1, n, c);
        assert(255 * n * (m - 1) + 255 * n == 255 * n * m) by (nonlinear_arith);
    }
}

/// The three channels of a packed colour.
fn channels(p: u32) -> (r: (u32, u32, u32))
    ensures
        r.0 as int == channel(p, 0),
        r.1 as int == channel(p, 1),
        r.2 as int == channel(p, 2),
{
    let red = (p >> 16u32) & 0xffu32;
    let green = (p >> 8u32) & 0xffu32;
    let blue = p & 0xffu32;
    assert(red == (p / 0x10000) % 0x100) by (bit_vector)
        requires
            red == (p >> 16u32) & 0xffu32,
    ;
    assert(green == (p / 0x100) % 0x100) by (bit_vector)
        requires
            green == (p >> 8u32) & 0xffu32,
    ;
    assert(blue == p % 0x100) by (bit_vector)
        requires
            blue == p & 0xffu32,
    ;
    (red, green, blue)
}

/// Packs three channels, each in `0..=255`, as `0xRRGGBB`.
pub fn pack_rgb(r: u32, g: u32, b: u32) -> (p: u32)
    requires
        r <= 255,
        g <= 255,
        b <= 255,
    ensures
        p as int == pack(r as int, g as int, b as int),
{
    let p = (r << 16u32) | (g << 8u32) | b;
    assert(p == r * 0x10000 + g * 0x100 + b) by (bit_vector)
        requires
            p == (r << 16u32) | (g << 8u32) | b,
            r <= 255,
            g <= 255,
            b <= 255,
    ;
    p
}

/// Box-filters a `high_width * high_height` buffer of packed colours down to
/// `low_width * low_height`. Each output pixel averages, channel by channel,
/// the block of `(high_width / low_width) * (high_height / low_height)` input
/// pixels that maps onto it (means rounded down). The blocks never reach past
/// the input: where the sizes do not divide evenly, the rightmost columns and
/// bottom rows of the input are left out.
pub fn downsample_buffer(
    high_res_buffer: &Vec<u32>,
    high_width: usize,
    high_height: usize,
    low_width: usize,
    low_height: usize,
) -> (low: Vec<u32>)
    requires
        low_width > 0,
        low_height > 0,
        low_width * low_height <= usize::MAX,
        high_res_buffer@.len() >= high_width * high_height,
    ensures
        low@.len() == low_width * low_height,
        forall|x: int, y: int|
            0 <= x < low_width && 0 <= y < low_height ==> (#[trigger] low@[pixel_index(low_width as nat, x, y)])
                as int == box_average(
                high_res_buffer@,
                high_width as nat,
                (high_width / low_width) as nat,
                (high_height / low_height) as nat,
                x,
                y,
            ),
{
    let ghost buf = high_res_buffer@;
    let ghost hw = high_width as nat;
    let high_len: usize = high_res_buffer.len();
    assert(high_width * high_height <= usize::MAX);
    let n: usize = low_width * low_height;
    let mut low: Vec<u32> = Vec::with_capacity(n);
    let scale_x: usize = high_width / low_width;
    let scale_y: usize = high_height / low_height;
    assert(scale_x * low_width <= high_width) by (nonlinear_arith)
        requires
            scale_x == high_width / low_width,
            low_width > 0,
    ;
    assert(scale_y * low_height <= high_height) by (nonlinear_arith)
        requires
            scale_y == high_height / low_height,
            low_height > 0,
    ;
    let ghost count = (scale_x * scale_y) as nat;
    assert(count <= high_width * high_height) by (nonlinear_arith)
        requires
            count == scale_x * scale_y,
            scale_x <= high_width,
            scale_y <= high_height,
    ;
    let mut y: usize = 0;
    while y < low_height
        invariant
            scale_x == high_width / low_width,
            scale_y == high_height / low_height,
            scale_x * low_width <= high_width,
            scale_y * low_height <= high_height,
            count == scale_x * scale_y,
            count <= high_width * high_height,
            high_width * high_height <= usize::MAX,
            buf == high_res_buffer@,
            hw == high_width,
            buf.len() >= high_width * high_height,
            y <= low_height,
            low@.len() == y * low_width,
            forall|xx: int, yy: int|
                0 <= xx < low_width && 0 <= yy < y ==> (#[trigger] low@[pixel_index(low_width as nat, xx, yy)]) as int
                    == box_average(buf, hw, scale_x as nat, scale_y as nat, xx, yy),
        decreases low_height - y,
    {
        let mut x: usize = 0;
        while x < low_width
            invariant
                scale_x == high_width / low_width,
                scale_y == high_height / low_height,
                scale_x * low_width <= high_width,
                scale_y * low_height <= high_height,
                count == scale_x * scale_y,
                count <= high_width * high_height,
                high_width * high_height <= usize::MAX,
                buf == high_res_buffer@,
                hw == high_width,
                buf.len() >= high_width * high_height,
                y < low_height,
                x <= low_width,
                low@.len() == y * low_width + x,
                forall|xx: int, yy: int|
                    0 <= xx < low_width && 0 <= yy < y ==> (#[trigger] low@[pixel_index(low_width as nat, xx, yy)])
                        as int == box_average(buf, hw, scale_x as nat, scale_y as nat, xx, yy),
                forall|xx: int|
                    0 <= xx < x ==> (#[trigger] low@[pixel_index(low_width as nat, xx, y as int)]) as int
                        == box_average(buf, hw, scale_x as nat, scale_y as nat, xx, y as int),
            decreases low_width - x,
        {
            let value = block_average(
                high_res_buffer,
                high_width,
                high_height,
                x,
                y,
                scale_x,
                scale_y,
                low_width,
                low_height,
            );
            assert(pixel_index(low_width as nat, x as int, y as int) == low@.len());
            let ghost before = low@;
            low.push(value);
            proof {
                lemma_index_in_frame(low_width as nat, low_height as nat, x as int, y as int);
                assert forall|xx: int, yy: int|
                    0 <= xx < low_width && 0 <= yy < y implies (#[trigger] low@[pixel_index(low_width as nat, xx, yy)])
                        as int == box_average(buf, hw, scale_x as nat, scale_y as nat, xx, yy) by {
                    lemma_row_before(low_width as nat, xx, yy, y as int);
                }
                assert forall|xx: int|
                    0 <= xx < x + 1 implies (#[trigger] low@[pixel_index(low_width as nat, xx, y as int)]) as int
                        == box_average(buf, hw, scale_x as nat, scale_y as nat, xx, y as int) by {
                    if xx < x {
                        assert(low@[pixel_index(low_width as nat, xx, y as int)] == before[pixel_index(
                            low_width as nat,
                            xx,
                            y as int,
                        )]);
                    } else {
                        assert(low@[pixel_index(low_width as nat, x as int, y as int)] == value);
                    }
                }
            }
            x += 1;
        }
        assert((y + 1) * low_width == y * low_width + low_width) by (nonlinear_arith);
        assert forall|xx: int, yy: int|
            0 <= xx < low_width && 0 <= yy < y + 1 implies (#[trigger] low@[pixel_index(low_width as nat, xx, yy)])
                as int == box_average(buf, hw, scale_x as nat, scale_y as nat, xx, yy) by {
            if yy == y {
                assert(low@[pixel_index(low_width as nat, xx, y as int)] as int == box_average(buf, hw, scale_x as nat, scale_y as nat, xx, y as int));
            }
        }
        y += 1;
    }
    assert(low@.len() == low_width * low_height) by (nonlinear_arith)
        requires
            low@.len() == y * low_width,
            y == low_height,
    ;
    low
}

/// Pixel `(x, y)` of a row before row `row` has an index before the row's start.
proof fn lemma_row_before(width: nat, x: int, y: int, row: int)
    requires
        0 <= x < width,
        0 <= y < row,
    ensures
        0 <= pixel_index(width, x, y) < row * width,
{
    assert(y * width + x < row * width) by (nonlinear_arith)
        requires
            0 <= x < width,
            0 <= y < row,
    ;
    assert(0 <= y * width) by (nonlinear_arith)
        requires
            0 <= y,
    ;
}

/// The box-filtered value of output pixel `(x, y)`.
fn block_average(
    buf: &Vec<u32>,
    high_width: usize,
    high_height: usize,
    x: usize,
    y: usize,
    scale_x: usize,
    scale_y: usize,
    low_width: usize,
    low_height: usize,
) -> (v: u32)
    requires
        x < low_width,
        y < low_height,
        scale_x * low_width <= high_width,
        scale_y * low_height <= high_height,
        buf@.len() >= high_width * high_height,
        high_width * high_height <= usize::MAX,
        scale_x * scale_y <= usize::MAX,
    ensures
        v as int == box_average(buf@, high_width as nat, scale_x as nat, scale_y as nat, x as int, y as int),
{
    let ghost hw = high_width as nat;
    assert(x * scale_x + scale_x <= high_width) by (nonlinear_arith)
        requires
            x < low_width,
            scale_x * low_width <= high_width,
    ;
    assert(y * scale_y + scale_y <= high_height) by (nonlinear_arith)
        requires
            y < low_height,
            scale_y * low_height <= high_height,
    ;
    let x0: usize = x * scale_x;
    let y0: usize = y * scale_y;
    let mut sums: (u128, u128, u128) = (0, 0, 0);
    let mut dy: usize = 0;
    while dy < scale_y
        invariant
            hw == high_width,
            x0 + scale_x <= high_width,
            y0 + scale_y <= high_height,
            buf@.len() >= high_width * high_height,
            high_width * high_height <= usize::MAX,
            scale_x * scale_y <= usize::MAX,
            dy <= scale_y,
            sums.0 == block_sum(buf@, hw, x0 as int, y0 as int, scale_x as nat, dy as nat, 0),
            sums.1 == block_sum(buf@, hw, x0 as int, y0 as int, scale_x as nat, dy as nat, 1),
            sums.2 == block_sum(buf@, hw, x0 as int, y0 as int, scale_x as nat, dy as nat, 2),
        decreases scale_y - dy,
    {
        let mut dx: usize = 0;
        let hy: usize = y0 + dy;
        while dx < scale_x
            invariant
                hw == high_width,
                x0 + scale_x <= high_width,
                y0 + scale_y <= high_height,
                hy == y0 + dy,
                dy < scale_y,
                buf@.len() >= high_width * high_height,
                high_width * high_height <= usize::MAX,
                scale_x * scale_y <= usize::MAX,
                dx <= scale_x,
                sums.0 == block_sum(buf@, hw, x0 as int, y0 as int, scale_x as nat, dy as nat, 0)
                    + row_sum(buf@, hw, x0 as int, hy as int, dx as nat, 0),
                sums.1 == block_sum(buf@, hw, x0 as int, y0 as int, scale_x as nat, dy as nat, 1)
                    + row_sum(buf@, hw, x0 as int, hy as int, dx as nat, 1),
                sums.2 == block_sum(buf@, hw, x0 as int, y0 as int, scale_x as nat, dy as nat, 2)
                    + row_sum(buf@, hw, x0 as int, hy as int, dx as nat, 2),
            decreases scale_x - dx,
        {
            let hx: usize = x0 + dx;
            proof {
                lemma_index_in_frame(hw, high_height as nat, hx as int, hy as int);
                lemma_block_sum_bounds(buf@, hw, x0 as int, y0 as int, scale_x as nat, dy as nat, 0);
                lemma_block_sum_bounds(buf@, hw, x0 as int, y0 as int, scale_x as nat, dy as nat, 1);
                lemma_block_sum_bounds(buf@, hw, x0 as int, y0 as int, scale_x as nat, dy as nat, 2);
                lemma_row_sum_bounds(buf@, hw, x0 as int, hy as int, dx as nat, 0);
                lemma_row_sum_bounds(buf@, hw, x0 as int, hy as int, dx as nat, 1);
                lemma_row_sum_bounds(buf@, hw, x0 as int, hy as int, dx as nat, 2);
                assert(255 * scale_x * dy + 255 * dx + 255 <= 255 * 0xffff_ffff_ffff_ffff) by (nonlinear_arith)
                    requires
                        dx < scale_x,
                        dy < scale_y,
                        scale_x * scale_y <= 0xffff_ffff_ffff_ffff,
                ;
            }
            let (r, g, b) = channels(buf[hy * high_width + hx]);
            sums = (sums.0 + r as u128, sums.1 + g as u128, sums.2 + b as u128);
            dx += 1;
        }
        dy += 1;
    }
    let count: usize = scale_x * scale_y;
    proof {
        assert(count == scale_x * scale_y);
    }
    if count == 0 {
        return 0;
    }
    proof {
        lemma_block_sum_bounds(buf@, hw, x0 as int, y0 as int, scale_x as nat, scale_y as nat, 0);
        lemma_block_sum_bounds(buf@, hw, x0 as int, y0 as int, scale_x as nat, scale_y as nat, 1);
        lemma_block_sum_bounds(buf@, hw, x0 as int, y0 as int, scale_x as nat, scale_y as nat, 2);
        assert(255 * scale_x * scale_y == 255 * count) by (nonlinear_arith)
            requires
                count == scale_x * scale_y,
        ;
        lemma_mean_bound(sums.0 as int, count as int);
        lemma_mean_bound(sums.1 as int, count as int);
        lemma_mean_bound(sums.2 as int, count as int);
    }
    let r = (sums.0 / count as u128) as u32;
    let g = (sums.1 / count as u128) as u32;
    let b = (sums.2 / count as u128) as u32;
    pack_rgb(r, g, b)
}

/// The mean of `count` values in `0..=255`, rounded down, is in `0..=255`.
proof fn lemma_mean_bound(sum: int, count: int)
    requires
        count > 0,
        0 <= sum <= 255 * count,
    ensures
        0 <= sum / count <= 255,
{
    assert(sum / count <= 255) by (nonlinear_arith)
        requires
            count > 0,
            0 <= sum <= 255 * count,
    ;
    assert(0 <= sum / count) by (nonlinear_arith)
        requires
            count > 0,
            0 <= sum,
    ;
}

} // verus!
