use vstd::prelude::*;
use crate::framebuffer::{FrameView, Framebuffer, lemma_distinct_fragments};

verus! {

/// Screen positions are fixed-point: this many steps make one pixel.
pub const SUBPIXEL: i64 = 256;

/// Offset of a pixel's centre from its corner, in fixed-point steps.
pub const HALF_PIXEL: i64 = 128;

/// A vertex after the vertex stage, in screen space: `x` and `y` in
/// `1 / SUBPIXEL` pixel steps (y grows downwards), `z` a depth where smaller is
/// closer.
#[derive(Clone, Copy, Debug, PartialEq, Eq, Structural)]
pub struct ScreenVertex {
    pub x: i32,
    pub y: i32,
    pub z: u32,
}

/// One covered pixel of a triangle: where, how deep, and in which colour.
#[derive(Clone, Copy, Debug, PartialEq, Eq, Structural)]
pub struct Fragment {
    pub x: usize,
    pub y: usize,
    pub depth: u32,
    pub color: u32,
}

/// The edge function: the signed area spanned by the directed edge `a -> b`
/// and the point `(cx, cy)`, twice over.
pub open spec fn edge(a: ScreenVertex, b: ScreenVertex, cx: int, cy: int) -> int {
    (cx - a.x) * (b.y - a.y) - (cy - a.y) * (b.x - a.x)
}

/// The triangle's own signed area, measured with the edge function.
pub open spec fn signed_area(v0: ScreenVertex, v1: ScreenVertex, v2: ScreenVertex) -> int {
    edge(v0, v1, v2.x as int, v2.y as int)
}

/// Front-facing triangles wind so that the 2D cross product
/// `(v1 - v0) x (v2 - v0)` is positive, that is a negative signed area. A
/// triangle of zero area is degenerate and faces neither way.
pub open spec fn front_facing(v0: ScreenVertex, v1: ScreenVertex, v2: ScreenVertex) -> bool {
    signed_area(v0, v1, v2) < 0
}

/// The fixed-point coordinate of the centre of pixel column (or row) `p`.
pub open spec fn center(p: int) -> int {
    p * (SUBPIXEL as int) + (HALF_PIXEL as int)
}

/// The three edge functions at the centre of pixel `(px, py)`.
pub open spec fn w0(v0: ScreenVertex, v1: ScreenVertex, v2: ScreenVertex, px: int, py: int) -> int {
    edge(v1, v2, center(px), center(py))
}

pub open spec fn w1(v0: ScreenVertex, v1: ScreenVertex, v2: ScreenVertex, px: int, py: int) -> int {
    edge(v2, v0, center(px), center(py))
}

pub open spec fn w2(v0: ScreenVertex, v1: ScreenVertex, v2: ScreenVertex, px: int, py: int) -> int {
    edge(v0, v1, center(px), center(py))
}

/// The fill rule: a front-facing triangle covers a pixel when the pixel's
/// centre lies inside it or on its boundary, that is when all three edge
/// functions there share the sign of the triangle's area (or are zero).
pub open spec fn covers(v0: ScreenVertex, v1: ScreenVertex, v2: ScreenVertex, px: int, py: int) -> bool {
    &&& front_facing(v0, v1, v2)
    &&& w0(v0, v1, v2, px, py) <= 0
    &&& w1(v0, v1, v2, px, py) <= 0
    &&& w2(v0, v1, v2, px, py) <= 0
}

/// The depth at a covered pixel: the vertices' depths weighted by the
/// barycentric weights `w_i / area`, rounded down. (At a covered pixel every
/// `w_i` and the area are at most zero; the negations make both sides of the
/// division non-negative.)
pub open spec fn interpolated_depth(v0: ScreenVertex, v1: ScreenVertex, v2: ScreenVertex, px: int, py: int) -> int {
    ((-w0(v0, v1, v2, px, py)) * v0.z + (-w1(v0, v1, v2, px, py)) * v1.z + (-w2(v0, v1, v2, px, py)) * v2.z)
        / (-signed_area(v0, v1, v2))
}

/// Pixel `(x1, y1)` comes before pixel `(x2, y2)` in scan order: row by row,
/// left to right.
pub open spec fn scan_before(x1: int, y1: int, x2: int, y2: int) -> bool {
    y1 < y2 || (y1 == y2 && x1 < x2)
}

/// `frags` is the rasterization of the triangle in colour `color` on a frame
/// of `width * height` pixels: exactly the covered in-frame pixels, each once,
/// in scan order, each at its interpolated depth.
pub open spec fn is_rasterization(
    frags: Seq<Fragment>,
    v0: ScreenVertex,
    v1: ScreenVertex,
    v2: ScreenVertex,
    color: u32,
    width: nat,
    height: nat,
) -> bool {
    &&& forall|i: int|
        0 <= i < frags.len() ==> {
            &&& (#[trigger] frags[i]).x < width
            &&& frags[i].y < height
            &&& covers(v0, v1, v2, frags[i].x as int, frags[i].y as int)
            &&& frags[i].depth == interpolated_depth(v0, v1, v2, frags[i].x as int, frags[i].y as int)
            &&& frags[i].color == color
        }
    &&& forall|i: int, j: int|
        0 <= i < j < frags.len() ==> scan_before(
            #[trigger] frags[i].x as int,
            frags[i].y as int,
            #[trigger] frags[j].x as int,
            frags[j].y as int,
        )
    &&& forall|px: int, py: int|
        0 <= px < width && 0 <= py < height && #[trigger] covers(v0, v1, v2, px, py) ==> exists|i: int|
            0 <= i < frags.len() && (#[trigger] frags[i]).x == px && frags[i].y == py
}

/// Bounds that keep every product of the edge function inside `i128`.
pub open spec fn coord_ok(c: int) -> bool {
    -0x100_0000_0000 <= c <= 0x100_0000_0000
}

/// Evaluates the edge function of `a -> b` at `(cx, cy)`.
pub fn edge_function(a: ScreenVertex, b: ScreenVertex, cx: i64, cy: i64) -> (r: i128)
    requires
        coord_ok(cx as int),
        coord_ok(cy as int),
    ensures
        r == edge(a, b, cx as int, cy as int),
        -0x400_0000_0000_0000_0000 <= r <= 0x400_0000_0000_0000_0000,
{
    let dx: i128 = cx as i128 - a.x as i128;
    let ey: i128 = b.y as i128 - a.y as i128;
    let dy: i128 = cy as i128 - a.y as i128;
    let ex: i128 = b.x as i128 - a.x as i128;
    assert(-0x200_0000_0000 <= dx <= 0x200_0000_0000);
    assert(-0x200_0000_0000 <= dy <= 0x200_0000_0000);
    assert(-0x1_0000_0000 <= ex <= 0x1_0000_0000);
    assert(-0x1_0000_0000 <= ey <= 0x1_0000_0000);
    assert(-0x200_0000_0000_0000_0000 <= dx * ey <= 0x200_0000_0000_0000_0000) by (nonlinear_arith)
        requires
            -0x200_0000_0000 <= dx <= 0x200_0000_0000,
            -0x1_0000_0000 <= ey <= 0x1_0000_0000,
    ;
    assert(-0x200_0000_0000_0000_0000 <= dy * ex <= 0x200_0000_0000_0000_0000) by (nonlinear_arith)
        requires
            -0x200_0000_0000 <= dy <= 0x200_0000_0000,
            -0x1_0000_0000 <= ex <= 0x1_0000_0000,
    ;
    dx * ey - dy * ex
}

/// The three edge functions at any point add up to the triangle's signed
/// area, and weighting the vertices by them gives the point scaled by that area.
pub proof fn lemma_barycentric(v0: ScreenVertex, v1: ScreenVertex, v2: ScreenVertex, cx: int, cy: int)
    ensures
        edge(v1, v2, cx, cy) + edge(v2, v0, cx, cy) + edge(v0, v1, cx, cy) == signed_area(v0, v1, v2),
        edge(v1, v2, cx, cy) * v0.x + edge(v2, v0, cx, cy) * v1.x + edge(v0, v1, cx, cy) * v2.x
            == signed_area(v0, v1, v2) * cx,
        edge(v1, v2, cx, cy) * v0.y + edge(v2, v0, cx, cy) * v1.y + edge(v0, v1, cx, cy) * v2.y
            == signed_area(v0, v1, v2) * cy,
{
    let (x0, y0) = (v0.x as int, v0.y as int);
    let (ax, ay, bx, by) = (v1.x - x0, v1.y - y0, v2.x - x0, v2.y - y0);
    let (p, q) = (cx - x0, cy - y0);
    let e0 = edge(v1, v2, cx, cy);
    let e1 = edge(v2, v0, cx, cy);
    let e2 = edge(v0, v1, cx, cy);
    let area = signed_area(v0, v1, v2);
    assert(e0 == (p - ax) * (by - ay) - (q - ay) * (bx - ax));
    assert(e1 == (p - bx) * (-by) - (q - by) * (-bx));
    assert(e2 == p * ay - q * ax);
    assert(area == bx * ay - by * ax);
    assert((p - ax) * (by - ay) == p * by - p * ay - ax * by + ax * ay) by (nonlinear_arith);
    assert((q - ay) * (bx - ax) == q * bx - q * ax - ay * bx + ay * ax) by (nonlinear_arith);
    assert((p - bx) * (-by) == bx * by - p * by) by (nonlinear_arith);
    assert((q - by) * (-bx) == bx * by - q * bx) by (nonlinear_arith);
    assert(ax * ay == ay * ax) by (nonlinear_arith);
    assert(e1 == q * bx - p * by);
    assert(e0 + e1 + e2 == area);
    // Weighted sums: with the vertices written as `v0 + (ax, ay)` and
    // `v0 + (bx, by)`, only the terms of `e1` and `e2` remain.
    assert(e1 * ax + e2 * bx == area * p) by (nonlinear_arith)
        requires
            e1 == q * bx - p * by,
            e2 == p * ay - q * ax,
            area == bx * ay - by * ax,
    ;
    assert((q * bx - p * by) * ay == q * bx * ay - p * by * ay) by (nonlinear_arith);
    assert((p * ay - q * ax) * by == p * ay * by - q * ax * by) by (nonlinear_arith);
    assert(p * by * ay == p * ay * by) by (nonlinear_arith);
    assert(q * bx * ay - q * ax * by == (bx * ay - by * ax) * q) by (nonlinear_arith);
    assert(e1 * ay + e2 * by == area * q);
    assert(e0 * x0 + e1 * v1.x + e2 * v2.x == (e0 + e1 + e2) * x0 + e1 * ax + e2 * bx) by (nonlinear_arith)
        requires
            v1.x == x0 + ax,
            v2.x == x0 + bx,
    ;
    assert(e0 * y0 + e1 * v1.y + e2 * v2.y == (e0 + e1 + e2) * y0 + e1 * ay + e2 * by) by (nonlinear_arith)
        requires
            v1.y == y0 + ay,
            v2.y == y0 + by,
    ;
    assert(area * x0 + area * p == area * cx) by (nonlinear_arith)
        requires
            p == cx - x0,
    ;
    assert(area * y0 + area * q == area * cy) by (nonlinear_arith)
        requires
            q == cy - y0,
    ;
}

/// A convex combination with non-negative integer weights `b_i` summing to
/// `a > 0` lies between the smallest and the largest of the `p_i`.
proof fn lemma_weighted_between(b0: int, b1: int, b2: int, p0: int, p1: int, p2: int, a: int, q: int, lo: int, hi: int)
    requires
        b0 >= 0,
        b1 >= 0,
        b2 >= 0,
        b0 + b1 + b2 == a,
        a > 0,
        b0 * p0 + b1 * p1 + b2 * p2 == a * q,
        lo <= p0 <= hi,
        lo <= p1 <= hi,
        lo <= p2 <= hi,
    ensures
        lo <= q <= hi,
{
    assert(b0 * lo + b1 * lo + b2 * lo <= b0 * p0 + b1 * p1 + b2 * p2) by (nonlinear_arith)
        requires
            b0 >= 0,
            b1 >= 0,
            b2 >= 0,
            lo <= p0,
            lo <= p1,
            lo <= p2,
    ;
    assert(b0 * p0 + b1 * p1 + b2 * p2 <= b0 * hi + b1 * hi + b2 * hi) by (nonlinear_arith)
        requires
            b0 >= 0,
            b1 >= 0,
            b2 >= 0,
            p0 <= hi,
            p1 <= hi,
            p2 <= hi,
    ;
    assert(b0 * lo + b1 * lo + b2 * lo == a * lo) by (nonlinear_arith)
        requires
            b0 + b1 + b2 == a,
    ;
    assert(b0 * hi + b1 * hi + b2 * hi == a * hi) by (nonlinear_arith)
        requires
            b0 + b1 + b2 == a,
    ;
    assert(lo <= q) by (nonlinear_arith)
        requires
            a * lo <= a * q,
            a > 0,
    ;
    assert(q <= hi) by (nonlinear_arith)
        requires
            a * q <= a * hi,
            a > 0,
    ;
}

pub open spec fn min3(a: int, b: int, c: int) -> int {
    if a <= b && a <= c {
        a
    } else if b <= c {
        b
    } else {
        c
    }
}

pub open spec fn max3(a: int, b: int, c: int) -> int {
    if a >= b && a >= c {
        a
    } else if b >= c {
        b
    } else {
        c
    }
}

/// The centre of a covered pixel lies in the triangle's bounding box.
pub proof fn lemma_covered_in_box(v0: ScreenVertex, v1: ScreenVertex, v2: ScreenVertex, px: int, py: int)
    requires
        covers(v0, v1, v2, px, py),
    ensures
        min3(v0.x as int, v1.x as int, v2.x as int) <= center(px) <= max3(v0.x as int, v1.x as int, v2.x as int),
        min3(v0.y as int, v1.y as int, v2.y as int) <= center(py) <= max3(v0.y as int, v1.y as int, v2.y as int),
{
    let (cx, cy) = (center(px), center(py));
    lemma_barycentric(v0, v1, v2, cx, cy);
    let (b0, b1, b2) = (-edge(v1, v2, cx, cy), -edge(v2, v0, cx, cy), -edge(v0, v1, cx, cy));
    let a = -signed_area(v0, v1, v2);
    assert(b0 * v0.x + b1 * v1.x + b2 * v2.x == a * cx) by (nonlinear_arith)
        requires
            edge(v1, v2, cx, cy) * v0.x + edge(v2, v0, cx, cy) * v1.x + edge(v0, v1, cx, cy) * v2.x
                == signed_area(v0, v1, v2) * cx,
            b0 == -edge(v1, v2, cx, cy),
            b1 == -edge(v2, v0, cx, cy),
            b2 == -edge(v0, v1, cx, cy),
            a == -signed_area(v0, v1, v2),
    ;
    assert(b0 * v0.y + b1 * v1.y + b2 * v2.y == a * cy) by (nonlinear_arith)
        requires
            edge(v1, v2, cx, cy) * v0.y + edge(v2, v0, cx, cy) * v1.y + edge(v0, v1, cx, cy) * v2.y
                == signed_area(v0, v1, v2) * cy,
            b0 == -edge(v1, v2, cx, cy),
            b1 == -edge(v2, v0, cx, cy),
            b2 == -edge(v0, v1, cx, cy),
            a == -signed_area(v0, v1, v2),
    ;
    lemma_weighted_between(
        b0, b1, b2, v0.x as int, v1.x as int, v2.x as int, a, cx,
        min3(v0.x as int, v1.x as int, v2.x as int), max3(v0.x as int, v1.x as int, v2.x as int),
    );
    lemma_weighted_between(
        b0, b1, b2, v0.y as int, v1.y as int, v2.y as int, a, cy,
        min3(v0.y as int, v1.y as int, v2.y as int), max3(v0.y as int, v1.y as int, v2.y as int),
    );
}

/// The interpolated depth of a covered pixel lies between the smallest and
/// the largest vertex depth.
pub proof fn lemma_depth_between(v0: ScreenVertex, v1: ScreenVertex, v2: ScreenVertex, px: int, py: int)
    requires
        covers(v0, v1, v2, px, py),
    ensures
        min3(v0.z as int, v1.z as int, v2.z as int) <= interpolated_depth(v0, v1, v2, px, py)
            <= max3(v0.z as int, v1.z as int, v2.z as int),
{
    let (cx, cy) = (center(px), center(py));
    lemma_barycentric(v0, v1, v2, cx, cy);
    let (b0, b1, b2) = (-w0(v0, v1, v2, px, py), -w1(v0, v1, v2, px, py), -w2(v0, v1, v2, px, py));
    let a = -signed_area(v0, v1, v2);
    let n = b0 * v0.z + b1 * v1.z + b2 * v2.z;
    let q = n / a;
    let lo = min3(v0.z as int, v1.z as int, v2.z as int);
    let hi = max3(v0.z as int, v1.z as int, v2.z as int);
    assert(b0 * lo + b1 * lo + b2 * lo <= n <= b0 * hi + b1 * hi + b2 * hi) by (nonlinear_arith)
        requires
            b0 >= 0,
            b1 >= 0,
            b2 >= 0,
            lo <= v0.z <= hi,
            lo <= v1.z <= hi,
            lo <= v2.z <= hi,
            n == b0 * v0.z + b1 * v1.z + b2 * v2.z,
    ;
    assert(b0 * lo + b1 * lo + b2 * lo == a * lo) by (nonlinear_arith)
        requires
            b0 + b1 + b2 == a,
    ;
    assert(b0 * hi + b1 * hi + b2 * hi == a * hi) by (nonlinear_arith)
        requires
            b0 + b1 + b2 == a,
    ;
    assert(lo <= q <= hi) by (nonlinear_arith)
        requires
            a * lo <= n <= a * hi,
            a > 0,
            q == n / a,
    ;
}

/// A pixel whose centre is at or right of `lo >= 0` lies at or right of
/// column `lo / SUBPIXEL`; one whose centre is at or left of `hi` lies left of
/// column `hi / SUBPIXEL + 1`.
proof fn lemma_pixel_range(p: int, lo: int, hi: int)
    requires
        p >= 0,
        center(p) <= hi,
    ensures
        lo >= 0 && lo <= center(p) ==> lo / (SUBPIXEL as int) <= p,
        p < hi / (SUBPIXEL as int) + 1,
{
    assert(lo >= 0 && lo <= p * 256 + 128 ==> lo / 256 <= p) by (nonlinear_arith);
    assert(p * 256 + 128 <= hi ==> p < hi / 256 + 1) by (nonlinear_arith);
}

fn min3_i32(a: i32, b: i32, c: i32) -> (m: i32)
    ensures
        m == min3(a as int, b as int, c as int),
{
    if a <= b && a <= c {
        a
    } else if b <= c {
        b
    } else {
        c
    }
}

fn max3_i32(a: i32, b: i32, c: i32) -> (m: i32)
    ensures
        m == max3(a as int, b as int, c as int),
{
    if a >= b && a >= c {
        a
    } else if b >= c {
        b
    } else {
        c
    }
}

/// First and one-past-last pixel column (or row) whose centre can fall inside
/// `[lo, hi]`, clipped to `[0, limit)`. The range may be empty.
fn pixel_span(lo: i32, hi: i32, limit: usize) -> (r: (usize, usize))
    requires
        lo <= hi,
    ensures
        r.1 <= limit || r.1 == r.0,
        r.0 <= r.1,
        r.0 < r.1 ==> r.1 as int <= hi as int / (SUBPIXEL as int) + 1,
        forall|p: int|
            0 <= p < limit && lo <= #[trigger] center(p) <= hi ==> r.0 <= p < r.1,
{
    if hi < 0 {
        assert forall|p: int| 0 <= p < limit && lo <= #[trigger] center(p) <= hi implies false by {}
        return (0, 0);
    }
    let start: usize = if lo < 0 { 0 } else { (lo as i64 / SUBPIXEL) as usize };
    let past: usize = (hi as i64 / SUBPIXEL) as usize + 1;
    let end: usize = if past < limit { past } else { limit };
    let end: usize = if end < start { start } else { end };
    assert forall|p: int| 0 <= p < limit && lo <= #[trigger] center(p) <= hi implies start <= p < end by {
        lemma_pixel_range(p, lo as int, hi as int);
    }
    (start, end)
}

/// `frags` rasterizes the triangle as far as scan position `(x, y)`: it holds
/// exactly the covered in-frame pixels that come before it, in scan order.
spec fn is_rasterization_prefix(
    frags: Seq<Fragment>,
    v0: ScreenVertex,
    v1: ScreenVertex,
    v2: ScreenVertex,
    color: u32,
    width: nat,
    height: nat,
    x: int,
    y: int,
) -> bool {
    &&& forall|i: int|
        0 <= i < frags.len() ==> {
            &&& (#[trigger] frags[i]).x < width
            &&& frags[i].y < height
            &&& covers(v0, v1, v2, frags[i].x as int, frags[i].y as int)
            &&& frags[i].depth == interpolated_depth(v0, v1, v2, frags[i].x as int, frags[i].y as int)
            &&& frags[i].color == color
            &&& scan_before(frags[i].x as int, frags[i].y as int, x, y)
        }
    &&& forall|i: int, j: int|
        0 <= i < j < frags.len() ==> scan_before(
            #[trigger] frags[i].x as int,
            frags[i].y as int,
            #[trigger] frags[j].x as int,
            frags[j].y as int,
        )
    &&& forall|px: int, py: int|
        0 <= px < width && 0 <= py < height && #[trigger] covers(v0, v1, v2, px, py) && scan_before(px, py, x, y)
            ==> exists|i: int| 0 <= i < frags.len() && (#[trigger] frags[i]).x == px && frags[i].y == py
}

proof fn lemma_prefix_start(
    frags: Seq<Fragment>,
    v0: ScreenVertex,
    v1: ScreenVertex,
    v2: ScreenVertex,
    color: u32,
    width: nat,
    height: nat,
    y: int,
)
    requires
        frags.len() == 0,
        forall|px: int, py: int|
            0 <= px < width && 0 <= py < height && #[trigger] covers(v0, v1, v2, px, py) ==> y <= py,
    ensures
        is_rasterization_prefix(frags, v0, v1, v2, color, width, height, 0, y),
{
}

proof fn lemma_prefix_push(
    before: Seq<Fragment>,
    after: Seq<Fragment>,
    frag: Fragment,
    v0: ScreenVertex,
    v1: ScreenVertex,
    v2: ScreenVertex,
    color: u32,
    width: nat,
    height: nat,
)
    requires
        is_rasterization_prefix(before, v0, v1, v2, color, width, height, frag.x as int, frag.y as int),
        after == before.push(frag),
        frag.x < width,
        frag.y < height,
        covers(v0, v1, v2, frag.x as int, frag.y as int),
        frag.depth == interpolated_depth(v0, v1, v2, frag.x as int, frag.y as int),
        frag.color == color,
    ensures
        is_rasterization_prefix(after, v0, v1, v2, color, width, height, frag.x + 1, frag.y as int),
{
    let n = before.len() as int;
    assert(after[n] == frag);
    assert forall|i: int| 0 <= i < n implies #[trigger] after[i] == before[i] by {}
    assert forall|px: int, py: int|
        0 <= px < width && 0 <= py < height && #[trigger] covers(v0, v1, v2, px, py) && scan_before(
            px,
            py,
            frag.x + 1,
            frag.y as int,
        ) implies exists|i: int| 0 <= i < after.len() && (#[trigger] after[i]).x == px && after[i].y == py by {
        if px == frag.x && py == frag.y {
            assert(after[n].x == px && after[n].y == py);
        } else {
            assert(scan_before(px, py, frag.x as int, frag.y as int));
            let i = choose|i: int| 0 <= i < before.len() && (#[trigger] before[i]).x == px && before[i].y == py;
            assert(after[i].x == px && after[i].y == py);
        }
    }
}

proof fn lemma_prefix_advance(
    frags: Seq<Fragment>,
    v0: ScreenVertex,
    v1: ScreenVertex,
    v2: ScreenVertex,
    color: u32,
    width: nat,
    height: nat,
    x: int,
    x2: int,
    y: int,
)
    requires
        is_rasterization_prefix(frags, v0, v1, v2, color, width, height, x, y),
        x <= x2,
        forall|px: int| x <= px < x2 && 0 <= px < width && 0 <= y < height ==> !#[trigger] covers(v0, v1, v2, px, y),
    ensures
        is_rasterization_prefix(frags, v0, v1, v2, color, width, height, x2, y),
{
    assert forall|px: int, py: int|
        0 <= px < width && 0 <= py < height && #[trigger] covers(v0, v1, v2, px, py) && scan_before(px, py, x2, y)
        implies exists|i: int| 0 <= i < frags.len() && (#[trigger] frags[i]).x == px && frags[i].y == py by {
        if py == y && px >= x {
            assert(!covers(v0, v1, v2, px, y));
        }
    }
}

proof fn lemma_prefix_next_row(
    frags: Seq<Fragment>,
    v0: ScreenVertex,
    v1: ScreenVertex,
    v2: ScreenVertex,
    color: u32,
    width: nat,
    height: nat,
    x: int,
    y: int,
)
    requires
        is_rasterization_prefix(frags, v0, v1, v2, color, width, height, x, y),
        forall|px: int| x <= px < width && 0 <= y < height ==> !#[trigger] covers(v0, v1, v2, px, y),
    ensures
        is_rasterization_prefix(frags, v0, v1, v2, color, width, height, 0, y + 1),
{
    assert forall|px: int, py: int|
        0 <= px < width && 0 <= py < height && #[trigger] covers(v0, v1, v2, px, py) && scan_before(px, py, 0, y + 1)
        implies exists|i: int| 0 <= i < frags.len() && (#[trigger] frags[i]).x == px && frags[i].y == py by {
        if py == y && px >= x {
            assert(!covers(v0, v1, v2, px, y));
        }
    }
}

proof fn lemma_prefix_done(
    frags: Seq<Fragment>,
    v0: ScreenVertex,
    v1: ScreenVertex,
    v2: ScreenVertex,
    color: u32,
    width: nat,
    height: nat,
    y: int,
)
    requires
        is_rasterization_prefix(frags, v0, v1, v2, color, width, height, 0, y),
        forall|px: int, py: int|
            0 <= px < width && 0 <= py < height && #[trigger] covers(v0, v1, v2, px, py) ==> py < y,
    ensures
        is_rasterization(frags, v0, v1, v2, color, width, height),
{
}

/// `(b0 * z0 + b1 * z1 + b2 * z2) / a` for weights `b_i >= 0` that add up to `a`.
fn interpolate_depth(b0: i128, b1: i128, b2: i128, a: i128, z0: u32, z1: u32, z2: u32) -> (d: u32)
    requires
        b0 >= 0,
        b1 >= 0,
        b2 >= 0,
        b0 + b1 + b2 == a,
        0 < a <= 0x800_0000_0000_0000_0000,
    ensures
        d as int == (b0 * z0 + b1 * z1 + b2 * z2) / (a as int),
{
    assert(b0 * z0 <= b0 * 0xffff_ffff) by (nonlinear_arith)
        requires
            0 <= b0,
            z0 <= 0xffff_ffff,
    ;
    assert(b1 * z1 <= b1 * 0xffff_ffff) by (nonlinear_arith)
        requires
            0 <= b1,
            z1 <= 0xffff_ffff,
    ;
    assert(b2 * z2 <= b2 * 0xffff_ffff) by (nonlinear_arith)
        requires
            0 <= b2,
            z2 <= 0xffff_ffff,
    ;
    assert(0 <= b0 * z0 && 0 <= b1 * z1 && 0 <= b2 * z2) by (nonlinear_arith)
        requires
            b0 >= 0,
            b1 >= 0,
            b2 >= 0,
    ;
    assert(b0 * z0 + b1 * z1 + b2 * z2 <= a * 0xffff_ffff) by (nonlinear_arith)
        requires
            b0 * z0 <= b0 * 0xffff_ffff,
            b1 * z1 <= b1 * 0xffff_ffff,
            b2 * z2 <= b2 * 0xffff_ffff,
            b0 + b1 + b2 == a,
    ;
    let n: i128 = b0 * (z0 as i128) + b1 * (z1 as i128) + b2 * (z2 as i128);
    assert(n / a <= 0xffff_ffff) by (nonlinear_arith)
        requires
            0 <= n <= a * 0xffff_ffff,
            a > 0,
    ;
    (n / a) as u32
}

/// Rasterizes one triangle in a single colour on a frame of `width * height`
/// pixels: the fragments of exactly the covered in-frame pixels, in scan
/// order, each at its interpolated depth. A back-facing or degenerate triangle
/// gives none.
pub fn rasterize_triangle(
    v0: ScreenVertex,
    v1: ScreenVertex,
    v2: ScreenVertex,
    color: u32,
    width: usize,
    height: usize,
) -> (frags: Vec<Fragment>)
    ensures
        is_rasterization(frags@, v0, v1, v2, color, width as nat, height as nat),
        !front_facing(v0, v1, v2) ==> frags@.len() == 0,
{
    let mut frags: Vec<Fragment> = Vec::new();
    let area = edge_function(v0, v1, v2.x as i64, v2.y as i64);
    if area >= 0 {
        return frags;
    }
    let min_x = min3_i32(v0.x, v1.x, v2.x);
    let max_x = max3_i32(v0.x, v1.x, v2.x);
    let min_y = min3_i32(v0.y, v1.y, v2.y);
    let max_y = max3_i32(v0.y, v1.y, v2.y);
    let (x_start, x_end) = pixel_span(min_x, max_x, width);
    let (y_start, y_end) = pixel_span(min_y, max_y, height);
    proof {
        assert forall|px: int, py: int|
            0 <= px < width && 0 <= py < height && #[trigger] covers(v0, v1, v2, px, py) implies x_start
            <= px < x_end && y_start <= py < y_end by {
            lemma_covered_in_box(v0, v1, v2, px, py);
            assert(min_x <= center(px) <= max_x);
            assert(min_y <= center(py) <= max_y);
        }
    }
    let a: i128 = -area;
    let mut y: usize = y_start;
    proof {
        lemma_prefix_start(frags@, v0, v1, v2, color, width as nat, height as nat, y_start as int);
    }
    while y < y_end
        invariant
            y_start <= y,
            y <= y_end || y == y_start,
            y_end <= height || y_end == y_start,
            x_start <= x_end,
            x_end <= width || x_end == x_start,
            x_start < x_end ==> x_end as int <= max_x as int / (SUBPIXEL as int) + 1,
            y_start < y_end ==> y_end as int <= max_y as int / (SUBPIXEL as int) + 1,
            a == -signed_area(v0, v1, v2),
            0 < a <= 0x400_0000_0000_0000_0000,
            forall|px: int, py: int|
                0 <= px < width && 0 <= py < height && #[trigger] covers(v0, v1, v2, px, py) ==> x_start
                    <= px < x_end && y_start <= py < y_end,
            is_rasterization_prefix(frags@, v0, v1, v2, color, width as nat, height as nat, 0, y as int),
        decreases y_end - y,
    {
        let mut x: usize = x_start;
        proof {
            lemma_prefix_advance(frags@, v0, v1, v2, color, width as nat, height as nat, 0, x_start as int, y as int);
        }
        while x < x_end
            invariant
                y_start <= y < y_end,
                y < height,
                x_start <= x,
                x <= x_end,
                x_end <= width || x_end == x_start,
                x_start < x_end ==> x_end as int <= max_x as int / (SUBPIXEL as int) + 1,
                y_end as int <= max_y as int / (SUBPIXEL as int) + 1,
                a == -signed_area(v0, v1, v2),
                0 < a <= 0x400_0000_0000_0000_0000,
                forall|px: int, py: int|
                    0 <= px < width && 0 <= py < height && #[trigger] covers(v0, v1, v2, px, py) ==> x_start
                        <= px < x_end && y_start <= py < y_end,
                is_rasterization_prefix(frags@, v0, v1, v2, color, width as nat, height as nat, x as int, y as int),
            decreases x_end - x,
        {
            assert(x < width);
            let cx: i64 = x as i64 * SUBPIXEL + HALF_PIXEL;
            let cy: i64 = y as i64 * SUBPIXEL + HALF_PIXEL;
            let e0 = edge_function(v1, v2, cx, cy);
            let e1 = edge_function(v2, v0, cx, cy);
            let e2 = edge_function(v0, v1, cx, cy);
            if e0 <= 0 && e1 <= 0 && e2 <= 0 {
                proof {
                    lemma_barycentric(v0, v1, v2, cx as int, cy as int);
                    lemma_depth_between(v0, v1, v2, x as int, y as int);
                }
                let depth = interpolate_depth(-e0, -e1, -e2, a, v0.z, v1.z, v2.z);
                let ghost before = frags@;
                let frag = Fragment { x, y, depth, color };
                frags.push(frag);
                proof {
                    lemma_prefix_push(before, frags@, frag, v0, v1, v2, color, width as nat, height as nat);
                }
            } else {
                proof {
                    lemma_prefix_advance(frags@, v0, v1, v2, color, width as nat, height as nat, x as int, x + 1, y as int);
                }
            }
            x += 1;
        }
        proof {
            lemma_prefix_next_row(frags@, v0, v1, v2, color, width as nat, height as nat, x as int, y as int);
        }
        y += 1;
    }
    proof {
        lemma_prefix_done(frags@, v0, v1, v2, color, width as nat, height as nat, y as int);
    }
    frags
}

/// `new` is `old` after the triangle was filled in colour `color` with the
/// depth test: a covered pixel whose interpolated depth is strictly less than
/// the depth it held takes the colour and that depth; every other pixel, and
/// everything else about the frame, is unchanged.
pub open spec fn triangle_drawn(
    old: FrameView,
    new: FrameView,
    v0: ScreenVertex,
    v1: ScreenVertex,
    v2: ScreenVertex,
    color: u32,
) -> bool {
    &&& new.wf()
    &&& new.width == old.width
    &&& new.height == old.height
    &&& new.background == old.background
    &&& new.current == old.current
    &&& forall|px: int, py: int|
        #[trigger] old.in_bounds(px, py) ==> if covers(v0, v1, v2, px, py) && interpolated_depth(v0, v1, v2, px, py)
            < old.depth_at(px, py) {
            new.color_at(px, py) == color && new.depth_at(px, py) == interpolated_depth(v0, v1, v2, px, py)
        } else {
            new.color_at(px, py) == old.color_at(px, py) && new.depth_at(px, py) == old.depth_at(px, py)
        }
}

/// Fills one triangle in a single colour, with the depth test.
pub fn triangle_filled(fb: &mut Framebuffer, v0: ScreenVertex, v1: ScreenVertex, v2: ScreenVertex, color: u32)
    requires
        old(fb).wf(),
    ensures
        final(fb).wf(),
        triangle_drawn(old(fb)@, final(fb)@, v0, v1, v2, color),
{
    let frags = rasterize_triangle(v0, v1, v2, color, fb.width(), fb.height());
    let ghost before = fb@;
    proof {
        fb.lemma_wf();
    }
    fb.apply_fragments(&frags);
    proof {
        let fs = frags@;
        assert forall|k: int, l: int| 0 <= k < l < fs.len() implies (#[trigger] fs[k]).x != (#[trigger] fs[l]).x
            || fs[k].y != fs[l].y by {
            assert(scan_before(fs[k].x as int, fs[k].y as int, fs[l].x as int, fs[l].y as int));
        }
        assert forall|k: int| 0 <= k < fs.len() implies before.in_bounds((#[trigger] fs[k]).x as int, fs[k].y as int) by {}
        lemma_distinct_fragments(before, fs);
        let w = fb@;
        assert forall|px: int, py: int| #[trigger] before.in_bounds(px, py) implies if covers(v0, v1, v2, px, py)
            && interpolated_depth(v0, v1, v2, px, py) < before.depth_at(px, py) {
            w.color_at(px, py) == color && w.depth_at(px, py) == interpolated_depth(v0, v1, v2, px, py)
        } else {
            w.color_at(px, py) == before.color_at(px, py) && w.depth_at(px, py) == before.depth_at(px, py)
        } by {
            if covers(v0, v1, v2, px, py) {
                let k = choose|k: int| 0 <= k < fs.len() && (#[trigger] fs[k]).x == px && fs[k].y == py;
                assert(fs[k].x == px && fs[k].y == py);
            } else {
                assert forall|k: int| 0 <= k < fs.len() implies (#[trigger] fs[k]).x != px || fs[k].y != py by {}
            }
        }
    }
}

/// The first-vertex indices of the front-facing triangles among the first
/// `n` triangles of a vertex stream read three vertices at a time, in order.
pub open spec fn front_triangle_starts(verts: Seq<ScreenVertex>, n: nat) -> Seq<usize>
    decreases n,
{
    if n == 0 {
        seq![]
    } else {
        let prev = front_triangle_starts(verts, (n - 1) as nat);
        let i = 3 * (n - 1);
        if front_facing(verts[i], verts[i + 1], verts[i + 2]) {
            prev.push(i as usize)
        } else {
            prev
        }
    }
}

/// Swapping two vertices reverses the winding: a front-facing triangle
/// becomes back-facing.
pub proof fn lemma_swap_reverses_winding(v0: ScreenVertex, v1: ScreenVertex, v2: ScreenVertex)
    ensures
        signed_area(v0, v2, v1) == -signed_area(v0, v1, v2),
        front_facing(v0, v1, v2) ==> !front_facing(v0, v2, v1),
{
    assert(signed_area(v0, v2, v1) == -signed_area(v0, v1, v2)) by (nonlinear_arith);
}

/// A triangle that does not face the front contributes nothing: it covers
/// no pixel, so its rasterization is empty, and primitive assembly drops it.
pub proof fn lemma_back_facing_culled(verts: Seq<ScreenVertex>, t: int)
    requires
        0 <= t,
        3 * t + 2 < verts.len(),
        verts.len() <= usize::MAX,
        !front_facing(verts[3 * t], verts[3 * t + 1], verts[3 * t + 2]),
    ensures
        forall|px: int, py: int| !#[trigger] covers(verts[3 * t], verts[3 * t + 1], verts[3 * t + 2], px, py),
        forall|k: int|
            0 <= k < front_triangle_starts(verts, verts.len() / 3).len() ==> #[trigger] front_triangle_starts(
                verts,
                verts.len() / 3,
            )[k] != 3 * t,
{
    lemma_starts_skip(verts, t, verts.len() / 3);
}

proof fn lemma_starts_skip(verts: Seq<ScreenVertex>, t: int, n: nat)
    requires
        3 * n <= usize::MAX,
        !front_facing(verts[3 * t], verts[3 * t + 1], verts[3 * t + 2]),
    ensures
        forall|k: int|
            0 <= k < front_triangle_starts(verts, n).len() ==> #[trigger] front_triangle_starts(verts, n)[k] != 3 * t,
    decreases n,
{
    if n > 0 {
        lemma_starts_skip(verts, t, (n - 1) as nat);
        let prev = front_triangle_starts(verts, (n - 1) as nat);
        let cur = front_triangle_starts(verts, n);
        assert forall|k: int| 0 <= k < cur.len() implies #[trigger] cur[k] != 3 * t by {
            if k < prev.len() {
                assert(cur[k] == prev[k]);
            } else {
                assert(cur[k] as int == 3 * (n - 1));
            }
        }
    }
}

/// Primitive assembly: groups the vertex stream into triangles, three
/// vertices at a time (a trailing incomplete group is dropped), and keeps the
/// first-vertex index of each front-facing one, in order. Back-facing and
/// degenerate triangles are culled.
pub fn assemble_triangles(verts: &Vec<ScreenVertex>) -> (starts: Vec<usize>)
    ensures
        starts@ == front_triangle_starts(verts@, verts@.len() / 3),
        forall|k: int|
            0 <= k < starts@.len() ==> {
                let i = #[trigger] starts@[k] as int;
                &&& i % 3 == 0
                &&& i + 2 < verts@.len()
                &&& front_facing(verts@[i], verts@[i + 1], verts@[i + 2])
            },
{
    let mut starts: Vec<usize> = Vec::new();
    let mut t: usize = 0;
    let len: usize = verts.len();
    let count: usize = len / 3;
    while t < count
        invariant
            len == verts@.len(),
            count == verts@.len() / 3,
            t <= count,
            starts@ == front_triangle_starts(verts@, t as nat),
            forall|k: int|
                0 <= k < starts@.len() ==> {
                    let i = #[trigger] starts@[k] as int;
                    &&& i % 3 == 0
                    &&& i + 2 < verts@.len()
                    &&& front_facing(verts@[i], verts@[i + 1], verts@[i + 2])
                },
        decreases count - t,
    {
        assert(3 * t + 2 < len) by (nonlinear_arith)
            requires
                t < count,
                count == len / 3,
        ;
        let i: usize = 3 * t;
        let (a, b, c) = (verts[i], verts[i + 1], verts[i + 2]);
        if edge_function(a, b, c.x as i64, c.y as i64) < 0 {
            starts.push(i);
        }
        t += 1;
    }
    starts
}

/// The pixel column (or row) that holds fixed-point coordinate `c`.
pub open spec fn pixel_of(c: int) -> int {
    c / (SUBPIXEL as int)
}

/// `i * d / steps` rounded to the nearest integer, halves away from zero.
pub open spec fn line_offset(i: int, d: int, steps: int) -> int {
    if steps <= 0 {
        0
    } else if d >= 0 {
        (2 * i * d + steps) / (2 * steps)
    } else {
        -((2 * i * (-d) + steps) / (2 * steps))
    }
}

pub open spec fn abs(d: int) -> int {
    if d < 0 {
        -d
    } else {
        d
    }
}

/// The number of steps of the segment between pixels `(x0, y0)` and
/// `(x1, y1)`: the larger of its horizontal and vertical extents.
pub open spec fn line_steps(x0: int, y0: int, x1: int, y1: int) -> int {
    if abs(x1 - x0) >= abs(y1 - y0) {
        abs(x1 - x0)
    } else {
        abs(y1 - y0)
    }
}

/// Pixel `(px, py)` lies on the segment from `(x0, y0)` to `(x1, y1)`: it is
/// one of its `steps + 1` evenly spaced samples, each rounded to the nearest
/// pixel.
pub open spec fn on_line(x0: int, y0: int, x1: int, y1: int, px: int, py: int) -> bool {
    let steps = line_steps(x0, y0, x1, y1);
    exists|i: int|
        0 <= i <= steps && x0 + line_offset(i, x1 - x0, steps) == px && y0 + #[trigger] line_offset(i, y1 - y0, steps)
            == py
}

/// `new` is `old` with the segment from pixel `(x0, y0)` to pixel `(x1, y1)`
/// drawn in the current colour, without the depth test: the pixels of the
/// segment inside the frame take the current colour, nothing else changes.
pub open spec fn line_drawn(old: FrameView, new: FrameView, x0: int, y0: int, x1: int, y1: int) -> bool {
    &&& new.wf()
    &&& new.width == old.width
    &&& new.height == old.height
    &&& new.background == old.background
    &&& new.current == old.current
    &&& new.depths == old.depths
    &&& forall|px: int, py: int|
        #[trigger] old.in_bounds(px, py) ==> new.color_at(px, py) == if on_line(x0, y0, x1, y1, px, py) {
            old.current
        } else {
            old.color_at(px, py)
        }
}

/// `floor(c / SUBPIXEL)`.
fn pixel_of_coord(c: i32) -> (p: i64)
    ensures
        p == pixel_of(c as int),
{
    if c >= 0 {
        c as i64 / SUBPIXEL
    } else {
        let q: i64 = (-(c as i64) + (SUBPIXEL - 1)) / SUBPIXEL;
        assert(-q == (c as int) / 256) by (nonlinear_arith)
            requires
                c < 0,
                q == (-(c as int) + 255) / 256,
        ;
        -q
    }
}

fn offset_at(i: i64, d: i64, steps: i64) -> (r: i64)
    requires
        0 <= i <= steps,
        abs(d as int) <= steps,
        steps <= 0x200_0000,
    ensures
        r == line_offset(i as int, d as int, steps as int),
        abs(r as int) <= steps,
{
    if steps == 0 {
        return 0;
    }
    let m: i64 = if d >= 0 { d } else { -d };
    assert(2 * i * m + steps <= 3 * 0x200_0000 * 0x200_0000) by (nonlinear_arith)
        requires
            0 <= i <= steps,
            0 <= m <= steps,
            steps <= 0x200_0000,
    ;
    assert(0 <= 2 * i * m) by (nonlinear_arith)
        requires
            0 <= i,
            0 <= m,
    ;
    let q: i64 = (2 * i * m + steps) / (2 * steps);
    assert(q <= steps) by (nonlinear_arith)
        requires
            0 <= i <= steps,
            0 <= m <= steps,
            steps > 0,
            q == (2 * i * m + steps) / (2 * steps),
    ;
    assert(0 <= q) by (nonlinear_arith)
        requires
            0 <= 2 * i * m,
            steps > 0,
            q == (2 * i * m + steps) / (2 * steps),
    ;
    if d >= 0 {
        q
    } else {
        -q
    }
}

/// Draws the segment between the pixels that hold `a` and `b` in the current
/// colour, bypassing the depth test; its pixels outside the frame are skipped.
pub fn draw_line(fb: &mut Framebuffer, a: ScreenVertex, b: ScreenVertex)
    requires
        old(fb).wf(),
    ensures
        final(fb).wf(),
        line_drawn(
            old(fb)@,
            final(fb)@,
            pixel_of(a.x as int),
            pixel_of(a.y as int),
            pixel_of(b.x as int),
            pixel_of(b.y as int),
        ),
{
    let ghost start = fb@;
    let x0 = pixel_of_coord(a.x);
    let y0 = pixel_of_coord(a.y);
    let x1 = pixel_of_coord(b.x);
    let y1 = pixel_of_coord(b.y);
    let dx: i64 = x1 - x0;
    let dy: i64 = y1 - y0;
    let adx: i64 = if dx < 0 { -dx } else { dx };
    let ady: i64 = if dy < 0 { -dy } else { dy };
    let steps: i64 = if adx >= ady { adx } else { ady };
    let ghost (gx0, gy0, gx1, gy1) = (x0 as int, y0 as int, x1 as int, y1 as int);
    assert(steps == line_steps(gx0, gy0, gx1, gy1));
    proof {
        fb.lemma_wf();
    }
    let mut i: i64 = 0;
    while i <= steps
        invariant
            fb.wf(),
            fb@.wf(),
            0 <= i <= steps + 1,
            steps == line_steps(gx0, gy0, gx1, gy1),
            steps <= 0x200_0000,
            dx == gx1 - gx0,
            dy == gy1 - gy0,
            x0 == gx0,
            y0 == gy0,
            abs(dx as int) <= steps,
            abs(dy as int) <= steps,
            -0x100_0000 <= x0 <= 0x100_0000,
            -0x100_0000 <= y0 <= 0x100_0000,
            fb@.width == start.width,
            fb@.height == start.height,
            fb@.background == start.background,
            fb@.current == start.current,
            fb@.depths == start.depths,
            forall|px: int, py: int|
                #[trigger] start.in_bounds(px, py) ==> fb@.color_at(px, py) == if exists|j: int|
                    0 <= j < i && gx0 + line_offset(j, dx as int, steps as int) == px && gy0 + #[trigger] line_offset(
                        j,
                        dy as int,
                        steps as int,
                    ) == py {
                    start.current
                } else {
                    start.color_at(px, py)
                },
        decreases steps + 1 - i,
    {
        let lx: i64 = x0 + offset_at(i, dx, steps);
        let ly: i64 = y0 + offset_at(i, dy, steps);
        let ghost before = fb@;
        let mut inside: bool = false;
        if 0 <= lx && 0 <= ly {
            inside = (lx as usize) < fb.width() && (ly as usize) < fb.height();
        }
        if inside {
            fb.set_pixel(lx as usize, ly as usize);
            assert(fb@ == before.with_color(lx as int, ly as int, before.current));
        }
        proof {
            fb.lemma_wf();
            assert(inside == start.in_bounds(lx as int, ly as int));
            assert forall|px: int, py: int| #[trigger] start.in_bounds(px, py) implies fb@.color_at(px, py) == if exists|
                j: int,
            |
                0 <= j < i + 1 && gx0 + line_offset(j, dx as int, steps as int) == px && gy0 + #[trigger] line_offset(
                    j,
                    dy as int,
                    steps as int,
                ) == py {
                start.current
            } else {
                start.color_at(px, py)
            } by {
                lemma_index_in_frame_raster(start, px, py);
                if px == lx && py == ly {
                    assert(gy0 + line_offset(i as int, dy as int, steps as int) == py);
                    assert(fb@.color_at(px, py) == start.current);
                } else {
                    if inside {
                        crate::framebuffer::lemma_distinct_pixels(start.width, start.height, px, py, lx as int, ly as int);
                        lemma_index_in_frame_raster(start, lx as int, ly as int);
                        let k = crate::framebuffer::pixel_index(start.width, lx as int, ly as int);
                        let q = crate::framebuffer::pixel_index(start.width, px, py);
                        assert(fb@.colors == before.colors.update(k, before.current));
                        assert(fb@.colors[q] == before.colors[q]);
                    }
                    assert(fb@.color_at(px, py) == before.color_at(px, py));
                    if exists|j: int|
                        0 <= j < i + 1 && gx0 + line_offset(j, dx as int, steps as int) == px && gy0
                            + #[trigger] line_offset(j, dy as int, steps as int) == py {
                        let j = choose|j: int|
                            0 <= j < i + 1 && gx0 + line_offset(j, dx as int, steps as int) == px && gy0
                                + #[trigger] line_offset(j, dy as int, steps as int) == py;
                        assert(j != i);
                    }
                }
            }
        }
        i += 1;
    }
}

proof fn lemma_index_in_frame_raster(v: FrameView, px: int, py: int)
    requires
        v.in_bounds(px, py),
    ensures
        0 <= crate::framebuffer::pixel_index(v.width, px, py) < v.width * v.height,
{
    crate::framebuffer::lemma_index_in_frame(v.width, v.height, px, py);
}

/// Wireframe drawing: the three edges of the triangle in the current colour,
/// bypassing filling and the depth test.
pub fn triangle(fb: &mut Framebuffer, v1: ScreenVertex, v2: ScreenVertex, v3: ScreenVertex)
    requires
        old(fb).wf(),
    ensures
        final(fb).wf(),
        exists|f1: FrameView, f2: FrameView|
            line_drawn(old(fb)@, f1, pixel_of(v1.x as int), pixel_of(v1.y as int), pixel_of(v2.x as int), pixel_of(v2.y as int))
                && line_drawn(f1, f2, pixel_of(v2.x as int), pixel_of(v2.y as int), pixel_of(v3.x as int), pixel_of(v3.y as int))
                && line_drawn(f2, final(fb)@, pixel_of(v3.x as int), pixel_of(v3.y as int), pixel_of(v1.x as int), pixel_of(v1.y as int)),
{
    draw_line(fb, v1, v2);
    let ghost f1 = fb@;
    draw_line(fb, v2, v3);
    let ghost f2 = fb@;
    draw_line(fb, v3, v1);
    assert(line_drawn(f2, fb@, pixel_of(v3.x as int), pixel_of(v3.y as int), pixel_of(v1.x as int), pixel_of(v1.y as int)));
}

} // verus!
