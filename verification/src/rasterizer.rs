use vstd::prelude::*;

use crate::datatypes::{Point, Triangle, max_i32, max_int, min_i32, min_int};
use crate::framebuffer::Tile;

verus! {

/// The edge function of the directed edge `a -> b` at `(px, py)`: twice the
/// signed area of the triangle `a, b, (px, py)`.
pub open spec fn edge(a: Point, b: Point, px: int, py: int) -> int {
    (b.x - a.x) * (py - a.y) - (b.y - a.y) * (px - a.x)
}

/// Twice the signed area of the triangle `p`.
pub open spec fn triangle_area(p: [Point; 3]) -> int {
    edge(p[0], p[1], p[2].x as int, p[2].y as int)
}

/// A barycentric weight `w` of a triangle of doubled area `area` counts as
/// inside: the weight divided by the area is not negative. For a degenerate
/// triangle (area zero) the quotient is only non-negative for a positive weight.
pub open spec fn weight_inside(area: int, w: int) -> bool {
    if area > 0 {
        w >= 0
    } else if area < 0 {
        w <= 0
    } else {
        w > 0
    }
}

/// Pixel `(x, y)` is covered by the triangle `p`: all three barycentric
/// weights count as inside.
pub open spec fn covers(p: [Point; 3], x: int, y: int) -> bool {
    let area = triangle_area(p);
    &&& weight_inside(area, edge(p[1], p[2], x, y))
    &&& weight_inside(area, edge(p[2], p[0], x, y))
    &&& weight_inside(area, edge(p[0], p[1], x, y))
}

/// A pixel covered by a triangle, with its three barycentric weights scaled
/// by twice the triangle's signed area: `w0` for the first vertex, `w1` for
/// the second and `w2` for the third.
#[derive(Clone, Copy, Debug, PartialEq, Eq, Structural)]
pub struct Coverage {
    pub x: i32,
    pub y: i32,
    pub w0: i32,
    pub w1: i32,
    pub w2: i32,
}

/// The coverage record of pixel `(x, y)` of the triangle `p`.
pub open spec fn coverage_at(p: [Point; 3], x: int, y: int) -> Coverage {
    Coverage {
        x: x as i32,
        y: y as i32,
        w0: edge(p[1], p[2], x, y) as i32,
        w1: edge(p[2], p[0], x, y) as i32,
        w2: edge(p[0], p[1], x, y) as i32,
    }
}

/// The covered pixels of row `y` from `x_lo` to `x_hi`, left to right.
pub open spec fn row_coverage(p: [Point; 3], y: int, x_lo: int, x_hi: int) -> Seq<Coverage>
    decreases x_hi + 1 - x_lo,
{
    if x_hi < x_lo {
        Seq::empty()
    } else {
        row_coverage(p, y, x_lo, x_hi - 1) + if covers(p, x_hi, y) {
            seq![coverage_at(p, x_hi, y)]
        } else {
            Seq::empty()
        }
    }
}

/// The covered pixels of the box `[x_lo, x_hi] x [y_lo, y_hi]`, row by row
/// from the top, each row left to right.
pub open spec fn box_coverage(p: [Point; 3], x_lo: int, x_hi: int, y_lo: int, y_hi: int) -> Seq<
    Coverage,
>
    decreases y_hi + 1 - y_lo,
{
    if y_hi < y_lo {
        Seq::empty()
    } else {
        box_coverage(p, x_lo, x_hi, y_lo, y_hi - 1) + row_coverage(p, y_hi, x_lo, x_hi)
    }
}

pub open spec fn min3(a: int, b: int, c: int) -> int {
    min_int(min_int(a, b), c)
}

pub open spec fn max3(a: int, b: int, c: int) -> int {
    max_int(max_int(a, b), c)
}

/// Leftmost column scanned: the triangle's bounding box cut at the tile's left edge.
pub open spec fn scan_x_lo(p: [Point; 3], tile: Tile) -> int {
    max_int(min3(p[0].x as int, p[1].x as int, p[2].x as int), tile.x as int)
}

/// Rightmost column scanned: the bounding box cut at the tile's last column
/// `tile.x + tile.width - 1`.
pub open spec fn scan_x_hi(p: [Point; 3], tile: Tile) -> int {
    min_int(max3(p[0].x as int, p[1].x as int, p[2].x as int), tile.x + tile.width - 1)
}

pub open spec fn scan_y_lo(p: [Point; 3], tile: Tile) -> int {
    max_int(min3(p[0].y as int, p[1].y as int, p[2].y as int), tile.y as int)
}

/// Bottom row scanned: the bounding box cut at the tile's last row.
pub open spec fn scan_y_hi(p: [Point; 3], tile: Tile) -> int {
    min_int(max3(p[0].y as int, p[1].y as int, p[2].y as int), tile.y + tile.height - 1)
}

/// The pixels that rasterizing the triangle `p` over `tile` emits, in order.
pub open spec fn rasterization(p: [Point; 3], tile: Tile) -> Seq<Coverage> {
    box_coverage(
        p,
        scan_x_lo(p, tile),
        scan_x_hi(p, tile),
        scan_y_lo(p, tile),
        scan_y_hi(p, tile),
    )
}

/// `v` is representable as an `i32`.
pub open spec fn fits_i32(v: int) -> bool {
    i32::MIN <= v <= i32::MAX
}

/// The edge function of `a -> b` at `(px, py)`, computed in 32 bits as
/// `(b.x - a.x) * (py - a.y) - (b.y - a.y) * (px - a.x)`, overflows at no step.
pub open spec fn edge_fits(a: Point, b: Point, px: int, py: int) -> bool {
    &&& fits_i32(b.x - a.x)
    &&& fits_i32(py - a.y)
    &&& fits_i32(b.y - a.y)
    &&& fits_i32(px - a.x)
    &&& fits_i32((b.x - a.x) * (py - a.y))
    &&& fits_i32((b.y - a.y) * (px - a.x))
    &&& fits_i32(edge(a, b, px, py))
}

/// The three edge functions of the triangle `p` at `(x, y)` compute without overflow.
pub open spec fn edges_fit(p: [Point; 3], x: int, y: int) -> bool {
    &&& edge_fits(p[1], p[2], x, y)
    &&& edge_fits(p[2], p[0], x, y)
    &&& edge_fits(p[0], p[1], x, y)
}

/// Rasterizing `p` over `tile` overflows nowhere in 32-bit arithmetic: the
/// tile's far corner, the triangle's doubled area, and the edge functions at
/// every pixel scanned.
pub open spec fn raster_fits(p: [Point; 3], tile: Tile) -> bool {
    &&& tile.corners_fit()
    &&& edge_fits(p[0], p[1], p[2].x as int, p[2].y as int)
    &&& forall|x: int, y: int|
        scan_x_lo(p, tile) <= x <= scan_x_hi(p, tile) && scan_y_lo(p, tile) <= y <= scan_y_hi(
            p,
            tile,
        ) ==> #[trigger] edges_fit(p, x, y)
}

/// The edge function of `a -> b` at `c`: twice the signed area of the triangle `a, b, c`.
pub fn edge_function(a: Point, b: Point, c: Point) -> (r: i32)
    requires
        edge_fits(a, b, c.x as int, c.y as int),
    ensures
        r == edge(a, b, c.x as int, c.y as int),
{
    (b.x - a.x) * (c.y - a.y) - (b.y - a.y) * (c.x - a.x)
}

/// Whether `v` is representable as an `i32`.
pub(crate) fn fits_i32_check(v: i64) -> (r: bool)
    ensures
        r == fits_i32(v as int),
{
    i32::MIN as i64 <= v && v <= i32::MAX as i64
}

/// Whether the edge function of `a -> b` at `(px, py)` computes without
/// overflow in 32 bits.
pub fn edge_fits_at(a: Point, b: Point, px: i64, py: i64) -> (r: bool)
    requires
        fits_i32(px as int),
        fits_i32(py as int),
    ensures
        r == edge_fits(a, b, px as int, py as int),
{
    let dx = b.x as i64 - a.x as i64;
    let dpy = py - a.y as i64;
    let dy = b.y as i64 - a.y as i64;
    let dpx = px - a.x as i64;
    if !(fits_i32_check(dx) && fits_i32_check(dpy) && fits_i32_check(dy) && fits_i32_check(dpx)) {
        return false;
    }
    proof {
        lemma_i32_product(dx as int, dpy as int);
        lemma_i32_product(dy as int, dpx as int);
    }
    let m1 = dx * dpy;
    let m2 = dy * dpx;
    if !(fits_i32_check(m1) && fits_i32_check(m2)) {
        return false;
    }
    fits_i32_check(m1 - m2)
}

proof fn lemma_i32_product(a: int, b: int)
    by (nonlinear_arith)
    requires
        fits_i32(a),
        fits_i32(b),
    ensures
        -0x4000_0000_0000_0000 <= a * b <= 0x4000_0000_0000_0000,
{
}

/// Whether a barycentric weight counts as inside for a triangle of doubled area `area`.
fn weight_is_inside(area: i32, w: i32) -> (r: bool)
    ensures
        r == weight_inside(area as int, w as int),
{
    if area > 0 {
        w >= 0
    } else if area < 0 {
        w <= 0
    } else {
        w > 0
    }
}


/// Pixel `a` comes strictly before pixel `b` in scan order: an earlier row,
/// or the same row further left.
pub open spec fn scan_before(a: Coverage, b: Coverage) -> bool {
    a.y < b.y || (a.y == b.y && a.x < b.x)
}

/// The three weights of any pixel add up to twice the triangle's signed area.
pub proof fn lemma_weights_sum_to_area(p: [Point; 3], x: int, y: int)
    ensures
        edge(p[1], p[2], x, y) + edge(p[2], p[0], x, y) + edge(p[0], p[1], x, y)
            == triangle_area(p),
{
    lemma_edge_sum(
        p[0].x as int,
        p[0].y as int,
        p[1].x as int,
        p[1].y as int,
        p[2].x as int,
        p[2].y as int,
        x,
        y,
    );
}

proof fn lemma_edge_sum(ax: int, ay: int, bx: int, by: int, cx: int, cy: int, x: int, y: int)
    ensures
        ((cx - bx) * (y - by) - (cy - by) * (x - bx)) + ((ax - cx) * (y - cy) - (ay - cy) * (x
            - cx)) + ((bx - ax) * (y - ay) - (by - ay) * (x - ax)) == (bx - ax) * (cy - ay) - (by
            - ay) * (cx - ax),
{
    assert((cx - bx) * (y - by) == cx * y - cx * by - bx * y + bx * by) by (nonlinear_arith);
    assert((cy - by) * (x - bx) == cy * x - cy * bx - by * x + by * bx) by (nonlinear_arith);
    assert((ax - cx) * (y - cy) == ax * y - ax * cy - cx * y + cx * cy) by (nonlinear_arith);
    assert((ay - cy) * (x - cx) == ay * x - ay * cx - cy * x + cy * cx) by (nonlinear_arith);
    assert((bx - ax) * (y - ay) == bx * y - bx * ay - ax * y + ax * ay) by (nonlinear_arith);
    assert((by - ay) * (x - ax) == by * x - by * ax - ay * x + ay * ax) by (nonlinear_arith);
    assert((bx - ax) * (cy - ay) == bx * cy - bx * ay - ax * cy + ax * ay) by (nonlinear_arith);
    assert((by - ay) * (cx - ax) == by * cx - by * ax - ay * cx + ay * ax) by (nonlinear_arith);
    assert(cx * by == by * cx && bx * by == by * bx && cy * bx == bx * cy && cx * cy == cy * cx
        && ax * cy == cy * ax && ay * cx == cx * ay && ax * ay == ay * ax && by * ax == ax * by)
        by (nonlinear_arith);
}

/// A degenerate triangle (zero area) covers no pixel.
pub proof fn lemma_degenerate_covers_nothing(p: [Point; 3], x: int, y: int)
    requires
        triangle_area(p) == 0,
    ensures
        !covers(p, x, y),
{
    lemma_weights_sum_to_area(p, x, y);
}

proof fn lemma_row_facts(p: [Point; 3], y: int, x_lo: int, x_hi: int)
    requires
        i32::MIN <= x_lo,
        x_hi <= i32::MAX,
        i32::MIN <= y <= i32::MAX,
    ensures
        forall|k: int|
            0 <= k < row_coverage(p, y, x_lo, x_hi).len() ==> {
                let c = #[trigger] row_coverage(p, y, x_lo, x_hi)[k];
                &&& x_lo <= c.x <= x_hi
                &&& c.y == y
                &&& covers(p, c.x as int, y)
                &&& c == coverage_at(p, c.x as int, y)
            },
        forall|k1: int, k2: int|
            0 <= k1 < k2 < row_coverage(p, y, x_lo, x_hi).len() ==> #[trigger] row_coverage(
                p,
                y,
                x_lo,
                x_hi,
            )[k1].x < #[trigger] row_coverage(p, y, x_lo, x_hi)[k2].x,
        forall|x: int|
            x_lo <= x <= x_hi && covers(p, x, y) ==> exists|k: int|
                0 <= k < row_coverage(p, y, x_lo, x_hi).len() && #[trigger] row_coverage(
                    p,
                    y,
                    x_lo,
                    x_hi,
                )[k].x == x,
    decreases x_hi + 1 - x_lo,
{
    if x_hi >= x_lo {
        lemma_row_facts(p, y, x_lo, x_hi - 1);
        let prev = row_coverage(p, y, x_lo, x_hi - 1);
        let cur = row_coverage(p, y, x_lo, x_hi);
        assert forall|k: int| 0 <= k < prev.len() implies cur[k] == prev[k] by {}
        assert forall|x: int| x_lo <= x <= x_hi && covers(p, x, y) implies exists|k: int|
            0 <= k < cur.len() && #[trigger] cur[k].x == x by {
            if x < x_hi {
                let k = choose|k: int| 0 <= k < prev.len() && #[trigger] prev[k].x == x;
                assert(cur[k].x == x);
            } else {
                assert(cur[prev.len() as int].x == x);
            }
        }
    }
}

proof fn lemma_box_facts(p: [Point; 3], x_lo: int, x_hi: int, y_lo: int, y_hi: int)
    requires
        i32::MIN <= x_lo,
        x_hi <= i32::MAX,
        i32::MIN <= y_lo,
        y_hi <= i32::MAX,
    ensures
        forall|k: int|
            0 <= k < box_coverage(p, x_lo, x_hi, y_lo, y_hi).len() ==> {
                let c = #[trigger] box_coverage(p, x_lo, x_hi, y_lo, y_hi)[k];
                &&& x_lo <= c.x <= x_hi
                &&& y_lo <= c.y <= y_hi
                &&& covers(p, c.x as int, c.y as int)
                &&& c == coverage_at(p, c.x as int, c.y as int)
            },
        forall|k1: int, k2: int|
            0 <= k1 < k2 < box_coverage(p, x_lo, x_hi, y_lo, y_hi).len() ==> scan_before(
                #[trigger] box_coverage(p, x_lo, x_hi, y_lo, y_hi)[k1],
                #[trigger] box_coverage(p, x_lo, x_hi, y_lo, y_hi)[k2],
            ),
        forall|x: int, y: int|
            x_lo <= x <= x_hi && y_lo <= y <= y_hi && covers(p, x, y) ==> exists|k: int|
                0 <= k < box_coverage(p, x_lo, x_hi, y_lo, y_hi).len() && #[trigger] box_coverage(
                    p,
                    x_lo,
                    x_hi,
                    y_lo,
                    y_hi,
                )[k].x == x && box_coverage(p, x_lo, x_hi, y_lo, y_hi)[k].y == y,
    decreases y_hi + 1 - y_lo,
{
    if y_hi >= y_lo {
        lemma_box_facts(p, x_lo, x_hi, y_lo, y_hi - 1);
        lemma_row_facts(p, y_hi, x_lo, x_hi);
        let prev = box_coverage(p, x_lo, x_hi, y_lo, y_hi - 1);
        let row = row_coverage(p, y_hi, x_lo, x_hi);
        let cur = box_coverage(p, x_lo, x_hi, y_lo, y_hi);
        assert(cur == prev + row);
        assert forall|k: int| 0 <= k < cur.len() implies {
            let c = #[trigger] cur[k];
            &&& x_lo <= c.x <= x_hi
            &&& y_lo <= c.y <= y_hi
            &&& covers(p, c.x as int, c.y as int)
            &&& c == coverage_at(p, c.x as int, c.y as int)
        } by {
            if k < prev.len() {
                assert(cur[k] == prev[k]);
            } else {
                assert(cur[k] == row[k - prev.len()]);
            }
        }
        assert forall|k1: int, k2: int| 0 <= k1 < k2 < cur.len() implies scan_before(
            #[trigger] cur[k1],
            #[trigger] cur[k2],
        ) by {
            if k2 < prev.len() {
                assert(cur[k1] == prev[k1] && cur[k2] == prev[k2]);
            } else if k1 < prev.len() {
                assert(cur[k1] == prev[k1] && cur[k2] == row[k2 - prev.len()]);
            } else {
                assert(cur[k1] == row[k1 - prev.len()] && cur[k2] == row[k2 - prev.len()]);
            }
        }
        assert forall|x: int, y: int|
            x_lo <= x <= x_hi && y_lo <= y <= y_hi && covers(p, x, y) implies exists|k: int|
            0 <= k < cur.len() && #[trigger] cur[k].x == x && cur[k].y == y by {
            if y < y_hi {
                let k = choose|k: int| 0 <= k < prev.len() && #[trigger] prev[k].x == x && prev[k].y == y;
                assert(cur[k] == prev[k]);
            } else {
                let k = choose|k: int| 0 <= k < row.len() && #[trigger] row[k].x == x;
                assert(cur[prev.len() + k] == row[k]);
            }
        }
    }
}

/// Every pixel that rasterization emits lies in the triangle's bounding box
/// cut to the tile, is covered
/// by the triangle, and carries its three edge-function weights; the pixels
/// come in strict scan order, so none is emitted twice.
pub proof fn lemma_rasterization_sound(p: [Point; 3], tile: Tile)
    ensures
        forall|k: int|
            0 <= k < rasterization(p, tile).len() ==> {
                let c = #[trigger] rasterization(p, tile)[k];
                &&& scan_x_lo(p, tile) <= c.x <= scan_x_hi(p, tile)
                &&& scan_y_lo(p, tile) <= c.y <= scan_y_hi(p, tile)
                &&& tile.x <= c.x <= tile.x + tile.width - 1
                &&& tile.y <= c.y <= tile.y + tile.height - 1
                &&& covers(p, c.x as int, c.y as int)
                &&& c == coverage_at(p, c.x as int, c.y as int)
            },
        forall|k1: int, k2: int|
            0 <= k1 < k2 < rasterization(p, tile).len() ==> scan_before(
                #[trigger] rasterization(p, tile)[k1],
                #[trigger] rasterization(p, tile)[k2],
            ),
{
    lemma_box_facts(p, scan_x_lo(p, tile), scan_x_hi(p, tile), scan_y_lo(p, tile), scan_y_hi(p, tile));
}

proof fn lemma_cross_cancels(xa: int, xb: int, xc: int, ya: int, yb: int, yc: int)
    by (nonlinear_arith)
    ensures
        xa * (xb * yc - xc * yb) + xb * (xc * ya - xa * yc) + xc * (xa * yb - xb * ya) == 0,
        ya * (xb * yc - xc * yb) + yb * (xc * ya - xa * yc) + yc * (xa * yb - xb * ya) == 0,
{
}

/// The weights of a pixel, as edge functions, in coordinates relative to it.
proof fn lemma_weight_relative(bx: int, by: int, cx: int, cy: int, x: int, y: int)
    by (nonlinear_arith)
    ensures
        (cx - bx) * (y - by) - (cy - by) * (x - bx) == (bx - x) * (cy - y) - (cx - x) * (by - y),
{
}

/// The weights of a pixel average the triangle's vertices to the pixel:
/// `w0 * a + w1 * b + w2 * c == area * v` along either axis.
proof fn lemma_barycentric(p: [Point; 3], x: int, y: int)
    ensures
        edge(p[1], p[2], x, y) * p[0].x + edge(p[2], p[0], x, y) * p[1].x + edge(p[0], p[1], x, y)
            * p[2].x == triangle_area(p) * x,
        edge(p[1], p[2], x, y) * p[0].y + edge(p[2], p[0], x, y) * p[1].y + edge(p[0], p[1], x, y)
            * p[2].y == triangle_area(p) * y,
{
    let (ax, ay, bx, by, cx, cy) = (
        p[0].x as int,
        p[0].y as int,
        p[1].x as int,
        p[1].y as int,
        p[2].x as int,
        p[2].y as int,
    );
    lemma_weight_relative(bx, by, cx, cy, x, y);
    lemma_weight_relative(cx, cy, ax, ay, x, y);
    lemma_weight_relative(ax, ay, bx, by, x, y);
    let w0 = edge(p[1], p[2], x, y);
    let w1 = edge(p[2], p[0], x, y);
    let w2 = edge(p[0], p[1], x, y);
    lemma_weights_sum_to_area(p, x, y);
    let (xa, xb, xc, ya, yb, yc) = (ax - x, bx - x, cx - x, ay - y, by - y, cy - y);
    lemma_cross_cancels(xa, xb, xc, ya, yb, yc);
    lemma_shifted_sum(w0, w1, w2, xa, xb, xc, x);
    lemma_shifted_sum(w0, w1, w2, ya, yb, yc, y);
    assert(xa * w0 + xb * w1 + xc * w2 == 0);
    assert(ya * w0 + yb * w1 + yc * w2 == 0);
}

/// `sum w_i * (d_i + t) == sum w_i * d_i + (sum w_i) * t`, in the order the
/// barycentric identity needs it.
proof fn lemma_shifted_sum(w0: int, w1: int, w2: int, d0: int, d1: int, d2: int, t: int)
    by (nonlinear_arith)
    ensures
        w0 * (d0 + t) + w1 * (d1 + t) + w2 * (d2 + t) == (d0 * w0 + d1 * w1 + d2 * w2) + (w0 + w1
            + w2) * t,
{
}

proof fn lemma_scaled_le(w: int, a: int, hi: int)
    by (nonlinear_arith)
    ensures
        w >= 0 && a <= hi ==> w * a <= w * hi,
        w <= 0 && a <= hi ==> w * a >= w * hi,
{
}

proof fn lemma_between(w0: int, w1: int, w2: int, a: int, b: int, c: int, area: int, v: int)
    requires
        w0 + w1 + w2 == area,
        w0 * a + w1 * b + w2 * c == area * v,
        (area > 0 && w0 >= 0 && w1 >= 0 && w2 >= 0) || (area < 0 && w0 <= 0 && w1 <= 0 && w2 <= 0),
    ensures
        v <= max3(a, b, c),
        v >= min3(a, b, c),
{
    let hi = max3(a, b, c);
    let lo = min3(a, b, c);
    lemma_scaled_le(w0, a, hi);
    lemma_scaled_le(w1, b, hi);
    lemma_scaled_le(w2, c, hi);
    lemma_scaled_le(w0, lo, a);
    lemma_scaled_le(w1, lo, b);
    lemma_scaled_le(w2, lo, c);
    assert((w0 + w1 + w2) * hi == w0 * hi + w1 * hi + w2 * hi) by (nonlinear_arith);
    assert((w0 + w1 + w2) * lo == w0 * lo + w1 * lo + w2 * lo) by (nonlinear_arith);
    assert(v <= hi && v >= lo) by (nonlinear_arith)
        requires
            area > 0 ==> area * v <= area * hi && area * v >= area * lo,
            area < 0 ==> area * v >= area * hi && area * v <= area * lo,
            area != 0,
    ;
}

/// A pixel that the triangle covers lies in the triangle's bounding box.
pub proof fn lemma_covered_in_bbox(p: [Point; 3], x: int, y: int)
    requires
        covers(p, x, y),
    ensures
        min3(p[0].x as int, p[1].x as int, p[2].x as int) <= x <= max3(p[0].x as int, p[1].x as int, p[2].x as int),
        min3(p[0].y as int, p[1].y as int, p[2].y as int) <= y <= max3(p[0].y as int, p[1].y as int, p[2].y as int),
{
    lemma_weights_sum_to_area(p, x, y);
    lemma_degenerate_covers_nothing_if_zero(p, x, y);
    lemma_barycentric(p, x, y);
    let w0 = edge(p[1], p[2], x, y);
    let w1 = edge(p[2], p[0], x, y);
    let w2 = edge(p[0], p[1], x, y);
    let area = triangle_area(p);
    lemma_between(w0, w1, w2, p[0].x as int, p[1].x as int, p[2].x as int, area, x);
    lemma_between(w0, w1, w2, p[0].y as int, p[1].y as int, p[2].y as int, area, y);
}

proof fn lemma_degenerate_covers_nothing_if_zero(p: [Point; 3], x: int, y: int)
    requires
        covers(p, x, y),
    ensures
        triangle_area(p) != 0,
{
    if triangle_area(p) == 0 {
        lemma_degenerate_covers_nothing(p, x, y);
    }
}

/// Rasterization is exact on the tile: every pixel of the tile that the
/// triangle covers is emitted.
pub proof fn lemma_rasterization_covers_tile(p: [Point; 3], tile: Tile, x: int, y: int)
    requires
        tile.x <= x < tile.x + tile.width,
        tile.y <= y < tile.y + tile.height,
        covers(p, x, y),
    ensures
        exists|k: int|
            0 <= k < rasterization(p, tile).len() && #[trigger] rasterization(p, tile)[k].x == x
                && rasterization(p, tile)[k].y == y,
{
    lemma_covered_in_bbox(p, x, y);
    lemma_rasterization_complete(p, tile, x, y);
}

/// Every covered pixel of the triangle's bounding box cut to the tile is emitted.
pub proof fn lemma_rasterization_complete(p: [Point; 3], tile: Tile, x: int, y: int)
    requires
        scan_x_lo(p, tile) <= x <= scan_x_hi(p, tile),
        scan_y_lo(p, tile) <= y <= scan_y_hi(p, tile),
        covers(p, x, y),
    ensures
        exists|k: int|
            0 <= k < rasterization(p, tile).len() && #[trigger] rasterization(p, tile)[k].x == x
                && rasterization(p, tile)[k].y == y,
{
    let (x_lo, x_hi, y_lo, y_hi) = (
        scan_x_lo(p, tile),
        scan_x_hi(p, tile),
        scan_y_lo(p, tile),
        scan_y_hi(p, tile),
    );
    lemma_box_facts(p, x_lo, x_hi, y_lo, y_hi);
    let r = box_coverage(p, x_lo, x_hi, y_lo, y_hi);
    assert(r == rasterization(p, tile));
    let k = choose|k: int| 0 <= k < r.len() && #[trigger] r[k].x == x && r[k].y == y;
    assert(rasterization(p, tile)[k].x == x);
}

/// Every emitted pixel lies inside the tile: from its top-left corner to
/// one before its right and bottom edges.
pub proof fn lemma_rasterization_inside_tile(p: [Point; 3], tile: Tile)
    ensures
        forall|k: int|
            0 <= k < rasterization(p, tile).len() ==> {
                let c = #[trigger] rasterization(p, tile)[k];
                &&& tile.x <= c.x <= tile.x + tile.width - 1
                &&& tile.y <= c.y <= tile.y + tile.height - 1
            },
{
    lemma_rasterization_sound(p, tile);
}

proof fn lemma_row_empty(p: [Point; 3], y: int, x_lo: int, x_hi: int)
    requires
        x_hi < x_lo || triangle_area(p) == 0,
    ensures
        row_coverage(p, y, x_lo, x_hi).len() == 0,
    decreases x_hi + 1 - x_lo,
{
    if x_hi >= x_lo {
        lemma_row_empty(p, y, x_lo, x_hi - 1);
        lemma_degenerate_covers_nothing(p, x_hi, y);
    }
}

proof fn lemma_box_empty(p: [Point; 3], x_lo: int, x_hi: int, y_lo: int, y_hi: int)
    requires
        x_hi < x_lo || y_hi < y_lo || triangle_area(p) == 0,
    ensures
        box_coverage(p, x_lo, x_hi, y_lo, y_hi).len() == 0,
    decreases y_hi + 1 - y_lo,
{
    if y_hi >= y_lo {
        lemma_box_empty(p, x_lo, x_hi, y_lo, y_hi - 1);
        lemma_row_empty(p, y_hi, x_lo, x_hi);
    }
}

/// A triangle whose bounding box misses the tile emits nothing over it, and
/// so does a degenerate triangle.
pub proof fn lemma_rasterization_empty(p: [Point; 3], tile: Tile)
    requires
        max3(p[0].x as int, p[1].x as int, p[2].x as int) < tile.x
            || min3(p[0].x as int, p[1].x as int, p[2].x as int) >= tile.x + tile.width
            || max3(p[0].y as int, p[1].y as int, p[2].y as int) < tile.y
            || min3(p[0].y as int, p[1].y as int, p[2].y as int) >= tile.y + tile.height
            || triangle_area(p) == 0,
    ensures
        rasterization(p, tile).len() == 0,
{
    lemma_box_empty(p, scan_x_lo(p, tile), scan_x_hi(p, tile), scan_y_lo(p, tile), scan_y_hi(p, tile));
}

/// The edge function changes sign when the edge is reversed.
proof fn lemma_edge_reversed(a: Point, b: Point, x: int, y: int)
    ensures
        edge(b, a, x, y) == -edge(a, b, x, y),
{
    let (ax, ay, bx, by) = (a.x as int, a.y as int, b.x as int, b.y as int);
    assert((ax - bx) * (y - by) - (ay - by) * (x - bx) == -((bx - ax) * (y - ay) - (by - ay) * (x
        - ax))) by (nonlinear_arith);
}

/// `weight_inside` is unchanged when the area and the weight both change sign,
/// for a triangle that is not degenerate.
proof fn lemma_inside_negated(area: int, w: int)
    requires
        area != 0,
    ensures
        weight_inside(-area, -w) == weight_inside(area, w),
{
}

/// Swapping the first two vertices of a triangle changes the coverage of no pixel.
proof fn lemma_swap_covers(p: [Point; 3], q: [Point; 3], x: int, y: int)
    requires
        q[0] == p[1],
        q[1] == p[0],
        q[2] == p[2],
    ensures
        covers(q, x, y) == covers(p, x, y),
{
    lemma_edge_reversed(p[0], p[1], p[2].x as int, p[2].y as int);
    lemma_edge_reversed(p[2], p[0], x, y);
    lemma_edge_reversed(p[1], p[2], x, y);
    lemma_edge_reversed(p[0], p[1], x, y);
    if triangle_area(p) == 0 {
        lemma_degenerate_covers_nothing(p, x, y);
        lemma_degenerate_covers_nothing(q, x, y);
    } else {
        lemma_inside_negated(triangle_area(p), edge(p[1], p[2], x, y));
        lemma_inside_negated(triangle_area(p), edge(p[2], p[0], x, y));
        lemma_inside_negated(triangle_area(p), edge(p[0], p[1], x, y));
    }
}

proof fn lemma_swap_row(p: [Point; 3], q: [Point; 3], y: int, x_lo: int, x_hi: int)
    requires
        q[0] == p[1],
        q[1] == p[0],
        q[2] == p[2],
    ensures
        row_coverage(q, y, x_lo, x_hi).len() == row_coverage(p, y, x_lo, x_hi).len(),
        forall|k: int|
            0 <= k < row_coverage(p, y, x_lo, x_hi).len() ==> #[trigger] row_coverage(
                q,
                y,
                x_lo,
                x_hi,
            )[k].x == row_coverage(p, y, x_lo, x_hi)[k].x && row_coverage(q, y, x_lo, x_hi)[k].y
                == row_coverage(p, y, x_lo, x_hi)[k].y,
    decreases x_hi + 1 - x_lo,
{
    if x_hi >= x_lo {
        lemma_swap_row(p, q, y, x_lo, x_hi - 1);
        lemma_swap_covers(p, q, x_hi, y);
        let pp = row_coverage(p, y, x_lo, x_hi - 1);
        let qq = row_coverage(q, y, x_lo, x_hi - 1);
        let pc = row_coverage(p, y, x_lo, x_hi);
        let qc = row_coverage(q, y, x_lo, x_hi);
        assert forall|k: int| 0 <= k < pc.len() implies #[trigger] qc[k].x == pc[k].x && qc[k].y
            == pc[k].y by {
            if k < pp.len() {
                assert(qc[k] == qq[k] && pc[k] == pp[k]);
            }
        }
    }
}

proof fn lemma_swap_box(p: [Point; 3], q: [Point; 3], x_lo: int, x_hi: int, y_lo: int, y_hi: int)
    requires
        q[0] == p[1],
        q[1] == p[0],
        q[2] == p[2],
    ensures
        box_coverage(q, x_lo, x_hi, y_lo, y_hi).len() == box_coverage(p, x_lo, x_hi, y_lo, y_hi).len(),
        forall|k: int|
            0 <= k < box_coverage(p, x_lo, x_hi, y_lo, y_hi).len() ==> #[trigger] box_coverage(
                q,
                x_lo,
                x_hi,
                y_lo,
                y_hi,
            )[k].x == box_coverage(p, x_lo, x_hi, y_lo, y_hi)[k].x && box_coverage(
                q,
                x_lo,
                x_hi,
                y_lo,
                y_hi,
            )[k].y == box_coverage(p, x_lo, x_hi, y_lo, y_hi)[k].y,
    decreases y_hi + 1 - y_lo,
{
    if y_hi >= y_lo {
        lemma_swap_box(p, q, x_lo, x_hi, y_lo, y_hi - 1);
        lemma_swap_row(p, q, y_hi, x_lo, x_hi);
        let pp = box_coverage(p, x_lo, x_hi, y_lo, y_hi - 1);
        let qq = box_coverage(q, x_lo, x_hi, y_lo, y_hi - 1);
        let pr = row_coverage(p, y_hi, x_lo, x_hi);
        let qr = row_coverage(q, y_hi, x_lo, x_hi);
        let pc = box_coverage(p, x_lo, x_hi, y_lo, y_hi);
        let qc = box_coverage(q, x_lo, x_hi, y_lo, y_hi);
        assert(pc == pp + pr);
        assert(qc == qq + qr);
        assert forall|k: int| 0 <= k < pc.len() implies #[trigger] qc[k].x == pc[k].x && qc[k].y
            == pc[k].y by {
            if k < pp.len() {
                assert(qc[k] == qq[k] && pc[k] == pp[k]);
            } else {
                assert(qc[k] == qr[k - pp.len()] && pc[k] == pr[k - pp.len()]);
            }
        }
    }
}

/// Winding order does not change coverage: with its first two vertices
/// swapped, a triangle covers the same pixels, and rasterizing it over any
/// tile emits the same pixels in the same order.
pub proof fn lemma_winding_keeps_coverage(p: [Point; 3], q: [Point; 3], tile: Tile)
    requires
        q[0] == p[1],
        q[1] == p[0],
        q[2] == p[2],
    ensures
        forall|x: int, y: int| #[trigger] covers(q, x, y) == covers(p, x, y),
        rasterization(q, tile).len() == rasterization(p, tile).len(),
        forall|k: int|
            0 <= k < rasterization(p, tile).len() ==> #[trigger] rasterization(q, tile)[k].x
                == rasterization(p, tile)[k].x && rasterization(q, tile)[k].y == rasterization(
                p,
                tile,
            )[k].y,
{
    assert forall|x: int, y: int| #[trigger] covers(q, x, y) == covers(p, x, y) by {
        lemma_swap_covers(p, q, x, y);
    }
    assert(scan_x_lo(q, tile) == scan_x_lo(p, tile));
    assert(scan_x_hi(q, tile) == scan_x_hi(p, tile));
    assert(scan_y_lo(q, tile) == scan_y_lo(p, tile));
    assert(scan_y_hi(q, tile) == scan_y_hi(p, tile));
    lemma_swap_box(p, q, scan_x_lo(p, tile), scan_x_hi(p, tile), scan_y_lo(p, tile), scan_y_hi(p, tile));
}

/// Scan-converts triangles over integer edge functions.
pub struct Rasterizer;

impl Rasterizer {
    /// The pixels of `tile` covered by the triangle, row by row and left to
    /// right, with their barycentric weights. The scan covers the triangle's
    /// bounding box cut to the tile.
    pub fn rasterize<D, T>(triangle: &Triangle<D, T>, tile: &Tile) -> (r: Vec<Coverage>)
        requires
            raster_fits(triangle.position, *tile),
        ensures
            r@ == rasterization(triangle.position, *tile),
    {
        let ghost p = triangle.position;
        let a = triangle.position[0];
        let b = triangle.position[1];
        let c = triangle.position[2];
        let bbminx = min_i32(min_i32(a.x, b.x), c.x);
        let bbminy = min_i32(min_i32(a.y, b.y), c.y);
        let bbmaxx = max_i32(max_i32(a.x, b.x), c.x);
        let bbmaxy = max_i32(max_i32(a.y, b.y), c.y);
        let total_area = edge_function(a, b, c);
        let tile_min = tile.min();
        let tile_max = tile.max();
        let x_start = max_i32(bbminx, tile_min.x);
        let y_start = max_i32(bbminy, tile_min.y);
        let mut out: Vec<Coverage> = Vec::new();
        let mut y = y_start;
        while y <= bbmaxy && y < tile_max.y
            invariant
                raster_fits(p, *tile),
                p[0] == a && p[1] == b && p[2] == c,
                total_area == triangle_area(p),
                x_start == scan_x_lo(p, *tile),
                y_start == scan_y_lo(p, *tile),
                bbmaxx == max3(a.x as int, b.x as int, c.x as int),
                bbmaxy == max3(a.y as int, b.y as int, c.y as int),
                tile_max.x == tile.x + tile.width,
                tile_max.y == tile.y + tile.height,
                y_start <= y <= scan_y_hi(p, *tile) + 1 || (y == y_start && y_start > scan_y_hi(
                    p,
                    *tile,
                )),
                out@ == box_coverage(
                    p,
                    x_start as int,
                    scan_x_hi(p, *tile),
                    y_start as int,
                    y - 1,
                ),
            decreases scan_y_hi(p, *tile) + 1 - y,
        {
            let ghost row_start = out@;
            let mut x = x_start;
            while x <= bbmaxx && x < tile_max.x
                invariant
                    raster_fits(p, *tile),
                    p[0] == a && p[1] == b && p[2] == c,
                    total_area == triangle_area(p),
                    x_start == scan_x_lo(p, *tile),
                    y_start == scan_y_lo(p, *tile),
                    bbmaxx == max3(a.x as int, b.x as int, c.x as int),
                    tile_max.x == tile.x + tile.width,
                    y_start <= y <= scan_y_hi(p, *tile),
                    x_start <= x <= scan_x_hi(p, *tile) + 1 || (x == x_start && x_start
                        > scan_x_hi(p, *tile)),
                    out@ == row_start + row_coverage(p, y as int, x_start as int, x - 1),
                decreases scan_x_hi(p, *tile) + 1 - x,
            {
                proof {
                    assert(edges_fit(p, x as int, y as int));
                }
                let here = Point::new(x, y);
                let w0 = edge_function(b, c, here);
                let w1 = edge_function(c, a, here);
                let w2 = edge_function(a, b, here);
                if weight_is_inside(total_area, w0) && weight_is_inside(total_area, w1)
                    && weight_is_inside(total_area, w2) {
                    out.push(Coverage { x, y, w0, w1, w2 });
                }
                proof {
                    assert(out@ == row_start + row_coverage(p, y as int, x_start as int, x as int));
                }
                x = x + 1;
            }
            y = y + 1;
        }
        out
    }

    /// Whether rasterizing the triangle over `tile` overflows nowhere in 32
    /// bits: exactly the condition that `rasterize` requires.
    pub fn fits<D, T>(triangle: &Triangle<D, T>, tile: &Tile) -> (r: bool)
        ensures
            r == raster_fits(triangle.position, *tile),
    {
        let ghost p = triangle.position;
        let a = triangle.position[0];
        let b = triangle.position[1];
        let c = triangle.position[2];
        let right = tile.x as i64 + tile.width as i64;
        let bottom = tile.y as i64 + tile.height as i64;
        if !(fits_i32_check(right) && fits_i32_check(bottom)) {
            return false;
        }
        if !edge_fits_at(a, b, c.x as i64, c.y as i64) {
            return false;
        }
        let bbminx = min_i32(min_i32(a.x, b.x), c.x);
        let bbminy = min_i32(min_i32(a.y, b.y), c.y);
        let bbmaxx = max_i32(max_i32(a.x, b.x), c.x);
        let bbmaxy = max_i32(max_i32(a.y, b.y), c.y);
        let tile_max = tile.max();
        let x_start = max_i32(bbminx, tile.x);
        let y_start = max_i32(bbminy, tile.y);
        let mut y = y_start;
        while y <= bbmaxy && y < tile_max.y
            invariant
                p == triangle.position,
                p[0] == a && p[1] == b && p[2] == c,
                tile.corners_fit(),
                edge_fits(a, b, c.x as int, c.y as int),
                x_start == scan_x_lo(p, *tile),
                y_start == scan_y_lo(p, *tile),
                bbmaxx == max3(a.x as int, b.x as int, c.x as int),
                bbmaxy == max3(a.y as int, b.y as int, c.y as int),
                tile_max.x == tile.x + tile.width,
                tile_max.y == tile.y + tile.height,
                y_start <= y <= scan_y_hi(p, *tile) + 1 || (y == y_start && y_start > scan_y_hi(
                    p,
                    *tile,
                )),
                forall|px: int, py: int|
                    scan_x_lo(p, *tile) <= px <= scan_x_hi(p, *tile) && scan_y_lo(p, *tile) <= py
                        < y ==> #[trigger] edges_fit(p, px, py),
            decreases scan_y_hi(p, *tile) + 1 - y,
        {
            let mut x = x_start;
            while x <= bbmaxx && x < tile_max.x
                invariant
                    p == triangle.position,
                    p[0] == a && p[1] == b && p[2] == c,
                    x_start == scan_x_lo(p, *tile),
                    y_start == scan_y_lo(p, *tile),
                    bbmaxx == max3(a.x as int, b.x as int, c.x as int),
                    tile_max.x == tile.x + tile.width,
                    y_start <= y <= scan_y_hi(p, *tile),
                    x_start <= x <= scan_x_hi(p, *tile) + 1 || (x == x_start && x_start
                        > scan_x_hi(p, *tile)),
                    forall|px: int, py: int|
                        scan_x_lo(p, *tile) <= px <= scan_x_hi(p, *tile) && scan_y_lo(p, *tile)
                            <= py < y ==> #[trigger] edges_fit(p, px, py),
                    forall|px: int| scan_x_lo(p, *tile) <= px < x ==> #[trigger] edges_fit(p, px, y as int),
                decreases scan_x_hi(p, *tile) + 1 - x,
            {
                if !(edge_fits_at(b, c, x as i64, y as i64) && edge_fits_at(c, a, x as i64, y as i64)
                    && edge_fits_at(a, b, x as i64, y as i64)) {
                    proof {
                        assert(!edges_fit(p, x as int, y as int));
                        assert(scan_x_lo(p, *tile) <= x <= scan_x_hi(p, *tile));
                        assert(scan_y_lo(p, *tile) <= y <= scan_y_hi(p, *tile));
                        assert(!raster_fits(p, *tile));
                    }
                    return false;
                }
                x = x + 1;
            }
            proof {
                assert forall|px: int, py: int|
                    scan_x_lo(p, *tile) <= px <= scan_x_hi(p, *tile) && scan_y_lo(p, *tile) <= py
                        < y + 1 implies #[trigger] edges_fit(p, px, py) by {
                    if py == y {
                        assert(edges_fit(p, px, y as int));
                    }
                }
            }
            y = y + 1;
        }
        true
    }
}

} // verus!
