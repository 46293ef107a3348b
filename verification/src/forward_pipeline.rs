use vstd::prelude::*;

use rayon::slice::ParallelSliceMut;

use crate::datatypes::{Point, Triangle, max_i32, min_i32, min_int};
use crate::framebuffer::{
    TILE_HEIGHT, TILE_WIDTH, Tile, TileBin, TileBinView, TilesInfo, is_tile_layout, layout_tile,
    lemma_slot_in_range, lemma_slot_order, tile_count, tile_slot,
};
use crate::renderer::{morton, morton_code};
use crate::rasterizer::{
    covers, edge, edge_fits, edge_fits_at, edge_function, fits_i32, fits_i32_check,
    lemma_weights_sum_to_area, max3, min3, triangle_area,
};

verus! {

/// The corner of `tile` furthest along the normal `(nx, ny)`; its right and
/// bottom edges are at `x + width` and `y + height`.
pub open spec fn furthest_corner(tile: Tile, nx: int, ny: int) -> (int, int) {
    (
        if nx >= 0 {
            tile.x + tile.width
        } else {
            tile.x as int
        },
        if ny >= 0 {
            tile.y + tile.height
        } else {
            tile.y as int
        },
    )
}

/// The tile, edges included, holds the triangle's whole bounding box.
pub open spec fn tile_contains_bbox(p: [Point; 3], tile: Tile) -> bool {
    &&& tile.x <= min3(p[0].x as int, p[1].x as int, p[2].x as int)
    &&& tile.x + tile.width >= max3(p[0].x as int, p[1].x as int, p[2].x as int)
    &&& tile.y <= min3(p[0].y as int, p[1].y as int, p[2].y as int)
    &&& tile.y + tile.height >= max3(p[0].y as int, p[1].y as int, p[2].y as int)
}

/// For each edge `a -> b` of the triangle, the tile's corner furthest along
/// the edge's normal `(-(b.y - a.y), b.x - a.x)` is not on the outer side of it.
pub open spec fn edges_reach_tile(p: [Point; 3], tile: Tile) -> bool {
    let ca = furthest_corner(tile, -(p[1].y - p[0].y), p[1].x - p[0].x);
    let cb = furthest_corner(tile, -(p[2].y - p[1].y), p[2].x - p[1].x);
    let cc = furthest_corner(tile, -(p[0].y - p[2].y), p[0].x - p[2].x);
    &&& edge(p[0], p[1], ca.0, ca.1) >= 0
    &&& edge(p[1], p[2], cb.0, cb.1) >= 0
    &&& edge(p[2], p[0], cc.0, cc.1) >= 0
}

/// The triangle may touch the tile: the tile holds its bounding box, or no
/// edge separates the tile from it.
pub open spec fn tile_may_overlap(p: [Point; 3], tile: Tile) -> bool {
    tile_contains_bbox(p, tile) || edges_reach_tile(p, tile)
}

/// Column (or row) of tiles of size `size` holding coordinate `v`, with
/// negative coordinates in column 0.
pub open spec fn tile_coord(v: int, size: int) -> int {
    if v < 0 {
        0
    } else {
        v / size
    }
}

/// Slots, left to right, of the tiles of row `row` from column `c_lo` to
/// `c_hi` that the triangle may touch.
pub open spec fn hit_row(p: [Point; 3], tiles: Seq<Tile>, cols: int, row: int, c_lo: int, c_hi: int) -> Seq<
    usize,
>
    decreases c_hi + 1 - c_lo,
{
    if c_hi < c_lo {
        Seq::empty()
    } else {
        hit_row(p, tiles, cols, row, c_lo, c_hi - 1) + if tile_may_overlap(
            p,
            tiles[tile_slot(cols, c_hi, row)],
        ) {
            seq![tile_slot(cols, c_hi, row) as usize]
        } else {
            Seq::empty()
        }
    }
}

/// Slots of the tiles of rows `r_lo..=r_hi` and columns `c_lo..=c_hi` that the
/// triangle may touch, row by row.
pub open spec fn hit_box(
    p: [Point; 3],
    tiles: Seq<Tile>,
    cols: int,
    r_lo: int,
    r_hi: int,
    c_lo: int,
    c_hi: int,
) -> Seq<usize>
    decreases r_hi + 1 - r_lo,
{
    if r_hi < r_lo {
        Seq::empty()
    } else {
        hit_box(p, tiles, cols, r_lo, r_hi - 1, c_lo, c_hi) + hit_row(p, tiles, cols, r_hi, c_lo, c_hi)
    }
}

/// The slots of the tiles a triangle is binned to: none for a triangle whose
/// doubled signed area is below 2 (degenerate or facing away); otherwise the
/// tiles under its bounding box that it may touch, in row-major order.
pub open spec fn triangle_tile_hits(p: [Point; 3], tiles: Seq<Tile>, rows: int, cols: int) -> Seq<
    usize,
> {
    if triangle_area(p) >= 2 {
        hit_box(
            p,
            tiles,
            cols,
            tile_coord(min3(p[0].y as int, p[1].y as int, p[2].y as int), TILE_HEIGHT as int),
            min_int(
                tile_coord(max3(p[0].y as int, p[1].y as int, p[2].y as int), TILE_HEIGHT as int),
                rows - 1,
            ),
            tile_coord(min3(p[0].x as int, p[1].x as int, p[2].x as int), TILE_WIDTH as int),
            min_int(
                tile_coord(max3(p[0].x as int, p[1].x as int, p[2].x as int), TILE_WIDTH as int),
                cols - 1,
            ),
        )
    } else {
        Seq::empty()
    }
}

/// The indices, ascending, of the first `m` triangles that are binned to slot `t`.
pub open spec fn tile_triangles<D, T>(tris: Seq<Triangle<D, T>>, info: TilesInfo, t: int, m: int) -> Seq<
    usize,
>
    decreases m,
{
    if m <= 0 {
        Seq::empty()
    } else {
        tile_triangles(tris, info, t, m - 1) + if triangle_tile_hits(
            tris[m - 1].position,
            info.tiles@,
            info.rows as int,
            info.cols as int,
        ).contains(t as usize) {
            seq![(m - 1) as usize]
        } else {
            Seq::empty()
        }
    }
}

/// The bins of the first `n` slots, in slot order: one per slot that some
/// triangle is binned to, with the slot's tile, its triangles and its Morton key.
pub open spec fn bins_upto<D, T>(tris: Seq<Triangle<D, T>>, info: TilesInfo, n: int) -> Seq<
    TileBinView,
>
    decreases n,
{
    if n <= 0 {
        Seq::empty()
    } else {
        let list = tile_triangles(tris, info, n - 1, tris.len() as int);
        let tile = info.tiles@[n - 1];
        bins_upto(tris, info, n - 1) + if list.len() > 0 {
            seq![
                TileBinView {
                    tile,
                    indices: list,
                    morton_key: morton_code(tile.x as u32, tile.y as u32),
                },
            ]
        } else {
            Seq::empty()
        }
    }
}

/// The tiling can be binned against: at least one row and column, a tile for
/// every slot, and every tile at non-negative coordinates below 65536 (the
/// range of the Morton key).
pub open spec fn tiles_binnable(info: TilesInfo) -> bool {
    &&& info.rows >= 1
    &&& info.cols >= 1
    &&& info.rows * info.cols <= info.tiles@.len()
    &&& forall|i: int|
        0 <= i < info.tiles@.len() ==> {
            let t = #[trigger] info.tiles@[i];
            &&& 0 <= t.x < 0x10000
            &&& 0 <= t.y < 0x10000
        }
}

/// The doubled area by the shoelace formula, computed in 32 bits as
/// `(by - ay) * (bx + ax) + (cy - by) * (cx + bx) + (ay - cy) * (ax + cx)`,
/// overflows at no step.
pub open spec fn shoelace_fits(ax: int, ay: int, bx: int, by: int, cx: int, cy: int) -> bool {
    &&& fits_i32(by - ay) && fits_i32(bx + ax)
    &&& fits_i32(cy - by) && fits_i32(cx + bx)
    &&& fits_i32(ay - cy) && fits_i32(ax + cx)
    &&& fits_i32((by - ay) * (bx + ax))
    &&& fits_i32((cy - by) * (cx + bx))
    &&& fits_i32((ay - cy) * (ax + cx))
    &&& fits_i32((by - ay) * (bx + ax) + (cy - by) * (cx + bx))
    &&& fits_i32((by - ay) * (bx + ax) + (cy - by) * (cx + bx) + (ay - cy) * (ax + cx))
}

/// The normal `(-(b.y - a.y), b.x - a.x)` of the edge `a -> b` computes
/// without overflow in 32 bits.
pub open spec fn normal_fits(a: Point, b: Point) -> bool {
    &&& fits_i32(b.y - a.y)
    &&& fits_i32(-(b.y - a.y))
    &&& fits_i32(b.x - a.x)
}

/// Testing the triangle against `tile` overflows nowhere in 32 bits: the
/// tile's far corner, and each edge function at the tile's corner furthest
/// along that edge's normal.
pub open spec fn tile_test_fits(p: [Point; 3], tile: Tile) -> bool {
    let ca = furthest_corner(tile, -(p[1].y - p[0].y), p[1].x - p[0].x);
    let cb = furthest_corner(tile, -(p[2].y - p[1].y), p[2].x - p[1].x);
    let cc = furthest_corner(tile, -(p[0].y - p[2].y), p[0].x - p[2].x);
    &&& tile.corners_fit()
    &&& edge_fits(p[0], p[1], ca.0, ca.1)
    &&& edge_fits(p[1], p[2], cb.0, cb.1)
    &&& edge_fits(p[2], p[0], cc.0, cc.1)
}

/// First and last row, and first and last column, of the tiles under the
/// triangle's bounding box that binning examines.
pub open spec fn bin_rows_lo(p: [Point; 3]) -> int {
    tile_coord(min3(p[0].y as int, p[1].y as int, p[2].y as int), TILE_HEIGHT as int)
}

pub open spec fn bin_rows_hi(p: [Point; 3], rows: int) -> int {
    min_int(tile_coord(max3(p[0].y as int, p[1].y as int, p[2].y as int), TILE_HEIGHT as int), rows - 1)
}

pub open spec fn bin_cols_lo(p: [Point; 3]) -> int {
    tile_coord(min3(p[0].x as int, p[1].x as int, p[2].x as int), TILE_WIDTH as int)
}

pub open spec fn bin_cols_hi(p: [Point; 3], cols: int) -> int {
    min_int(tile_coord(max3(p[0].x as int, p[1].x as int, p[2].x as int), TILE_WIDTH as int), cols - 1)
}

/// Binning the triangle overflows nowhere in 32 bits: its doubled area, its
/// edge normals, and, for a triangle that is binned, its test against every
/// tile under its bounding box.
pub open spec fn binning_fits(p: [Point; 3], tiles: Seq<Tile>, rows: int, cols: int) -> bool {
    &&& shoelace_fits(
        p[0].x as int,
        p[0].y as int,
        p[1].x as int,
        p[1].y as int,
        p[2].x as int,
        p[2].y as int,
    )
    &&& normal_fits(p[0], p[1])
    &&& normal_fits(p[1], p[2])
    &&& normal_fits(p[2], p[0])
    &&& triangle_area(p) >= 2 ==> forall|r: int, c: int|
        bin_rows_lo(p) <= r <= bin_rows_hi(p, rows) && bin_cols_lo(p) <= c <= bin_cols_hi(p, cols)
            ==> tile_test_fits(p, #[trigger] tiles[tile_slot(cols, c, r)])
}

/// Triangle `i` is one of `tris` and is binned to a slot whose tile is `tile`.
pub open spec fn hits_tile<D, T>(tris: Seq<Triangle<D, T>>, info: TilesInfo, tile: Tile, i: usize) -> bool {
    &&& i < tris.len()
    &&& exists|t: int|
        0 <= t < info.tiles@.len() && info.tiles@[t] == tile && #[trigger] triangle_tile_hits(
            tris[i as int].position,
            info.tiles@,
            info.rows as int,
            info.cols as int,
        ).contains(t as usize)
}

/// Some bin holds `tile` and lists triangle `i`.
pub open spec fn binned_in(bins: Seq<TileBinView>, tile: Tile, i: usize) -> bool {
    exists|b: int| 0 <= b < bins.len() && bins[b].tile == tile && bins[b].indices.contains(i)
}

/// Calls `par_sort_unstable_by_key` of rayon's `ParallelSliceMut` with the bin's
/// Morton key: the bins are permuted into ascending key order; which of two bins
/// with equal keys comes first is left open.
#[verifier::external_body]
fn sort_bins_by_morton_key(bins: &mut Vec<TileBin>)
    ensures
        final(bins)@.map_values(|b: TileBin| b@).to_multiset() == old(bins)@.map_values(
            |b: TileBin| b@,
        ).to_multiset(),
        forall|i: int, j: int|
            0 <= i <= j < final(bins)@.len() ==> final(bins)@[i].morton_key
                <= final(bins)@[j].morton_key,
{
    bins.par_sort_unstable_by_key(|b: &TileBin| b.morton_key);
}

/// The forward rendering pipeline: vertex processing, tile binning,
/// rasterization and fragment shading. What is verified here is its binning.
pub struct PipelineForward {}

impl PipelineForward {
    pub fn new() -> (p: PipelineForward) {
        PipelineForward {  }
    }

    /// The corner of the box `tile_min..tile_max` furthest along the normal `(x_normal, y_normal)`.
    pub fn furthest_point(tile_min: Point, tile_max: Point, x_normal: i32, y_normal: i32) -> (r:
        Point)
        ensures
            r.x == (if x_normal >= 0 {
                tile_max.x
            } else {
                tile_min.x
            }),
            r.y == (if y_normal >= 0 {
                tile_max.y
            } else {
                tile_min.y
            }),
    {
        Point::new(
            if x_normal >= 0 {
                tile_max.x
            } else {
                tile_min.x
            },
            if y_normal >= 0 {
                tile_max.y
            } else {
                tile_min.y
            },
        )
    }

    /// Twice the signed area of the triangle `(ax, ay), (bx, by), (cx, cy)`, by the shoelace formula.
    pub fn double_signed_triangle_area(ax: i32, ay: i32, bx: i32, by: i32, cx: i32, cy: i32) -> (r:
        i32)
        requires
            shoelace_fits(ax as int, ay as int, bx as int, by as int, cx as int, cy as int),
        ensures
            r == edge(Point { x: ax, y: ay }, Point { x: bx, y: by }, cx as int, cy as int),
    {
        proof {
            lemma_shoelace(ax as int, ay as int, bx as int, by as int, cx as int, cy as int);
        }
        (by - ay) * (bx + ax) + (cy - by) * (cx + bx) + (ay - cy) * (ax + cx)
    }

    /// The slots of the tiles the triangle is binned to, in row-major order.
    pub fn check_triangle<D, T>(triangle: &Triangle<D, T>, rows: usize, cols: usize, tiles: &[Tile]) -> (r: Vec<usize>)
        requires
            binning_fits(triangle.position, tiles@, rows as int, cols as int),
            rows >= 1,
            cols >= 1,
            rows * cols <= tiles@.len(),
        ensures
            r@ == triangle_tile_hits(triangle.position, tiles@, rows as int, cols as int),
    {
        let ghost p = triangle.position;
        let n_tiles = tiles.len();
        assert(rows * cols == cols * rows) by (nonlinear_arith);
        let a = triangle.position[0];
        let b = triangle.position[1];
        let c = triangle.position[2];
        let bb_min_x = min_i32(min_i32(a.x, b.x), c.x);
        let bb_min_y = min_i32(min_i32(a.y, b.y), c.y);
        let bb_max_x = max_i32(max_i32(a.x, b.x), c.x);
        let bb_max_y = max_i32(max_i32(a.y, b.y), c.y);
        let total_area = Self::double_signed_triangle_area(a.x, a.y, b.x, b.y, c.x, c.y);
        let normal_a = Point::new(-(b.y - a.y), b.x - a.x);
        let normal_b = Point::new(-(c.y - b.y), c.x - b.x);
        let normal_c = Point::new(-(a.y - c.y), a.x - c.x);
        let cols_min = Self::tile_coordinate(bb_min_x, TILE_WIDTH);
        let cols_max = Self::min_usize(Self::tile_coordinate(bb_max_x, TILE_WIDTH), cols - 1);
        let rows_min = Self::tile_coordinate(bb_min_y, TILE_HEIGHT);
        let rows_max = Self::min_usize(Self::tile_coordinate(bb_max_y, TILE_HEIGHT), rows - 1);
        let mut out: Vec<usize> = Vec::new();
        if total_area >= 2 {
            let mut row = rows_min;
            while row <= rows_max
                invariant
                    binning_fits(p, tiles@, rows as int, cols as int),
                    triangle_area(p) >= 2,
                    p[0] == a && p[1] == b && p[2] == c,
                    rows * cols <= tiles@.len(),
                    n_tiles == tiles@.len(),
                    rows * cols == cols * rows,
                    rows_min == bin_rows_lo(p),
                    rows_max == bin_rows_hi(p, rows as int),
                    cols_min == bin_cols_lo(p),
                    cols_max == bin_cols_hi(p, cols as int),
                    rows_max <= rows - 1,
                    cols_max <= cols - 1,
                    rows_min <= row <= rows_max + 1 || (row == rows_min && rows_min > rows_max),
                    bb_min_x == min3(a.x as int, b.x as int, c.x as int),
                    bb_max_x == max3(a.x as int, b.x as int, c.x as int),
                    bb_min_y == min3(a.y as int, b.y as int, c.y as int),
                    bb_max_y == max3(a.y as int, b.y as int, c.y as int),
                    normal_a.x == -(b.y - a.y) && normal_a.y == b.x - a.x,
                    normal_b.x == -(c.y - b.y) && normal_b.y == c.x - b.x,
                    normal_c.x == -(a.y - c.y) && normal_c.y == a.x - c.x,
                    out@ == hit_box(
                        p,
                        tiles@,
                        cols as int,
                        rows_min as int,
                        row - 1,
                        cols_min as int,
                        cols_max as int,
                    ),
                decreases rows_max + 1 - row,
            {
                let ghost row_start = out@;
                let mut col = cols_min;
                while col <= cols_max
                    invariant
                        binning_fits(p, tiles@, rows as int, cols as int),
                        triangle_area(p) >= 2,
                        p[0] == a && p[1] == b && p[2] == c,
                        rows * cols <= tiles@.len(),
                        n_tiles == tiles@.len(),
                        rows * cols == cols * rows,
                        rows_min == bin_rows_lo(p),
                        rows_max == bin_rows_hi(p, rows as int),
                        cols_min == bin_cols_lo(p),
                        cols_max == bin_cols_hi(p, cols as int),
                        rows_min <= row <= rows_max,
                        rows_max <= rows - 1,
                        cols_max <= cols - 1,
                        cols_min <= col <= cols_max + 1 || (col == cols_min && cols_min > cols_max),
                        bb_min_x == min3(a.x as int, b.x as int, c.x as int),
                        bb_max_x == max3(a.x as int, b.x as int, c.x as int),
                        bb_min_y == min3(a.y as int, b.y as int, c.y as int),
                        bb_max_y == max3(a.y as int, b.y as int, c.y as int),
                        normal_a.x == -(b.y - a.y) && normal_a.y == b.x - a.x,
                        normal_b.x == -(c.y - b.y) && normal_b.y == c.x - b.x,
                        normal_c.x == -(a.y - c.y) && normal_c.y == a.x - c.x,
                        out@ == row_start + hit_row(
                            p,
                            tiles@,
                            cols as int,
                            row as int,
                            cols_min as int,
                            col - 1,
                        ),
                    decreases cols_max + 1 - col,
                {
                    proof {
                        lemma_slot_in_range(cols as int, rows as int, col as int, row as int);
                        assert(tile_test_fits(p, tiles@[tile_slot(cols as int, col as int, row as int)]));
                    }
                    let slot = row * cols + col;
                    let tile = &tiles[slot];
                    let tile_min = tile.min();
                    let tile_max = tile.max();
                    if tile_min.x <= bb_min_x && tile_max.x >= bb_max_x && tile_min.y <= bb_min_y
                        && tile_max.y >= bb_max_y {
                        out.push(slot);
                    } else {
                        let pa = Self::furthest_point(tile_min, tile_max, normal_a.x, normal_a.y);
                        let pb = Self::furthest_point(tile_min, tile_max, normal_b.x, normal_b.y);
                        let pc = Self::furthest_point(tile_min, tile_max, normal_c.x, normal_c.y);
                        if edge_function(a, b, pa) < 0 || edge_function(b, c, pb) < 0
                            || edge_function(c, a, pc) < 0 {
                        } else {
                            out.push(slot);
                        }
                    }
                    col = col + 1;
                }
                row = row + 1;
            }
        }
        out
    }

    /// `(v / size).max(0)` for a non-negative tile size.
    fn tile_coordinate(v: i32, size: usize) -> (r: usize)
        requires
            size == 64,
        ensures
            r == tile_coord(v as int, size as int),
    {
        if v < 0 {
            0
        } else {
            (v as usize) / size
        }
    }

    fn min_usize(a: usize, b: usize) -> (r: usize)
        ensures
            r == min_int(a as int, b as int),
    {
        if a <= b {
            a
        } else {
            b
        }
    }

    /// The corner of `tile` furthest along the normal `(nx, ny)`, in 64 bits.
    fn furthest_corner_wide(tile: Tile, nx: i64, ny: i64) -> (r: (i64, i64))
        ensures
            r.0 == furthest_corner(tile, nx as int, ny as int).0,
            r.1 == furthest_corner(tile, nx as int, ny as int).1,
    {
        (
            if nx >= 0 {
                tile.x as i64 + tile.width as i64
            } else {
                tile.x as i64
            },
            if ny >= 0 {
                tile.y as i64 + tile.height as i64
            } else {
                tile.y as i64
            },
        )
    }

    /// Whether testing the triangle `a, b, c` against `tile` overflows nowhere
    /// in 32 bits.
    fn tile_test_fits_check(a: Point, b: Point, c: Point, tile: Tile) -> (r: bool)
        ensures
            r == tile_test_fits([a, b, c], tile),
    {
        let right = tile.x as i64 + tile.width as i64;
        let bottom = tile.y as i64 + tile.height as i64;
        if !(fits_i32_check(right) && fits_i32_check(bottom)) {
            return false;
        }
        let ca = Self::furthest_corner_wide(tile, -(b.y as i64 - a.y as i64), b.x as i64 - a.x as i64);
        let cb = Self::furthest_corner_wide(tile, -(c.y as i64 - b.y as i64), c.x as i64 - b.x as i64);
        let cc = Self::furthest_corner_wide(tile, -(a.y as i64 - c.y as i64), a.x as i64 - c.x as i64);
        edge_fits_at(a, b, ca.0, ca.1) && edge_fits_at(b, c, cb.0, cb.1) && edge_fits_at(
            c,
            a,
            cc.0,
            cc.1,
        )
    }

    /// Whether the shoelace formula on these coordinates overflows nowhere in 32 bits.
    fn shoelace_fits_check(ax: i32, ay: i32, bx: i32, by: i32, cx: i32, cy: i32) -> (r: bool)
        ensures
            r == shoelace_fits(ax as int, ay as int, bx as int, by as int, cx as int, cy as int),
    {
        let d1 = by as i64 - ay as i64;
        let s1 = bx as i64 + ax as i64;
        let d2 = cy as i64 - by as i64;
        let s2 = cx as i64 + bx as i64;
        let d3 = ay as i64 - cy as i64;
        let s3 = ax as i64 + cx as i64;
        if !(fits_i32_check(d1) && fits_i32_check(s1) && fits_i32_check(d2) && fits_i32_check(s2)
            && fits_i32_check(d3) && fits_i32_check(s3)) {
            return false;
        }
        proof {
            lemma_i32_product_wide(d1 as int, s1 as int);
            lemma_i32_product_wide(d2 as int, s2 as int);
            lemma_i32_product_wide(d3 as int, s3 as int);
        }
        let m1 = d1 * s1;
        let m2 = d2 * s2;
        let m3 = d3 * s3;
        if !(fits_i32_check(m1) && fits_i32_check(m2) && fits_i32_check(m3)) {
            return false;
        }
        fits_i32_check(m1 + m2) && fits_i32_check(m1 + m2 + m3)
    }

    /// Whether binning the triangle against the tiles overflows nowhere in 32
    /// bits: exactly the condition that `check_triangle` requires.
    pub fn binning_fits_check<D, T>(triangle: &Triangle<D, T>, rows: usize, cols: usize, tiles: &[Tile]) -> (r: bool)
        requires
            rows >= 1,
            cols >= 1,
            rows * cols <= tiles@.len(),
        ensures
            r == binning_fits(triangle.position, tiles@, rows as int, cols as int),
    {
        let ghost p = triangle.position;
        let a = triangle.position[0];
        let b = triangle.position[1];
        let c = triangle.position[2];
        if !Self::shoelace_fits_check(a.x, a.y, b.x, b.y, c.x, c.y) {
            return false;
        }
        let nay = b.y as i64 - a.y as i64;
        let nby = c.y as i64 - b.y as i64;
        let ncy = a.y as i64 - c.y as i64;
        if !(fits_i32_check(nay) && fits_i32_check(-nay) && fits_i32_check(b.x as i64 - a.x as i64)
            && fits_i32_check(nby) && fits_i32_check(-nby) && fits_i32_check(c.x as i64 - b.x as i64)
            && fits_i32_check(ncy) && fits_i32_check(-ncy) && fits_i32_check(a.x as i64 - c.x as i64)) {
            return false;
        }
        let total_area = Self::double_signed_triangle_area(a.x, a.y, b.x, b.y, c.x, c.y);
        if total_area < 2 {
            return true;
        }
        assert(triangle_area(p) >= 2);
        assert(rows * cols == cols * rows) by (nonlinear_arith);
        let bb_min_x = min_i32(min_i32(a.x, b.x), c.x);
        let bb_min_y = min_i32(min_i32(a.y, b.y), c.y);
        let bb_max_x = max_i32(max_i32(a.x, b.x), c.x);
        let bb_max_y = max_i32(max_i32(a.y, b.y), c.y);
        let cols_min = Self::tile_coordinate(bb_min_x, TILE_WIDTH);
        let cols_max = Self::min_usize(Self::tile_coordinate(bb_max_x, TILE_WIDTH), cols - 1);
        let rows_min = Self::tile_coordinate(bb_min_y, TILE_HEIGHT);
        let rows_max = Self::min_usize(Self::tile_coordinate(bb_max_y, TILE_HEIGHT), rows - 1);
        let n_tiles = tiles.len();
        let mut row = rows_min;
        while row <= rows_max
            invariant
                n_tiles == tiles@.len(),
                triangle_area(p) >= 2,
                p == triangle.position,
                p[0] == a && p[1] == b && p[2] == c,
                rows * cols <= tiles@.len(),
                rows * cols == cols * rows,
                rows_min == bin_rows_lo(p),
                rows_max == bin_rows_hi(p, rows as int),
                cols_min == bin_cols_lo(p),
                cols_max == bin_cols_hi(p, cols as int),
                rows_max <= rows - 1,
                cols_max <= cols - 1,
                rows_min <= row <= rows_max + 1 || (row == rows_min && rows_min > rows_max),
                forall|r: int, col: int|
                    rows_min <= r < row && cols_min <= col <= cols_max ==> tile_test_fits(
                        p,
                        #[trigger] tiles@[tile_slot(cols as int, col, r)],
                    ),
            decreases rows_max + 1 - row,
        {
            let mut col = cols_min;
            while col <= cols_max
                invariant
                    n_tiles == tiles@.len(),
                    triangle_area(p) >= 2,
                    p == triangle.position,
                    p[0] == a && p[1] == b && p[2] == c,
                    rows * cols <= tiles@.len(),
                    rows * cols == cols * rows,
                    rows_min == bin_rows_lo(p),
                    rows_max == bin_rows_hi(p, rows as int),
                    cols_min == bin_cols_lo(p),
                    cols_max == bin_cols_hi(p, cols as int),
                    rows_max <= rows - 1,
                    cols_max <= cols - 1,
                    rows_min <= row <= rows_max,
                    cols_min <= col <= cols_max + 1 || (col == cols_min && cols_min > cols_max),
                    forall|r: int, cc: int|
                        rows_min <= r < row && cols_min <= cc <= cols_max ==> tile_test_fits(
                            p,
                            #[trigger] tiles@[tile_slot(cols as int, cc, r)],
                        ),
                    forall|cc: int|
                        cols_min <= cc < col ==> tile_test_fits(
                            p,
                            #[trigger] tiles@[tile_slot(cols as int, cc, row as int)],
                        ),
                decreases cols_max + 1 - col,
            {
                proof {
                    lemma_slot_in_range(cols as int, rows as int, col as int, row as int);
                }
                let slot = row * cols + col;
                if !Self::tile_test_fits_check(a, b, c, tiles[slot]) {
                    proof {
                        assert(!tile_test_fits(p, tiles@[tile_slot(cols as int, col as int, row as int)]));
                        assert(bin_rows_lo(p) <= row <= bin_rows_hi(p, rows as int));
                        assert(bin_cols_lo(p) <= col <= bin_cols_hi(p, cols as int));
                    }
                    return false;
                }
                col = col + 1;
            }
            proof {
                assert forall|r: int, cc: int|
                    rows_min <= r < row + 1 && cols_min <= cc <= cols_max implies tile_test_fits(
                    p,
                    #[trigger] tiles@[tile_slot(cols as int, cc, r)],
                ) by {
                    if r == row {
                        assert(tile_test_fits(p, tiles@[tile_slot(cols as int, cc, row as int)]));
                    }
                }
            }
            row = row + 1;
        }
        true
    }

    /// Whether the tiles and triangles meet what `bin_triangles` requires.
    pub fn binnable<D, T>(tiles: &TilesInfo, triangles: &[Triangle<D, T>]) -> (r: bool)
        ensures
            r == (tiles_binnable(*tiles) && forall|i: int|
                0 <= i < triangles@.len() ==> binning_fits(
                    #[trigger] triangles@[i].position,
                    tiles.tiles@,
                    tiles.rows as int,
                    tiles.cols as int,
                )),
    {
        let rows = tiles.rows;
        let cols = tiles.cols;
        if rows < 1 || cols < 1 {
            return false;
        }
        let n = tiles.tiles.len();
        if rows > n / cols {
            proof {
                assert(rows * cols > n) by (nonlinear_arith)
                    requires
                        rows > n / cols,
                        cols >= 1,
                ;
            }
            return false;
        }
        proof {
            assert(rows * cols <= n) by (nonlinear_arith)
                requires
                    rows <= n / cols,
                    cols >= 1,
            ;
        }
        let mut t: usize = 0;
        while t < n
            invariant
                t <= n,
                n == tiles.tiles@.len(),
                forall|k: int|
                    0 <= k < t ==> {
                        let tile = #[trigger] tiles.tiles@[k];
                        &&& 0 <= tile.x < 0x10000
                        &&& 0 <= tile.y < 0x10000
                    },
            decreases n - t,
        {
            let tile = tiles.tiles[t];
            if !(0 <= tile.x && tile.x < 0x10000 && 0 <= tile.y && tile.y < 0x10000) {
                return false;
            }
            t = t + 1;
        }
        let mut i: usize = 0;
        while i < triangles.len()
            invariant
                i <= triangles@.len(),
                tiles_binnable(*tiles),
                rows == tiles.rows,
                cols == tiles.cols,
                forall|k: int|
                    0 <= k < i ==> binning_fits(
                        #[trigger] triangles@[k].position,
                        tiles.tiles@,
                        tiles.rows as int,
                        tiles.cols as int,
                    ),
            decreases triangles@.len() - i,
        {
            if !Self::binning_fits_check(&triangles[i], rows, cols, tiles.tiles.as_slice()) {
                return false;
            }
            i = i + 1;
        }
        true
    }

    /// Bins the triangles to the tiles: one bin per tile that some triangle is
    /// binned to, holding the indices of those triangles in ascending order,
    /// with the bins ordered by the Morton key of their tile.
    pub fn bin_triangles<D, T>(tiles: &TilesInfo, triangles: &[Triangle<D, T>]) -> (bins: Vec<
        TileBin,
    >)
        requires
            tiles_binnable(*tiles),
            forall|i: int|
                0 <= i < triangles@.len() ==> binning_fits(
                    #[trigger] triangles@[i].position,
                    tiles.tiles@,
                    tiles.rows as int,
                    tiles.cols as int,
                ),
        ensures
            bins@.map_values(|b: TileBin| b@).to_multiset() == bins_upto(
                triangles@,
                *tiles,
                tiles.tiles@.len() as int,
            ).to_multiset(),
            forall|i: int, j: int|
                0 <= i <= j < bins@.len() ==> bins@[i].morton_key <= bins@[j].morton_key,
            forall|i: int, k: int|
                0 <= i < triangles@.len() && 0 <= k < triangle_tile_hits(
                    triangles@[i].position,
                    tiles.tiles@,
                    tiles.rows as int,
                    tiles.cols as int,
                ).len() ==> binned_in(
                    bins@.map_values(|b: TileBin| b@),
                    tiles.tiles@[#[trigger] triangle_tile_hits(
                        triangles@[i].position,
                        tiles.tiles@,
                        tiles.rows as int,
                        tiles.cols as int,
                    )[k] as int],
                    i as usize,
                ),
            forall|b: int, j: int|
                0 <= b < bins@.len() && 0 <= j < bins@[b].indices@.len() ==> hits_tile(
                    triangles@,
                    *tiles,
                    bins@[b].tile,
                    #[trigger] bins@[b].indices@[j],
                ),
    {
        let n_tiles = tiles.tiles.len();
        let mut buckets: Vec<Vec<usize>> = Vec::new();
        let mut t: usize = 0;
        while t < n_tiles
            invariant
                t <= n_tiles,
                buckets@.len() == t,
                forall|k: int| 0 <= k < t ==> (#[trigger] buckets@[k])@ == Seq::<usize>::empty(),
            decreases n_tiles - t,
        {
            buckets.push(Vec::new());
            t = t + 1;
        }
        let mut i: usize = 0;
        while i < triangles.len()
            invariant
                tiles_binnable(*tiles),
                forall|k: int|
                    0 <= k < triangles@.len() ==> binning_fits(
                        #[trigger] triangles@[k].position,
                        tiles.tiles@,
                        tiles.rows as int,
                        tiles.cols as int,
                    ),
                n_tiles == tiles.tiles@.len(),
                i <= triangles@.len(),
                buckets@.len() == n_tiles,
                forall|k: int|
                    0 <= k < n_tiles ==> (#[trigger] buckets@[k])@ == tile_triangles(
                        triangles@,
                        *tiles,
                        k,
                        i as int,
                    ),
            decreases triangles@.len() - i,
        {
            proof {
                assert(binning_fits(triangles@[i as int].position, tiles.tiles@, tiles.rows as int, tiles.cols as int));
            }
            let hits = Self::check_triangle(&triangles[i], tiles.rows, tiles.cols, tiles.tiles.as_slice());
            proof {
                lemma_hits_increasing(triangles@[i as int].position, tiles.tiles@, tiles.rows as int, tiles.cols as int);
            }
            let ghost before = buckets@;
            let mut j: usize = 0;
            while j < hits.len()
                invariant
                    n_tiles == tiles.tiles@.len(),
                    i < triangles@.len(),
                    buckets@.len() == n_tiles,
                    hits@ == triangle_tile_hits(
                        triangles@[i as int].position,
                        tiles.tiles@,
                        tiles.rows as int,
                        tiles.cols as int,
                    ),
                    forall|k1: int, k2: int| 0 <= k1 < k2 < hits@.len() ==> hits@[k1] < hits@[k2],
                    forall|k: int| 0 <= k < hits@.len() ==> hits@[k] < n_tiles,
                    j <= hits@.len(),
                    forall|k: int|
                        0 <= k < n_tiles ==> (#[trigger] buckets@[k])@ == tile_triangles(
                            triangles@,
                            *tiles,
                            k,
                            i as int,
                        ) + if hits@.subrange(0, j as int).contains(k as usize) {
                            seq![i]
                        } else {
                            Seq::empty()
                        },
                decreases hits@.len() - j,
            {
                let slot = hits[j];
                let ghost prev = buckets@;
                buckets[slot].push(i);
                proof {
                    let s0 = hits@.subrange(0, j as int);
                    let s1 = hits@.subrange(0, j + 1);
                    assert(s1 == s0.push(slot));
                    assert(!s0.contains(slot)) by {
                        if s0.contains(slot) {
                            let w = choose|w: int| 0 <= w < s0.len() && #[trigger] s0[w] == slot;
                            assert(hits@[w] < hits@[j as int]);
                        }
                    }
                    assert forall|k: int| 0 <= k < n_tiles implies (#[trigger] buckets@[k])@
                        == tile_triangles(triangles@, *tiles, k, i as int) + if s1.contains(
                        k as usize,
                    ) {
                        seq![i]
                    } else {
                        Seq::empty()
                    } by {
                        if k == slot {
                            assert(s1[j as int] == slot);
                        } else {
                            assert(buckets@[k] == prev[k]);
                            if s1.contains(k as usize) {
                                let w = choose|w: int| 0 <= w < s1.len() && #[trigger] s1[w] == k as usize;
                                assert(s0[w] == k as usize);
                            }
                            if s0.contains(k as usize) {
                                let w = choose|w: int| 0 <= w < s0.len() && #[trigger] s0[w] == k as usize;
                                assert(s1[w] == k as usize);
                            }
                        }
                    }
                }
                j = j + 1;
            }
            proof {
                assert(hits@.subrange(0, hits@.len() as int) == hits@);
                assert forall|k: int| 0 <= k < n_tiles implies (#[trigger] buckets@[k])@
                    == tile_triangles(triangles@, *tiles, k, i + 1) by {
                }
            }
            i = i + 1;
        }
        let mut bins: Vec<TileBin> = Vec::new();
        let mut t: usize = 0;
        while t < n_tiles
            invariant
                tiles_binnable(*tiles),
                n_tiles == tiles.tiles@.len(),
                t <= n_tiles,
                buckets@.len() == n_tiles,
                forall|k: int|
                    t <= k < n_tiles ==> (#[trigger] buckets@[k])@ == tile_triangles(
                        triangles@,
                        *tiles,
                        k,
                        triangles@.len() as int,
                    ),
                bins@.map_values(|b: TileBin| b@) == bins_upto(triangles@, *tiles, t as int),
            decreases n_tiles - t,
        {
            let ghost prev = bins@;
            if buckets[t].len() > 0 {
                let mut indices: Vec<usize> = Vec::new();
                std::mem::swap(&mut indices, &mut buckets[t]);
                let tile = tiles.tiles[t];
                let key = morton(tile.x as u32, tile.y as u32);
                bins.push(TileBin { tile, indices, morton_key: key });
            }
            proof {
                assert(bins@.map_values(|b: TileBin| b@) =~= bins_upto(triangles@, *tiles, t + 1));
            }
            t = t + 1;
        }
        sort_bins_by_morton_key(&mut bins);
        proof {
            lemma_bins_have_hits(bins@.map_values(|b: TileBin| b@), triangles@, *tiles);
            let views = bins@.map_values(|b: TileBin| b@);
            lemma_bins_only_hits(views, triangles@, *tiles);
            assert forall|b: int, j: int|
                0 <= b < bins@.len() && 0 <= j < bins@[b].indices@.len() implies hits_tile(
                triangles@,
                *tiles,
                bins@[b].tile,
                #[trigger] bins@[b].indices@[j],
            ) by {
                assert(views[b] == bins@[b]@);
                assert(views[b].indices[j] == bins@[b].indices@[j]);
            }
        }
        bins
    }
}


proof fn lemma_hit_row_facts(p: [Point; 3], tiles: Seq<Tile>, cols: int, row: int, c_lo: int, c_hi: int)
    requires
        0 <= c_lo,
        c_hi < cols,
        0 <= row,
        row * cols + cols <= usize::MAX,
    ensures
        forall|k: int|
            0 <= k < hit_row(p, tiles, cols, row, c_lo, c_hi).len() ==> row * cols + c_lo
                <= #[trigger] hit_row(p, tiles, cols, row, c_lo, c_hi)[k] <= row * cols + c_hi,
        forall|k1: int, k2: int|
            0 <= k1 < k2 < hit_row(p, tiles, cols, row, c_lo, c_hi).len() ==> #[trigger] hit_row(
                p,
                tiles,
                cols,
                row,
                c_lo,
                c_hi,
            )[k1] < #[trigger] hit_row(p, tiles, cols, row, c_lo, c_hi)[k2],
    decreases c_hi + 1 - c_lo,
{
    if c_hi >= c_lo {
        lemma_hit_row_facts(p, tiles, cols, row, c_lo, c_hi - 1);
        let prev = hit_row(p, tiles, cols, row, c_lo, c_hi - 1);
        let cur = hit_row(p, tiles, cols, row, c_lo, c_hi);
        assert forall|k: int| 0 <= k < prev.len() implies cur[k] == prev[k] by {}
        assert(0 <= row * cols) by (nonlinear_arith)
            requires
                0 <= row,
                0 <= c_lo <= c_hi < cols,
        ;
    }
}

proof fn lemma_hit_box_facts(
    p: [Point; 3],
    tiles: Seq<Tile>,
    cols: int,
    r_lo: int,
    r_hi: int,
    c_lo: int,
    c_hi: int,
)
    requires
        0 <= c_lo,
        c_hi < cols,
        cols >= 1,
        0 <= r_lo,
        r_hi * cols + cols <= usize::MAX,
    ensures
        forall|k: int|
            0 <= k < hit_box(p, tiles, cols, r_lo, r_hi, c_lo, c_hi).len() ==> r_lo * cols
                <= #[trigger] hit_box(p, tiles, cols, r_lo, r_hi, c_lo, c_hi)[k] < r_hi * cols + cols,
        forall|k1: int, k2: int|
            0 <= k1 < k2 < hit_box(p, tiles, cols, r_lo, r_hi, c_lo, c_hi).len() ==> #[trigger] hit_box(
                p,
                tiles,
                cols,
                r_lo,
                r_hi,
                c_lo,
                c_hi,
            )[k1] < #[trigger] hit_box(p, tiles, cols, r_lo, r_hi, c_lo, c_hi)[k2],
    decreases r_hi + 1 - r_lo,
{
    if r_hi >= r_lo {
        assert((r_hi - 1) * cols + cols == r_hi * cols && r_lo * cols <= r_hi * cols && 0 <= r_hi * cols)
            by (nonlinear_arith)
            requires
                0 <= r_lo <= r_hi,
                cols >= 1,
        ;
        lemma_hit_box_facts(p, tiles, cols, r_lo, r_hi - 1, c_lo, c_hi);
        lemma_hit_row_facts(p, tiles, cols, r_hi, c_lo, c_hi);
        let prev = hit_box(p, tiles, cols, r_lo, r_hi - 1, c_lo, c_hi);
        let row = hit_row(p, tiles, cols, r_hi, c_lo, c_hi);
        let cur = hit_box(p, tiles, cols, r_lo, r_hi, c_lo, c_hi);
        assert(cur == prev + row);
        assert forall|k: int| 0 <= k < cur.len() implies r_lo * cols <= #[trigger] cur[k] < r_hi * cols
            + cols by {
            if k < prev.len() {
                assert(cur[k] == prev[k]);
            } else {
                assert(cur[k] == row[k - prev.len()]);
            }
        }
        assert forall|k1: int, k2: int| 0 <= k1 < k2 < cur.len() implies #[trigger] cur[k1]
            < #[trigger] cur[k2] by {
            if k2 < prev.len() {
                assert(cur[k1] == prev[k1] && cur[k2] == prev[k2]);
            } else if k1 < prev.len() {
                assert(cur[k1] == prev[k1] && cur[k2] == row[k2 - prev.len()]);
            } else {
                assert(cur[k1] == row[k1 - prev.len()] && cur[k2] == row[k2 - prev.len()]);
            }
        }
    }
}

/// The slots a triangle is binned to are strictly increasing and name tiles
/// of the grid.
pub proof fn lemma_hits_increasing(p: [Point; 3], tiles: Seq<Tile>, rows: int, cols: int)
    requires
        rows >= 1,
        cols >= 1,
        rows * cols <= tiles.len(),
        rows * cols <= usize::MAX,
    ensures
        forall|k1: int, k2: int|
            0 <= k1 < k2 < triangle_tile_hits(p, tiles, rows, cols).len() ==> #[trigger] triangle_tile_hits(
                p,
                tiles,
                rows,
                cols,
            )[k1] < #[trigger] triangle_tile_hits(p, tiles, rows, cols)[k2],
        forall|k: int|
            0 <= k < triangle_tile_hits(p, tiles, rows, cols).len() ==> #[trigger] triangle_tile_hits(
                p,
                tiles,
                rows,
                cols,
            )[k] < rows * cols,
{
    if triangle_area(p) >= 2 {
        let r_lo = tile_coord(min3(p[0].y as int, p[1].y as int, p[2].y as int), TILE_HEIGHT as int);
        let r_hi = min_int(
            tile_coord(max3(p[0].y as int, p[1].y as int, p[2].y as int), TILE_HEIGHT as int),
            rows - 1,
        );
        let c_lo = tile_coord(min3(p[0].x as int, p[1].x as int, p[2].x as int), TILE_WIDTH as int);
        let c_hi = min_int(
            tile_coord(max3(p[0].x as int, p[1].x as int, p[2].x as int), TILE_WIDTH as int),
            cols - 1,
        );
        assert(r_hi * cols + cols <= rows * cols) by (nonlinear_arith)
            requires
                r_hi <= rows - 1,
                cols >= 1,
        ;
        lemma_hit_box_facts(p, tiles, cols, r_lo, r_hi, c_lo, c_hi);
    }
}


proof fn lemma_edge_at_corner(a: Point, b: Point, tile: Tile, x: int, y: int)
    requires
        tile.x <= x <= tile.x + tile.width,
        tile.y <= y <= tile.y + tile.height,
    ensures
        ({
            let c = furthest_corner(tile, -(b.y - a.y), b.x - a.x);
            edge(a, b, c.0, c.1) >= edge(a, b, x, y)
        }),
{
    let c = furthest_corner(tile, -(b.y - a.y), b.x - a.x);
    let nx = -(b.y - a.y);
    let ny = b.x - a.x;
    assert(edge(a, b, c.0, c.1) - edge(a, b, x, y) == nx * (c.0 - x) + ny * (c.1 - y))
        by (nonlinear_arith)
        requires
            nx == -(b.y - a.y),
            ny == b.x - a.x,
    ;
    assert(nx * (c.0 - x) >= 0) by (nonlinear_arith)
        requires
            nx >= 0 ==> c.0 - x >= 0,
            nx < 0 ==> c.0 - x <= 0,
    ;
    assert(ny * (c.1 - y) >= 0) by (nonlinear_arith)
        requires
            ny >= 0 ==> c.1 - y >= 0,
            ny < 0 ==> c.1 - y <= 0,
    ;
}

proof fn lemma_hit_row_contains(
    p: [Point; 3],
    tiles: Seq<Tile>,
    cols: int,
    row: int,
    c_lo: int,
    c_hi: int,
    c: int,
)
    requires
        c_lo <= c <= c_hi,
        tile_may_overlap(p, tiles[tile_slot(cols, c, row)]),
    ensures
        hit_row(p, tiles, cols, row, c_lo, c_hi).contains(tile_slot(cols, c, row) as usize),
    decreases c_hi + 1 - c_lo,
{
    let cur = hit_row(p, tiles, cols, row, c_lo, c_hi);
    let prev = hit_row(p, tiles, cols, row, c_lo, c_hi - 1);
    if c < c_hi {
        lemma_hit_row_contains(p, tiles, cols, row, c_lo, c_hi - 1, c);
        let k = choose|k: int| 0 <= k < prev.len() && prev[k] == tile_slot(cols, c, row) as usize;
        assert(cur[k] == prev[k]);
    } else {
        assert(cur[prev.len() as int] == tile_slot(cols, c, row) as usize);
    }
}

proof fn lemma_hit_box_contains(
    p: [Point; 3],
    tiles: Seq<Tile>,
    cols: int,
    r_lo: int,
    r_hi: int,
    c_lo: int,
    c_hi: int,
    r: int,
    c: int,
)
    requires
        r_lo <= r <= r_hi,
        c_lo <= c <= c_hi,
        tile_may_overlap(p, tiles[tile_slot(cols, c, r)]),
    ensures
        hit_box(p, tiles, cols, r_lo, r_hi, c_lo, c_hi).contains(tile_slot(cols, c, r) as usize),
    decreases r_hi + 1 - r_lo,
{
    let cur = hit_box(p, tiles, cols, r_lo, r_hi, c_lo, c_hi);
    let prev = hit_box(p, tiles, cols, r_lo, r_hi - 1, c_lo, c_hi);
    let row = hit_row(p, tiles, cols, r_hi, c_lo, c_hi);
    assert(cur == prev + row);
    if r < r_hi {
        lemma_hit_box_contains(p, tiles, cols, r_lo, r_hi - 1, c_lo, c_hi, r, c);
        let k = choose|k: int| 0 <= k < prev.len() && prev[k] == tile_slot(cols, c, r) as usize;
        assert(cur[k] == prev[k]);
    } else {
        lemma_hit_row_contains(p, tiles, cols, r, c_lo, c_hi, c);
        let k = choose|k: int| 0 <= k < row.len() && row[k] == tile_slot(cols, c, r) as usize;
        assert(cur[prev.len() + k] == row[k]);
    }
}

/// Binning drops no pixel: for a triangle that is binned at all (doubled
/// area at least 2), every pixel of the framebuffer in its bounding box that
/// it covers lies in a tile it is binned to, namely the tile of the pixel's
/// column and row of tiles.
pub proof fn lemma_binning_keeps_covered_pixels(
    p: [Point; 3],
    info: TilesInfo,
    width: int,
    height: int,
    x: int,
    y: int,
)
    requires
        is_tile_layout(info, width, height),
        0 <= width <= i32::MAX,
        0 <= height <= i32::MAX,
        triangle_area(p) >= 2,
        0 <= x < width,
        0 <= y < height,
        min3(p[0].x as int, p[1].x as int, p[2].x as int) <= x <= max3(p[0].x as int, p[1].x as int, p[2].x as int),
        min3(p[0].y as int, p[1].y as int, p[2].y as int) <= y <= max3(p[0].y as int, p[1].y as int, p[2].y as int),
        covers(p, x, y),
    ensures
        ({
            let slot = tile_slot(info.cols as int, x / TILE_WIDTH as int, y / TILE_HEIGHT as int);
            let tile = info.tiles@[slot];
            &&& triangle_tile_hits(p, info.tiles@, info.rows as int, info.cols as int).contains(slot as usize)
            &&& tile.x <= x < tile.x + tile.width
            &&& tile.y <= y < tile.y + tile.height
        }),
{
    let cols = info.cols as int;
    let rows = info.rows as int;
    let xt = x / 64;
    let yt = y / 64;
    assert(0 <= xt < cols && xt * 64 <= x < xt * 64 + 64);
    assert(0 <= yt < rows && yt * 64 <= y < yt * 64 + 64);
    let tile = info.tiles@[tile_slot(cols, xt, yt)];
    assert(tile == layout_tile(width, height, xt, yt));
    assert(tile.x <= x < tile.x + tile.width);
    assert(tile.y <= y < tile.y + tile.height);
    lemma_edge_at_corner(p[0], p[1], tile, x, y);
    lemma_edge_at_corner(p[1], p[2], tile, x, y);
    lemma_edge_at_corner(p[2], p[0], tile, x, y);
    assert(edges_reach_tile(p, tile));
    let c_lo = tile_coord(min3(p[0].x as int, p[1].x as int, p[2].x as int), TILE_WIDTH as int);
    let c_hi = crate::datatypes::min_int(
        tile_coord(max3(p[0].x as int, p[1].x as int, p[2].x as int), TILE_WIDTH as int),
        cols - 1,
    );
    let r_lo = tile_coord(min3(p[0].y as int, p[1].y as int, p[2].y as int), TILE_HEIGHT as int);
    let r_hi = crate::datatypes::min_int(
        tile_coord(max3(p[0].y as int, p[1].y as int, p[2].y as int), TILE_HEIGHT as int),
        rows - 1,
    );
    assert(c_lo <= xt <= c_hi);
    assert(r_lo <= yt <= r_hi);
    lemma_hit_box_contains(p, info.tiles@, cols, r_lo, r_hi, c_lo, c_hi, yt, xt);
}

proof fn lemma_area_rotated(p: [Point; 3], q: [Point; 3])
    requires
        q[0] == p[1],
        q[1] == p[2],
        q[2] == p[0],
    ensures
        triangle_area(q) == triangle_area(p),
{
    let (ax, ay, bx, by, cx, cy) = (
        p[0].x as int,
        p[0].y as int,
        p[1].x as int,
        p[1].y as int,
        p[2].x as int,
        p[2].y as int,
    );
    assert((cx - bx) * (ay - by) - (cy - by) * (ax - bx) == (bx - ax) * (cy - ay) - (by - ay) * (cx
        - ax)) by (nonlinear_arith);
}

proof fn lemma_overlap_rotated(p: [Point; 3], q: [Point; 3], tile: Tile)
    requires
        q[0] == p[1],
        q[1] == p[2],
        q[2] == p[0],
    ensures
        tile_may_overlap(q, tile) == tile_may_overlap(p, tile),
{
}

proof fn lemma_hit_row_rotated(
    p: [Point; 3],
    q: [Point; 3],
    tiles: Seq<Tile>,
    cols: int,
    row: int,
    c_lo: int,
    c_hi: int,
)
    requires
        q[0] == p[1],
        q[1] == p[2],
        q[2] == p[0],
    ensures
        hit_row(q, tiles, cols, row, c_lo, c_hi) == hit_row(p, tiles, cols, row, c_lo, c_hi),
    decreases c_hi + 1 - c_lo,
{
    if c_hi >= c_lo {
        lemma_hit_row_rotated(p, q, tiles, cols, row, c_lo, c_hi - 1);
        lemma_overlap_rotated(p, q, tiles[tile_slot(cols, c_hi, row)]);
    }
}

proof fn lemma_hit_box_rotated(
    p: [Point; 3],
    q: [Point; 3],
    tiles: Seq<Tile>,
    cols: int,
    r_lo: int,
    r_hi: int,
    c_lo: int,
    c_hi: int,
)
    requires
        q[0] == p[1],
        q[1] == p[2],
        q[2] == p[0],
    ensures
        hit_box(q, tiles, cols, r_lo, r_hi, c_lo, c_hi) == hit_box(p, tiles, cols, r_lo, r_hi, c_lo, c_hi),
    decreases r_hi + 1 - r_lo,
{
    if r_hi >= r_lo {
        lemma_hit_box_rotated(p, q, tiles, cols, r_lo, r_hi - 1, c_lo, c_hi);
        lemma_hit_row_rotated(p, q, tiles, cols, r_hi, c_lo, c_hi);
    }
}

proof fn lemma_row_reaches(p: [Point; 3], tiles: Seq<Tile>, cols: int, row: int, c_lo: int, c_hi: int)
    requires
        0 <= c_lo,
        c_hi < cols,
        0 <= row,
        row * cols + cols <= usize::MAX,
    ensures
        forall|k: int|
            0 <= k < hit_row(p, tiles, cols, row, c_lo, c_hi).len() ==> tile_may_overlap(
                p,
                tiles[#[trigger] hit_row(p, tiles, cols, row, c_lo, c_hi)[k] as int],
            ),
    decreases c_hi + 1 - c_lo,
{
    if c_hi >= c_lo {
        lemma_row_reaches(p, tiles, cols, row, c_lo, c_hi - 1);
        let prev = hit_row(p, tiles, cols, row, c_lo, c_hi - 1);
        let cur = hit_row(p, tiles, cols, row, c_lo, c_hi);
        assert(0 <= tile_slot(cols, c_hi, row) <= row * cols + cols) by (nonlinear_arith)
            requires
                0 <= c_lo <= c_hi < cols,
                0 <= row,
        ;
        assert forall|k: int| 0 <= k < cur.len() implies tile_may_overlap(
            p,
            tiles[#[trigger] cur[k] as int],
        ) by {
            if k < prev.len() {
                assert(cur[k] == prev[k]);
            }
        }
    }
}

proof fn lemma_box_reaches(
    p: [Point; 3],
    tiles: Seq<Tile>,
    cols: int,
    r_lo: int,
    r_hi: int,
    c_lo: int,
    c_hi: int,
)
    requires
        0 <= c_lo,
        c_hi < cols,
        cols >= 1,
        0 <= r_lo,
        r_hi * cols + cols <= usize::MAX,
    ensures
        forall|k: int|
            0 <= k < hit_box(p, tiles, cols, r_lo, r_hi, c_lo, c_hi).len() ==> tile_may_overlap(
                p,
                tiles[#[trigger] hit_box(p, tiles, cols, r_lo, r_hi, c_lo, c_hi)[k] as int],
            ),
    decreases r_hi + 1 - r_lo,
{
    if r_hi >= r_lo {
        assert((r_hi - 1) * cols + cols == r_hi * cols) by (nonlinear_arith);
        assert(r_hi * cols + cols >= 0) by (nonlinear_arith)
            requires
                0 <= r_lo <= r_hi,
                cols >= 1,
        ;
        lemma_box_reaches(p, tiles, cols, r_lo, r_hi - 1, c_lo, c_hi);
        lemma_row_reaches(p, tiles, cols, r_hi, c_lo, c_hi);
        let prev = hit_box(p, tiles, cols, r_lo, r_hi - 1, c_lo, c_hi);
        let row = hit_row(p, tiles, cols, r_hi, c_lo, c_hi);
        let cur = hit_box(p, tiles, cols, r_lo, r_hi, c_lo, c_hi);
        assert(cur == prev + row);
        assert forall|k: int| 0 <= k < cur.len() implies tile_may_overlap(
            p,
            tiles[#[trigger] cur[k] as int],
        ) by {
            if k < prev.len() {
                assert(cur[k] == prev[k]);
            } else {
                assert(cur[k] == row[k - prev.len()]);
            }
        }
    }
}

/// Binning never takes a tile that an edge of the triangle cuts off: if some
/// edge's function is negative at every point of a tile (its corners
/// included), the triangle lies wholly on the other side of that edge, and
/// the tile is not binned unless it holds the triangle's whole bounding box.
pub proof fn lemma_separated_tile_not_binned(
    p: [Point; 3],
    tiles: Seq<Tile>,
    rows: int,
    cols: int,
    t: int,
    e: int,
)
    requires
        rows >= 1,
        cols >= 1,
        rows * cols <= usize::MAX,
        rows * cols <= tiles.len(),
        0 <= t < rows * cols,
        0 <= e < 3,
        tiles[t].width >= 0,
        tiles[t].height >= 0,
        !tile_contains_bbox(p, tiles[t]),
        forall|x: int, y: int|
            tiles[t].x <= x <= tiles[t].x + tiles[t].width && tiles[t].y <= y <= tiles[t].y
                + tiles[t].height ==> #[trigger] edge(p[e], p[(e + 1) % 3], x, y) < 0,
    ensures
        !triangle_tile_hits(p, tiles, rows, cols).contains(t as usize),
{
    let tile = tiles[t];
    if triangle_tile_hits(p, tiles, rows, cols).contains(t as usize) {
        let hits = triangle_tile_hits(p, tiles, rows, cols);
        let k = choose|k: int| 0 <= k < hits.len() && hits[k] == t as usize;
        assert((t as usize) as int == t);
        let r_hi = bin_rows_hi(p, rows);
        assert(r_hi * cols + cols <= rows * cols) by (nonlinear_arith)
            requires
                r_hi <= rows - 1,
                cols >= 1,
        ;
        lemma_box_reaches(p, tiles, cols, bin_rows_lo(p), r_hi, bin_cols_lo(p), bin_cols_hi(p, cols));
        assert(tile_may_overlap(p, tiles[hits[k] as int]));
        assert(edges_reach_tile(p, tile));
        let ca = furthest_corner(tile, -(p[1].y - p[0].y), p[1].x - p[0].x);
        let cb = furthest_corner(tile, -(p[2].y - p[1].y), p[2].x - p[1].x);
        let cc = furthest_corner(tile, -(p[0].y - p[2].y), p[0].x - p[2].x);
        if e == 0 {
            assert(edge(p[e], p[(e + 1) % 3], ca.0, ca.1) < 0);
        } else if e == 1 {
            assert(edge(p[e], p[(e + 1) % 3], cb.0, cb.1) < 0);
        } else {
            assert(edge(p[e], p[(e + 1) % 3], cc.0, cc.1) < 0);
        }
    }
}

/// Binning does not depend on which vertex comes first: rotating a
/// triangle's vertices `(a, b, c)` to `(b, c, a)` keeps its orientation, and
/// it is binned to the same tiles, in the same order. So each of its three
/// edges takes part in the test alike.
pub proof fn lemma_hits_rotation_invariant(
    p: [Point; 3],
    q: [Point; 3],
    tiles: Seq<Tile>,
    rows: int,
    cols: int,
)
    requires
        q[0] == p[1],
        q[1] == p[2],
        q[2] == p[0],
    ensures
        triangle_tile_hits(q, tiles, rows, cols) == triangle_tile_hits(p, tiles, rows, cols),
{
    lemma_area_rotated(p, q);
    assert(bin_rows_lo(q) == bin_rows_lo(p));
    assert(bin_rows_hi(q, rows) == bin_rows_hi(p, rows));
    assert(bin_cols_lo(q) == bin_cols_lo(p));
    assert(bin_cols_hi(q, cols) == bin_cols_hi(p, cols));
    lemma_hit_box_rotated(
        p,
        q,
        tiles,
        cols,
        bin_rows_lo(p),
        bin_rows_hi(p, rows),
        bin_cols_lo(p),
        bin_cols_hi(p, cols),
    );
}

proof fn lemma_tile_triangles_has<D, T>(
    tris: Seq<Triangle<D, T>>,
    info: TilesInfo,
    t: int,
    m: int,
    i: int,
)
    requires
        0 <= i < m,
        triangle_tile_hits(tris[i].position, info.tiles@, info.rows as int, info.cols as int).contains(
            t as usize,
        ),
    ensures
        tile_triangles(tris, info, t, m).contains(i as usize),
    decreases m,
{
    let prev = tile_triangles(tris, info, t, m - 1);
    let cur = tile_triangles(tris, info, t, m);
    if i < m - 1 {
        lemma_tile_triangles_has(tris, info, t, m - 1, i);
        let k = choose|k: int| 0 <= k < prev.len() && prev[k] == i as usize;
        assert(cur[k] == prev[k]);
    } else {
        assert(cur[prev.len() as int] == i as usize);
    }
}

proof fn lemma_bins_upto_has<D, T>(tris: Seq<Triangle<D, T>>, info: TilesInfo, n: int, t: int, i: int)
    requires
        0 <= t < n,
        0 <= i < tris.len(),
        0 <= t <= usize::MAX,
        triangle_tile_hits(tris[i].position, info.tiles@, info.rows as int, info.cols as int).contains(
            t as usize,
        ),
    ensures
        exists|k: int|
            0 <= k < bins_upto(tris, info, n).len() && #[trigger] bins_upto(tris, info, n)[k].tile
                == info.tiles@[t] && bins_upto(tris, info, n)[k].indices.contains(i as usize),
    decreases n,
{
    let prev = bins_upto(tris, info, n - 1);
    let cur = bins_upto(tris, info, n);
    if t < n - 1 {
        lemma_bins_upto_has(tris, info, n - 1, t, i);
        let k = choose|k: int|
            0 <= k < prev.len() && #[trigger] prev[k].tile == info.tiles@[t] && prev[k].indices.contains(
                i as usize,
            );
        assert(cur[k] == prev[k]);
    } else {
        assert((t as usize) as int == t);
        lemma_tile_triangles_has(tris, info, t, tris.len() as int, i);
        let list = tile_triangles(tris, info, t, tris.len() as int);
        assert(list.len() > 0);
        assert(cur[prev.len() as int].tile == info.tiles@[t]);
    }
}

/// Every tile a triangle is binned to gets it: for each slot in the hits of
/// triangle `i`, some bin holds that slot's tile and lists `i`.
pub proof fn lemma_every_hit_binned<D, T>(tris: Seq<Triangle<D, T>>, info: TilesInfo, i: int, k: int)
    requires
        tiles_binnable(info),
        info.tiles@.len() <= usize::MAX,
        0 <= i < tris.len(),
        0 <= k < triangle_tile_hits(tris[i].position, info.tiles@, info.rows as int, info.cols as int).len(),
    ensures
        ({
            let t = triangle_tile_hits(tris[i].position, info.tiles@, info.rows as int, info.cols as int)[k];
            exists|b: int|
                0 <= b < bins_upto(tris, info, info.tiles@.len() as int).len()
                    && #[trigger] bins_upto(tris, info, info.tiles@.len() as int)[b].tile
                    == info.tiles@[t as int]
                    && bins_upto(tris, info, info.tiles@.len() as int)[b].indices.contains(i as usize)
        }),
{
    let hits = triangle_tile_hits(tris[i].position, info.tiles@, info.rows as int, info.cols as int);
    lemma_hits_increasing(tris[i].position, info.tiles@, info.rows as int, info.cols as int);
    let t = hits[k];
    assert(hits.contains(t));
    lemma_bins_upto_has(tris, info, info.tiles@.len() as int, t as int, i);
}

proof fn lemma_bins_have_hits<D, T>(views: Seq<TileBinView>, tris: Seq<Triangle<D, T>>, info: TilesInfo)
    requires
        tiles_binnable(info),
        info.tiles@.len() <= usize::MAX,
        views.to_multiset() == bins_upto(tris, info, info.tiles@.len() as int).to_multiset(),
    ensures
        forall|i: int, k: int|
            0 <= i < tris.len() && 0 <= k < triangle_tile_hits(
                tris[i].position,
                info.tiles@,
                info.rows as int,
                info.cols as int,
            ).len() ==> binned_in(
                views,
                info.tiles@[#[trigger] triangle_tile_hits(
                    tris[i].position,
                    info.tiles@,
                    info.rows as int,
                    info.cols as int,
                )[k] as int],
                i as usize,
            ),
{
    let all = bins_upto(tris, info, info.tiles@.len() as int);
    assert forall|i: int, k: int|
        0 <= i < tris.len() && 0 <= k < triangle_tile_hits(
            tris[i].position,
            info.tiles@,
            info.rows as int,
            info.cols as int,
        ).len() implies binned_in(
        views,
        info.tiles@[#[trigger] triangle_tile_hits(
            tris[i].position,
            info.tiles@,
            info.rows as int,
            info.cols as int,
        )[k] as int],
        i as usize,
    ) by {
        broadcast use vstd::seq_lib::group_to_multiset_ensures;

        lemma_every_hit_binned(tris, info, i, k);
        let t = triangle_tile_hits(tris[i].position, info.tiles@, info.rows as int, info.cols as int)[k];
        let c = choose|c: int|
            0 <= c < all.len() && #[trigger] all[c].tile == info.tiles@[t as int]
                && all[c].indices.contains(i as usize);
        assert(all.contains(all[c]));
        assert(all.to_multiset().count(all[c]) > 0);
        assert(views.contains(all[c]));
        let b = choose|b: int| 0 <= b < views.len() && views[b] == all[c];
        assert(views[b].tile == info.tiles@[t as int]);
    }
}

proof fn lemma_tile_triangles_only_hits<D, T>(tris: Seq<Triangle<D, T>>, info: TilesInfo, t: int, m: int)
    requires
        0 <= m <= tris.len(),
        tris.len() <= usize::MAX,
    ensures
        forall|j: int|
            0 <= j < tile_triangles(tris, info, t, m).len() ==> {
                let i = #[trigger] tile_triangles(tris, info, t, m)[j];
                &&& i < m
                &&& triangle_tile_hits(
                    tris[i as int].position,
                    info.tiles@,
                    info.rows as int,
                    info.cols as int,
                ).contains(t as usize)
            },
    decreases m,
{
    if m > 0 {
        lemma_tile_triangles_only_hits(tris, info, t, m - 1);
        let prev = tile_triangles(tris, info, t, m - 1);
        let cur = tile_triangles(tris, info, t, m);
        assert forall|j: int| 0 <= j < cur.len() implies {
            let i = #[trigger] cur[j];
            &&& i < m
            &&& triangle_tile_hits(
                tris[i as int].position,
                info.tiles@,
                info.rows as int,
                info.cols as int,
            ).contains(t as usize)
        } by {
            if j < prev.len() {
                assert(cur[j] == prev[j]);
            } else {
                assert(cur[j] == (m - 1) as usize);
                assert(((m - 1) as usize) as int == m - 1);
            }
        }
    }
}

proof fn lemma_bins_upto_only_hits<D, T>(tris: Seq<Triangle<D, T>>, info: TilesInfo, n: int)
    requires
        0 <= n <= info.tiles@.len(),
        tris.len() <= usize::MAX,
    ensures
        forall|b: int, j: int|
            0 <= b < bins_upto(tris, info, n).len() && 0 <= j < bins_upto(tris, info, n)[b].indices.len()
                ==> hits_tile(
                tris,
                info,
                bins_upto(tris, info, n)[b].tile,
                #[trigger] bins_upto(tris, info, n)[b].indices[j],
            ),
    decreases n,
{
    if n > 0 {
        lemma_bins_upto_only_hits(tris, info, n - 1);
        lemma_tile_triangles_only_hits(tris, info, n - 1, tris.len() as int);
        let prev = bins_upto(tris, info, n - 1);
        let cur = bins_upto(tris, info, n);
        assert forall|b: int, j: int|
            0 <= b < cur.len() && 0 <= j < cur[b].indices.len() implies hits_tile(
            tris,
            info,
            cur[b].tile,
            #[trigger] cur[b].indices[j],
        ) by {
            if b < prev.len() {
                assert(cur[b] == prev[b]);
            } else {
                let list = tile_triangles(tris, info, n - 1, tris.len() as int);
                assert(cur[b].indices == list);
                assert(cur[b].tile == info.tiles@[n - 1]);
                let i = list[j];
                assert(triangle_tile_hits(
                    tris[i as int].position,
                    info.tiles@,
                    info.rows as int,
                    info.cols as int,
                ).contains((n - 1) as usize));
            }
        }
    }
}

/// Bins hold only triangles binned to their tile: every index a bin lists
/// is a triangle whose hits include a slot of that bin's tile.
pub proof fn lemma_bins_only_hits<D, T>(views: Seq<TileBinView>, tris: Seq<Triangle<D, T>>, info: TilesInfo)
    requires
        tris.len() <= usize::MAX,
        views.to_multiset() == bins_upto(tris, info, info.tiles@.len() as int).to_multiset(),
    ensures
        forall|b: int, j: int|
            0 <= b < views.len() && 0 <= j < views[b].indices.len() ==> hits_tile(
                tris,
                info,
                views[b].tile,
                #[trigger] views[b].indices[j],
            ),
{
    let all = bins_upto(tris, info, info.tiles@.len() as int);
    lemma_bins_upto_only_hits(tris, info, info.tiles@.len() as int);
    assert forall|b: int, j: int|
        0 <= b < views.len() && 0 <= j < views[b].indices.len() implies hits_tile(
        tris,
        info,
        views[b].tile,
        #[trigger] views[b].indices[j],
    ) by {
        broadcast use vstd::seq_lib::group_to_multiset_ensures;

        assert(views.contains(views[b]));
        assert(views.to_multiset().count(views[b]) > 0);
        assert(all.contains(views[b]));
        let c = choose|c: int| 0 <= c < all.len() && all[c] == views[b];
        assert(all[c].indices[j] == views[b].indices[j]);
    }
}

proof fn lemma_i32_product_wide(a: int, b: int)
    by (nonlinear_arith)
    requires
        fits_i32(a),
        fits_i32(b),
    ensures
        -0x4000_0000_0000_0000 <= a * b <= 0x4000_0000_0000_0000,
{
}

proof fn lemma_shoelace(ax: int, ay: int, bx: int, by: int, cx: int, cy: int)
    ensures
        (by - ay) * (bx + ax) + (cy - by) * (cx + bx) + (ay - cy) * (ax + cx) == (bx - ax) * (cy
            - ay) - (by - ay) * (cx - ax),
{
    assert((by - ay) * (bx + ax) == by * bx + by * ax - ay * bx - ay * ax) by (nonlinear_arith);
    assert((cy - by) * (cx + bx) == cy * cx + cy * bx - by * cx - by * bx) by (nonlinear_arith);
    assert((ay - cy) * (ax + cx) == ay * ax + ay * cx - cy * ax - cy * cx) by (nonlinear_arith);
    assert((bx - ax) * (cy - ay) == bx * cy - bx * ay - ax * cy + ax * ay) by (nonlinear_arith);
    assert((by - ay) * (cx - ax) == by * cx - by * ax - ay * cx + ay * ax) by (nonlinear_arith);
    assert(by * bx == bx * by && ay * bx == bx * ay && ay * ax == ax * ay && cy * bx == bx * cy
        && cy * ax == ax * cy && by * ax == ax * by) by (nonlinear_arith);
}

} // verus!
