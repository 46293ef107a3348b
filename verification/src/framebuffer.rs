use vstd::prelude::*;

use crate::color::{Color, Depth, INFINITY_BITS, ONE_BITS, f32_lt};
use crate::datatypes::Point;
use crate::visibility::Fragment;

verus! {

/// Width of a screen tile, in pixels.
pub const TILE_WIDTH: usize = 64;

/// Height of a screen tile, in pixels.
pub const TILE_HEIGHT: usize = 64;

/// Number of resources a render pass can bind for reading or for writing.
pub const MAX_BINDS: usize = 16;

/// A rectangle of the framebuffer that is rasterized as one unit of work.
#[derive(Clone, Copy, Debug, PartialEq, Eq, Structural)]
pub struct Tile {
    pub width: i32,
    pub height: i32,
    pub x: i32,
    pub y: i32,
}

impl Tile {
    /// The tile of zero size at the origin.
    pub open spec fn spec_empty() -> Tile {
        Tile { width: 0, height: 0, x: 0, y: 0 }
    }

    /// The tile's corners can be computed without overflow.
    pub open spec fn corners_fit(self) -> bool {
        self.x + self.width <= i32::MAX && self.x + self.width >= i32::MIN
            && self.y + self.height <= i32::MAX && self.y + self.height >= i32::MIN
    }

    /// Top-left corner.
    pub fn min(&self) -> (p: Point)
        ensures
            p.x == self.x,
            p.y == self.y,
    {
        Point::new(self.x, self.y)
    }

    /// Corner one past the bottom-right pixel.
    pub fn max(&self) -> (p: Point)
        requires
            self.corners_fit(),
        ensures
            p.x == self.x + self.width,
            p.y == self.y + self.height,
    {
        Point::new(self.x + self.width, self.y + self.height)
    }
}

impl Default for Tile {
    fn default() -> (t: Tile)
        ensures
            t == Tile::spec_empty(),
    {
        Tile { width: 0, height: 0, x: 0, y: 0 }
    }
}

/// The tiles of a framebuffer: `cols` by `rows` tiles in row-major order,
/// padded with empty tiles up to a square whose side is a power of two.
#[derive(Clone, Debug)]
pub struct TilesInfo {
    pub cols: usize,
    pub rows: usize,
    pub tiles: Vec<Tile>,
}

/// A tile together with the indices of the triangles that may touch it,
/// and the tile's Morton key, by which bins are ordered.
#[derive(Clone, Debug)]
pub struct TileBin {
    pub tile: Tile,
    pub indices: Vec<usize>,
    pub morton_key: u32,
}

/// What a bin holds, with its indices as a sequence.
pub struct TileBinView {
    pub tile: Tile,
    pub indices: Seq<usize>,
    pub morton_key: u32,
}

impl View for TileBin {
    type V = TileBinView;

    open spec fn view(&self) -> TileBinView {
        TileBinView { tile: self.tile, indices: self.indices@, morton_key: self.morton_key }
    }
}

/// The smallest power of two that is at least `n` (1 for 0 and 1).
pub open spec fn ceil_pow2(n: nat) -> nat
    decreases n,
{
    if n <= 1 {
        1
    } else {
        2 * ceil_pow2(((n + 1) / 2) as nat)
    }
}

pub proof fn lemma_ceil_pow2_at_least(n: nat)
    ensures
        ceil_pow2(n) >= n,
        ceil_pow2(n) >= 1,
    decreases n,
{
    if n > 1 {
        lemma_ceil_pow2_at_least(((n + 1) / 2) as nat);
    }
}

/// Calls `usize::next_power_of_two` of std, which returns the smallest power of
/// two greater than or equal to its argument; the argument is limited to where
/// that power does not overflow.
#[verifier::external_body]
fn next_power_of_two(n: usize) -> (r: usize)
    requires
        ceil_pow2(n as nat) <= usize::MAX,
    ensures
        r == ceil_pow2(n as nat),
{
    n.next_power_of_two()
}

/// Number of tiles of side `tile` needed to cover `len` pixels.
pub open spec fn tile_count(len: int, tile: int) -> int {
    (len + tile - 1) / tile
}

/// Side of the square array of tiles of a `width` by `height` framebuffer.
pub open spec fn tiles_dim(width: int, height: int) -> nat {
    let cols = tile_count(width, TILE_WIDTH as int);
    let rows = tile_count(height, TILE_HEIGHT as int);
    ceil_pow2((if cols >= rows { cols } else { rows }) as nat)
}

/// Slot of the tile in column `xt` and row `yt`.
pub open spec fn tile_slot(cols: int, xt: int, yt: int) -> int {
    yt * cols + xt
}

/// The tile in column `xt` and row `yt` of a `width` by `height` framebuffer,
/// cut at the framebuffer's right and bottom edges.
pub open spec fn layout_tile(width: int, height: int, xt: int, yt: int) -> Tile {
    let x = xt * TILE_WIDTH;
    let y = yt * TILE_HEIGHT;
    Tile {
        x: x as i32,
        y: y as i32,
        width: (if TILE_WIDTH < width - x { TILE_WIDTH as int } else { width - x }) as i32,
        height: (if TILE_HEIGHT < height - y { TILE_HEIGHT as int } else { height - y }) as i32,
    }
}

/// `t` is the tiling of a `width` by `height` framebuffer.
pub open spec fn is_tile_layout(t: TilesInfo, width: int, height: int) -> bool {
    let cols = t.cols as int;
    let rows = t.rows as int;
    &&& cols == tile_count(width, TILE_WIDTH as int)
    &&& rows == tile_count(height, TILE_HEIGHT as int)
    &&& t.tiles@.len() == tiles_dim(width, height) * tiles_dim(width, height)
    &&& forall|xt: int, yt: int|
        0 <= xt < cols && 0 <= yt < rows ==> t.tiles@[#[trigger] tile_slot(cols, xt, yt)]
            == layout_tile(width, height, xt, yt)
    &&& forall|i: int| cols * rows <= i < t.tiles@.len() ==> t.tiles@[i] == Tile::spec_empty()
}

/// Sizes for which a framebuffer can be made: its dimensions fit `i32`, and
/// its pixel buffers and its square of tiles fit in memory's address range.
pub open spec fn framebuffer_size_ok(width: int, height: int) -> bool {
    &&& 0 <= width <= i32::MAX
    &&& 0 <= height <= i32::MAX
    &&& width * height <= usize::MAX
    &&& tiles_dim(width, height) * tiles_dim(width, height) <= usize::MAX
}

/// What a framebuffer holds: per pixel a color, a depth and the generation in
/// which it was last written. Pixels whose generation is not the current one
/// read as cleared.
pub struct FramebufferView {
    pub width: int,
    pub height: int,
    pub current_generation: u32,
    pub generation: Seq<u32>,
    pub color: Seq<Color>,
    pub depth: Seq<Depth>,
}

/// The generation that follows `g`, wrapping around at `u32::MAX`.
pub open spec fn next_generation(g: u32) -> u32 {
    if g == u32::MAX {
        0
    } else {
        (g + 1) as u32
    }
}

impl FramebufferView {
    pub open spec fn wf(self) -> bool {
        &&& 0 <= self.width
        &&& 0 <= self.height
        &&& self.generation.len() == self.width * self.height
        &&& self.color.len() == self.width * self.height
        &&& self.depth.len() == self.width * self.height
    }

    /// Number of pixels.
    pub open spec fn len(self) -> int {
        self.width * self.height
    }

    /// Buffer index of pixel `(x, y)`.
    pub open spec fn index(self, x: int, y: int) -> int {
        y * self.width + x
    }

    /// Pixel `(x, y)` has an index in the buffer that its 32-bit computation reaches.
    pub open spec fn addressable(self, x: i32, y: i32) -> bool {
        &&& i32::MIN <= y * self.width <= i32::MAX
        &&& 0 <= self.index(x as int, y as int) < self.len()
        &&& self.index(x as int, y as int) <= i32::MAX
    }

    /// Pixel `i` was written since the last clear.
    pub open spec fn visible(self, i: int) -> bool {
        self.generation[i] == self.current_generation
    }

    /// The color that pixel `i` reads as: opaque black unless it is visible.
    pub open spec fn pixel_color(self, i: int) -> Color {
        if self.visible(i) {
            self.color[i]
        } else {
            Color::spec_opaque_black()
        }
    }

    /// The depth that pixel `i` reads as: infinity unless it is visible.
    pub open spec fn pixel_depth(self, i: int) -> Depth {
        if self.visible(i) {
            self.depth[i]
        } else {
            Depth::spec_infinity()
        }
    }

    /// A fragment of depth `d` at pixel `i` passes the depth test: the pixel
    /// is not visible, or `d` is less than its depth.
    pub open spec fn passes_depth_test(self, i: int, d: Depth) -> bool {
        !self.visible(i) || f32_lt(d.bits, self.depth[i].bits)
    }

    /// The same buffers with the generation advanced.
    pub open spec fn cleared(self) -> FramebufferView {
        FramebufferView {
            width: self.width,
            height: self.height,
            current_generation: next_generation(self.current_generation),
            generation: self.generation,
            color: self.color,
            depth: self.depth,
        }
    }

    /// The buffers with pixel `i` given depth `d` and color `c` in the current generation.
    pub open spec fn written(self, i: int, d: Depth, c: Color) -> FramebufferView {
        FramebufferView {
            width: self.width,
            height: self.height,
            current_generation: self.current_generation,
            generation: self.generation.update(i, self.current_generation),
            color: self.color.update(i, c),
            depth: self.depth.update(i, d),
        }
    }

    /// A new `width` by `height` framebuffer: generation 0 everywhere,
    /// colors all zero and depths infinite.
    pub open spec fn fresh(width: int, height: int) -> FramebufferView {
        FramebufferView {
            width,
            height,
            current_generation: 0,
            generation: Seq::new((width * height) as nat, |i: int| 0u32),
            color: Seq::new((width * height) as nat, |i: int| Color::spec_zero()),
            depth: Seq::new((width * height) as nat, |i: int| Depth::spec_infinity()),
        }
    }
}


/// A pixel reads back the color and depth last written to it.
pub proof fn lemma_read_after_write(v: FramebufferView, i: int, d: Depth, c: Color)
    requires
        v.wf(),
        0 <= i < v.len(),
    ensures
        v.written(i, d, c).wf(),
        v.written(i, d, c).pixel_color(i) == c,
        v.written(i, d, c).pixel_depth(i) == d,
{
}

/// Writing one pixel leaves every other pixel reading as before.
pub proof fn lemma_write_leaves_others(v: FramebufferView, i: int, j: int, d: Depth, c: Color)
    requires
        v.wf(),
        0 <= i < v.len(),
        0 <= j < v.len(),
        i != j,
    ensures
        v.written(i, d, c).pixel_color(j) == v.pixel_color(j),
        v.written(i, d, c).pixel_depth(j) == v.pixel_depth(j),
        v.written(i, d, c).visible(j) == v.visible(j),
{
}

/// After a write, a fragment passes the depth test at that pixel exactly
/// when it is nearer than the depth written.
pub proof fn lemma_depth_test_after_write(
    v: FramebufferView,
    i: int,
    d: Depth,
    c: Color,
    d2: Depth,
)
    requires
        v.wf(),
        0 <= i < v.len(),
    ensures
        v.written(i, d, c).passes_depth_test(i, d2) == f32_lt(d2.bits, d.bits),
{
}

/// The depth test compares with the depth the pixel reads as: a fragment
/// whose depth is below positive infinity passes exactly when it is nearer
/// than `read_depth` of its pixel.
pub proof fn lemma_depth_test_reads_depth(v: FramebufferView, i: int, d: Depth)
    requires
        v.wf(),
        0 <= i < v.len(),
        f32_lt(d.bits, INFINITY_BITS),
    ensures
        v.passes_depth_test(i, d) == f32_lt(d.bits, v.pixel_depth(i).bits),
{
}

/// Clearing makes a pixel read as opaque black with infinite depth, and pass
/// every depth test, unless it was last written in the very generation that
/// the clear moves to (which takes `u32::MAX` further clears to happen).
pub proof fn lemma_clear_hides(v: FramebufferView, i: int, d: Depth)
    requires
        v.wf(),
        0 <= i < v.len(),
        v.generation[i] != next_generation(v.current_generation),
    ensures
        v.cleared().wf(),
        v.cleared().pixel_color(i) == Color::spec_opaque_black(),
        v.cleared().pixel_depth(i) == Depth::spec_infinity(),
        v.cleared().passes_depth_test(i, d),
{
}

/// Clearing keeps the stored buffers: only the current generation moves on.
pub proof fn lemma_clear_keeps_buffers(v: FramebufferView)
    ensures
        v.cleared().color == v.color,
        v.cleared().depth == v.depth,
        v.cleared().generation == v.generation,
        v.cleared().width == v.width && v.cleared().height == v.height,
{
}

/// Every pixel of a new framebuffer reads as all-zero color with infinite depth.
pub proof fn lemma_fresh_pixels(width: int, height: int, i: int)
    requires
        0 <= width,
        0 <= height,
        0 <= i < width * height,
    ensures
        FramebufferView::fresh(width, height).wf(),
        FramebufferView::fresh(width, height).pixel_color(i) == Color::spec_zero(),
        FramebufferView::fresh(width, height).pixel_depth(i) == Depth::spec_infinity(),
{
    assert(0 <= width * height) by (nonlinear_arith)
        requires
            0 <= width,
            0 <= height,
    ;
}

/// A pixel in the framebuffer's bounds is addressable when the framebuffer
/// has no more pixels than `i32::MAX`.
pub proof fn lemma_in_bounds_addressable(v: FramebufferView, x: i32, y: i32)
    requires
        v.wf(),
        v.len() <= i32::MAX,
        0 <= x < v.width,
        0 <= y < v.height,
    ensures
        v.addressable(x, y),
{
    assert(0 <= y * v.width + x < v.width * v.height) by (nonlinear_arith)
        requires
            0 <= x < v.width,
            0 <= y < v.height,
    ;
    assert(0 <= y * v.width <= y * v.width + x) by (nonlinear_arith)
        requires
            0 <= x < v.width,
            0 <= y < v.height,
    ;
}

/// The size of a well-formed framebuffer is one it can be made with.
pub proof fn lemma_wf_size_ok(fb: Framebuffer)
    requires
        fb.wf(),
    ensures
        framebuffer_size_ok(fb@.width, fb@.height),
{
    fb.lemma_len_bounds();
}


/// The tiles of a framebuffer lie inside it and cover it: every tile of the
/// grid is non-empty and within the framebuffer's bounds, and each pixel lies
/// in the tile of its column and row of tiles.
pub proof fn lemma_tiles_cover_framebuffer(t: TilesInfo, width: int, height: int, x: int, y: int)
    requires
        is_tile_layout(t, width, height),
        0 <= width <= i32::MAX,
        0 <= height <= i32::MAX,
        0 <= x < width,
        0 <= y < height,
    ensures
        ({
            let tile = t.tiles@[tile_slot(t.cols as int, x / TILE_WIDTH as int, y / TILE_HEIGHT as int)];
            &&& 0 <= x / (TILE_WIDTH as int) < t.cols
            &&& 0 <= y / (TILE_HEIGHT as int) < t.rows
            &&& tile.x <= x < tile.x + tile.width
            &&& tile.y <= y < tile.y + tile.height
        }),
        forall|xt: int, yt: int|
            0 <= xt < t.cols && 0 <= yt < t.rows ==> {
                let tile = #[trigger] t.tiles@[tile_slot(t.cols as int, xt, yt)];
                &&& 0 <= tile.x && tile.x + tile.width <= width && 1 <= tile.width <= TILE_WIDTH
                &&& 0 <= tile.y && tile.y + tile.height <= height && 1 <= tile.height <= TILE_HEIGHT
            },
{
    let xt = x / 64;
    let yt = y / 64;
    assert(t.tiles@[tile_slot(t.cols as int, xt, yt)] == layout_tile(width, height, xt, yt));
    assert forall|xt: int, yt: int| 0 <= xt < t.cols && 0 <= yt < t.rows implies {
        let tile = #[trigger] t.tiles@[tile_slot(t.cols as int, xt, yt)];
        &&& 0 <= tile.x && tile.x + tile.width <= width && 1 <= tile.width <= TILE_WIDTH
        &&& 0 <= tile.y && tile.y + tile.height <= height && 1 <= tile.height <= TILE_HEIGHT
    } by {
        lemma_tile_origin(width, TILE_WIDTH as int, xt);
        lemma_tile_origin(height, TILE_HEIGHT as int, yt);
        assert(t.tiles@[tile_slot(t.cols as int, xt, yt)] == layout_tile(width, height, xt, yt));
    }
}

/// Pixel `(px, py)` lies in `tile`.
pub open spec fn in_tile(tile: Tile, px: int, py: int) -> bool {
    &&& tile.x <= px < tile.x + tile.width
    &&& tile.y <= py < tile.y + tile.height
}

/// `tile` lies within a `width` by `height` framebuffer.
pub open spec fn tile_within(tile: Tile, width: int, height: int) -> bool {
    &&& 0 <= tile.x
    &&& 0 <= tile.width
    &&& tile.x + tile.width <= width
    &&& 0 <= tile.y
    &&& 0 <= tile.height
    &&& tile.y + tile.height <= height
}

/// The grid of tiles fits in the square of tile slots.
proof fn lemma_layout_grid_fits(t: TilesInfo, width: int, height: int)
    requires
        is_tile_layout(t, width, height),
        0 <= width,
        0 <= height,
    ensures
        t.cols * t.rows <= t.tiles@.len(),
{
    let cols = tile_count(width, TILE_WIDTH as int);
    let rows = tile_count(height, TILE_HEIGHT as int);
    lemma_count_bound(width, TILE_WIDTH as int);
    lemma_count_bound(height, TILE_HEIGHT as int);
    let larger = if cols >= rows { cols } else { rows };
    lemma_ceil_pow2_at_least(larger as nat);
    let dim = tiles_dim(width, height) as int;
    lemma_product_bound(cols, rows, dim);
}

/// Every tile of a framebuffer's tiling, padding included, lies within it.
pub proof fn lemma_layout_tiles_within(t: TilesInfo, width: int, height: int, s: int)
    requires
        is_tile_layout(t, width, height),
        0 <= width <= i32::MAX,
        0 <= height <= i32::MAX,
        0 <= s < t.tiles@.len(),
    ensures
        tile_within(t.tiles@[s], width, height),
{
    let cols = t.cols as int;
    let rows = t.rows as int;
    if s < cols * rows {
        assert(cols > 0) by (nonlinear_arith)
            requires
                0 <= s < cols * rows,
                rows >= 0,
        ;
        let xt = s % cols;
        let yt = s / cols;
        assert(0 <= xt < cols && 0 <= yt < rows && tile_slot(cols, xt, yt) == s) by (nonlinear_arith)
            requires
                cols > 0,
                0 <= s < cols * rows,
                xt == s % cols,
                yt == s / cols,
        ;
        if width > 0 && height > 0 {
            lemma_tiles_cover_framebuffer(t, width, height, 0, 0);
        } else {
            assert(cols == 0 || rows == 0) by {
                lemma_count_bound(width, TILE_WIDTH as int);
                lemma_count_bound(height, TILE_HEIGHT as int);
            }
            assert(cols * rows == 0) by (nonlinear_arith)
                requires
                    cols == 0 || rows == 0,
            ;
        }
        assert(t.tiles@[tile_slot(cols, xt, yt)] == t.tiles@[s]);
    }
}

/// Pixel `(px, py)` holds, in the current generation and at depth one, a
/// color that `shade` gives for it.
pub open spec fn shaded_by<F: Fn((i32, i32)) -> Color>(
    v: FramebufferView,
    shade: F,
    px: int,
    py: int,
) -> bool {
    let i = v.index(px, py);
    &&& v.generation[i] == v.current_generation
    &&& v.depth[i] == Depth { bits: ONE_BITS }
    &&& call_ensures(shade, ((px as i32, py as i32),), v.color[i])
}

/// Pixels within the framebuffer have indices within its buffers, and two
/// such pixels share an index only if they are the same pixel.
pub proof fn lemma_pixel_index_injective(v: FramebufferView, x: int, y: int, px: int, py: int)
    requires
        v.wf(),
        0 <= x < v.width,
        0 <= y < v.height,
        0 <= px < v.width,
        0 <= py < v.height,
    ensures
        0 <= v.index(x, y) < v.len(),
        0 <= v.index(px, py) < v.len(),
        v.index(x, y) == v.index(px, py) <==> (x == px && y == py),
{
    assert(0 <= v.index(x, y) < v.len() && 0 <= v.index(px, py) < v.len()) by (nonlinear_arith)
        requires
            0 <= x < v.width,
            0 <= y < v.height,
            0 <= px < v.width,
            0 <= py < v.height,
    ;
    if v.index(x, y) == v.index(px, py) {
        assert(px == x && py == y) by (nonlinear_arith)
            requires
                0 <= x < v.width,
                0 <= px < v.width,
                y * v.width + x == py * v.width + px,
        ;
    }
}

/// Writing pixel `(x, y)` with a color that `shade` gives for it, at depth
/// one, leaves every pixel that was shaded shaded, and shades `(x, y)`.
proof fn lemma_write_keeps_shaded<F: Fn((i32, i32)) -> Color>(
    v: FramebufferView,
    shade: F,
    x: int,
    y: int,
    c: Color,
    px: int,
    py: int,
)
    requires
        v.wf(),
        0 <= x < v.width,
        0 <= y < v.height,
        0 <= px < v.width,
        0 <= py < v.height,
        shaded_by(v, shade, px, py) || (px == x && py == y),
        call_ensures(shade, ((x as i32, y as i32),), c),
    ensures
        shaded_by(v.written(v.index(x, y), Depth { bits: ONE_BITS }, c), shade, px, py),
{
    lemma_pixel_index_injective(v, x, y, px, py);
}

/// The framebuffer after drawing the fragments `frags` in order, fragment `k`
/// in color `cs[k]`: each fragment that passes the depth test at its pixel
/// writes its depth and color there; the others change nothing.
pub open spec fn drawn(v: FramebufferView, frags: Seq<Fragment>, cs: Seq<Color>) -> FramebufferView
    decreases frags.len(),
{
    if frags.len() == 0 {
        v
    } else {
        let k = frags.len() - 1;
        let before = drawn(v, frags.drop_last(), cs.take(k));
        let f = frags[k];
        let i = before.index(f.x as int, f.y as int);
        if before.passes_depth_test(i, f.depth) {
            before.written(i, f.depth, cs[k])
        } else {
            before
        }
    }
}

/// Fragment `k` passes the depth test when its turn comes in drawing `frags`.
pub open spec fn drawn_passes(v: FramebufferView, frags: Seq<Fragment>, cs: Seq<Color>, k: int) -> bool {
    let before = drawn(v, frags.take(k), cs.take(k));
    before.passes_depth_test(before.index(frags[k].x as int, frags[k].y as int), frags[k].depth)
}

/// The fragments all fall on addressable pixels of the framebuffer.
pub open spec fn fragments_on(v: FramebufferView, frags: Seq<Fragment>) -> bool {
    forall|k: int| 0 <= k < frags.len() ==> v.addressable(#[trigger] frags[k].x, frags[k].y)
}

/// Drawing keeps the framebuffer's size, its generation, and its well-formedness.
pub proof fn lemma_drawn_shape(v: FramebufferView, frags: Seq<Fragment>, cs: Seq<Color>)
    requires
        v.wf(),
        fragments_on(v, frags),
        cs.len() == frags.len(),
    ensures
        drawn(v, frags, cs).wf(),
        drawn(v, frags, cs).width == v.width,
        drawn(v, frags, cs).height == v.height,
        drawn(v, frags, cs).current_generation == v.current_generation,
    decreases frags.len(),
{
    if frags.len() > 0 {
        let k = frags.len() - 1;
        let rest = frags.drop_last();
        assert forall|j: int| 0 <= j < rest.len() implies v.addressable(#[trigger] rest[j].x, rest[j].y) by {
            assert(rest[j] == frags[j]);
        }
        lemma_drawn_shape(v, rest, cs.take(k));
        assert(v.addressable(frags[k].x, frags[k].y));
    }
}

/// Drawing keeps the nearest depth: after the fragments are drawn, the pixel
/// of each fragment has been drawn and holds no depth greater than that
/// fragment's, and no depth greater than it held before if it was drawn then.
pub proof fn lemma_drawn_keeps_nearest(v: FramebufferView, frags: Seq<Fragment>, cs: Seq<Color>, i: int)
    requires
        v.wf(),
        fragments_on(v, frags),
        cs.len() == frags.len(),
        0 <= i < v.len(),
    ensures
        ({
            let w = drawn(v, frags, cs);
            &&& forall|k: int|
                0 <= k < frags.len() && v.index(frags[k].x as int, frags[k].y as int) == i ==> w.visible(i)
                    && !f32_lt(#[trigger] frags[k].depth.bits, w.depth[i].bits)
            &&& v.visible(i) ==> w.visible(i) && !f32_lt(v.depth[i].bits, w.depth[i].bits)
            &&& (w.depth[i] == v.depth[i] && w.generation[i] == v.generation[i]) || exists|k: int|
                0 <= k < frags.len() && v.index(frags[k].x as int, frags[k].y as int) == i
                    && w.depth[i] == #[trigger] frags[k].depth && w.visible(i)
        }),
    decreases frags.len(),
{
    if frags.len() > 0 {
        let n = frags.len() - 1;
        let rest = frags.drop_last();
        let rcs = cs.take(n);
        assert forall|j: int| 0 <= j < rest.len() implies v.addressable(#[trigger] rest[j].x, rest[j].y) by {
            assert(rest[j] == frags[j]);
        }
        lemma_drawn_shape(v, rest, rcs);
        lemma_drawn_keeps_nearest(v, rest, rcs, i);
        let u = drawn(v, rest, rcs);
        let w = drawn(v, frags, cs);
        let g = frags[n];
        assert(v.addressable(g.x, g.y));
        assert forall|k: int|
            0 <= k < frags.len() && v.index(frags[k].x as int, frags[k].y as int) == i implies w.visible(i)
                && !f32_lt(#[trigger] frags[k].depth.bits, w.depth[i].bits) by {
            let j = u.index(g.x as int, g.y as int);
            assert(u.index(frags[k].x as int, frags[k].y as int) == i);
            if k < n {
                assert(rest[k] == frags[k]);
                assert(0 <= k < rest.len());
                assert(v.index(rest[k].x as int, rest[k].y as int) == i);
                assert(!f32_lt(rest[k].depth.bits, u.depth[i].bits));
                assert(u.visible(i));
                if u.passes_depth_test(j, g.depth) && j == i {
                    assert(f32_lt(g.depth.bits, u.depth[i].bits));
                    assert(w.depth[i] == g.depth);
                } else if u.passes_depth_test(j, g.depth) {
                    assert(w.depth[i] == u.depth[i]);
                } else {
                    assert(w == u);
                }
            }
        }
        assert(v.visible(i) ==> w.visible(i) && !f32_lt(v.depth[i].bits, w.depth[i].bits)) by {
            let j = u.index(g.x as int, g.y as int);
            if u.passes_depth_test(j, g.depth) && j == i {
                assert(w.depth[i] == g.depth);
            } else if u.passes_depth_test(j, g.depth) {
                assert(w.depth[i] == u.depth[i]);
            }
        }
        if !((w.depth[i] == v.depth[i] && w.generation[i] == v.generation[i])) {
            if w.depth[i] == u.depth[i] && w.generation[i] == u.generation[i] {
                let k = choose|k: int|
                    0 <= k < rest.len() && v.index(rest[k].x as int, rest[k].y as int) == i
                        && u.depth[i] == #[trigger] rest[k].depth && u.visible(i);
                assert(frags[k] == rest[k]);
            } else {
                assert(w.depth[i] == frags[n].depth);
            }
        }
    }
}

/// A color and depth target with generation-based clearing.
#[derive(Clone, Debug)]
pub struct Framebuffer {
    color: Vec<Color>,
    depth: Vec<Depth>,
    width: i32,
    height: i32,
    generation: Vec<u32>,
    current_generation: u32,
    tiles: TilesInfo,
}

impl View for Framebuffer {
    type V = FramebufferView;

    closed spec fn view(&self) -> FramebufferView {
        FramebufferView {
            width: self.width as int,
            height: self.height as int,
            current_generation: self.current_generation,
            generation: self.generation@,
            color: self.color@,
            depth: self.depth@,
        }
    }
}

pub(crate) proof fn lemma_slot_in_range(cols: int, rows: int, xt: int, yt: int)
    by (nonlinear_arith)
    requires
        0 <= xt < cols,
        0 <= yt < rows,
    ensures
        0 <= tile_slot(cols, xt, yt) < cols * rows,
{
}

pub(crate) proof fn lemma_slot_order(cols: int, xt1: int, yt1: int, xt2: int, yt2: int)
    by (nonlinear_arith)
    requires
        0 <= xt1 < cols,
        0 <= xt2 < cols,
        yt1 < yt2 || (yt1 == yt2 && xt1 < xt2),
        0 <= yt1,
    ensures
        tile_slot(cols, xt1, yt1) < tile_slot(cols, xt2, yt2),
{
}

proof fn lemma_tile_origin(len: int, t: int, k: int)
    by (nonlinear_arith)
    requires
        0 <= k < tile_count(len, t),
        t > 0,
        len >= 0,
    ensures
        0 <= k * t < len,
{
}

proof fn lemma_count_bound(len: int, t: int)
    by (nonlinear_arith)
    requires
        t > 0,
        len >= 0,
    ensures
        0 <= tile_count(len, t) <= len,
        tile_count(len, t) * t >= len,
{
}

proof fn lemma_square_monotone(a: int, b: int)
    by (nonlinear_arith)
    requires
        0 <= a <= b,
    ensures
        a * a <= b * b,
{
}

proof fn lemma_le_square(a: int)
    by (nonlinear_arith)
    requires
        a >= 1,
    ensures
        a <= a * a,
{
}

proof fn lemma_product_bound(a: int, b: int, c: int)
    by (nonlinear_arith)
    requires
        0 <= a <= c,
        0 <= b <= c,
    ensures
        a * b <= c * c,
{
}

impl Framebuffer {
    /// The buffers all have one entry per pixel, and the tiles are the
    /// framebuffer's tiling.
    pub open spec fn wf(&self) -> bool {
        &&& self@.wf()
        &&& is_tile_layout(self.spec_tiles(), self@.width, self@.height)
    }

    /// A `width` by `height` framebuffer with every pixel in generation 0,
    /// colors zero, depths infinite, and its tiling.
    pub fn new(width: usize, height: usize) -> (fb: Framebuffer)
        requires
            framebuffer_size_ok(width as int, height as int),
        ensures
            fb@ == FramebufferView::fresh(width as int, height as int),
            fb.wf(),
    {
        let cols = (width + TILE_WIDTH - 1) / TILE_WIDTH;
        let rows = (height + TILE_HEIGHT - 1) / TILE_HEIGHT;
        let larger = if cols >= rows { cols } else { rows };
        proof {
            lemma_count_bound(width as int, TILE_WIDTH as int);
            lemma_count_bound(height as int, TILE_HEIGHT as int);
            lemma_ceil_pow2_at_least(larger as nat);
            assert(ceil_pow2(larger as nat) == tiles_dim(width as int, height as int));
            lemma_le_square(ceil_pow2(larger as nat) as int);
        }
        let dim = next_power_of_two(larger);
        assert(dim == tiles_dim(width as int, height as int));
        let n_tiles = dim * dim;
        let mut tiles: Vec<Tile> = Vec::with_capacity(n_tiles);
        let mut k: usize = 0;
        while k < n_tiles
            invariant
                k <= n_tiles,
                tiles@.len() == k,
                forall|i: int| 0 <= i < k ==> tiles@[i] == Tile::spec_empty(),
            decreases n_tiles - k,
        {
            tiles.push(Tile::default());
            k = k + 1;
        }
        proof {
            lemma_square_monotone(cols as int, dim as int);
            lemma_square_monotone(rows as int, dim as int);
            lemma_product_bound(cols as int, rows as int, dim as int);
        }
        let mut yt: usize = 0;
        while yt < rows
            invariant
                cols == tile_count(width as int, TILE_WIDTH as int),
                rows == tile_count(height as int, TILE_HEIGHT as int),
                width <= i32::MAX,
                height <= i32::MAX,
                cols * rows <= n_tiles,
                tiles@.len() == n_tiles,
                yt <= rows,
                forall|xt: int, yt2: int|
                    0 <= xt < cols && 0 <= yt2 < yt ==> tiles@[#[trigger] tile_slot(
                        cols as int,
                        xt,
                        yt2,
                    )] == layout_tile(width as int, height as int, xt, yt2),
                forall|i: int| cols * rows <= i < n_tiles ==> tiles@[i] == Tile::spec_empty(),
            decreases rows - yt,
        {
            proof {
                lemma_tile_origin(height as int, TILE_HEIGHT as int, yt as int);
            }
            let y = yt * TILE_HEIGHT;
            let mut xt: usize = 0;
            while xt < cols
                invariant
                    cols == tile_count(width as int, TILE_WIDTH as int),
                    rows == tile_count(height as int, TILE_HEIGHT as int),
                    width <= i32::MAX,
                    height <= i32::MAX,
                    cols * rows <= n_tiles,
                    tiles@.len() == n_tiles,
                    yt < rows,
                    y == yt * TILE_HEIGHT,
                    y < height,
                    xt <= cols,
                    forall|xt2: int, yt2: int|
                        0 <= xt2 < cols && 0 <= yt2 < yt ==> tiles@[#[trigger] tile_slot(
                            cols as int,
                            xt2,
                            yt2,
                        )] == layout_tile(width as int, height as int, xt2, yt2),
                    forall|xt2: int|
                        0 <= xt2 < xt ==> tiles@[#[trigger] tile_slot(cols as int, xt2, yt as int)]
                            == layout_tile(width as int, height as int, xt2, yt as int),
                    forall|i: int| cols * rows <= i < n_tiles ==> tiles@[i] == Tile::spec_empty(),
                decreases cols - xt,
            {
                proof {
                    lemma_tile_origin(width as int, TILE_WIDTH as int, xt as int);
                    lemma_slot_in_range(cols as int, rows as int, xt as int, yt as int);
                }
                let x = xt * TILE_WIDTH;
                let i = yt * cols + xt;
                let tw = if TILE_WIDTH < width - x {
                    TILE_WIDTH
                } else {
                    width - x
                };
                let th = if TILE_HEIGHT < height - y {
                    TILE_HEIGHT
                } else {
                    height - y
                };
                let ghost before = tiles@;
                tiles.set(i, Tile { x: x as i32, y: y as i32, width: tw as i32, height: th as i32 });
                proof {
                    assert(i == tile_slot(cols as int, xt as int, yt as int));
                    assert forall|xt2: int, yt2: int|
                        0 <= xt2 < cols && 0 <= yt2 < yt implies tiles@[#[trigger] tile_slot(
                            cols as int,
                            xt2,
                            yt2,
                        )] == layout_tile(width as int, height as int, xt2, yt2) by {
                        lemma_slot_order(cols as int, xt2, yt2, xt as int, yt as int);
                        assert(before[tile_slot(cols as int, xt2, yt2)] == layout_tile(
                            width as int,
                            height as int,
                            xt2,
                            yt2,
                        ));
                    }
                    assert forall|xt2: int|
                        0 <= xt2 < xt + 1 implies tiles@[#[trigger] tile_slot(
                            cols as int,
                            xt2,
                            yt as int,
                        )] == layout_tile(width as int, height as int, xt2, yt as int) by {
                        if xt2 < xt {
                            lemma_slot_order(cols as int, xt2, yt as int, xt as int, yt as int);
                            assert(before[tile_slot(cols as int, xt2, yt as int)] == layout_tile(
                                width as int,
                                height as int,
                                xt2,
                                yt as int,
                            ));
                        }
                    }
                }
                xt = xt + 1;
            }
            yt = yt + 1;
        }
        let tiles = TilesInfo { cols, rows, tiles };
        let n = width * height;
        let mut color: Vec<Color> = Vec::with_capacity(n);
        let mut depth: Vec<Depth> = Vec::with_capacity(n);
        let mut generation: Vec<u32> = Vec::with_capacity(n);
        let mut k: usize = 0;
        while k < n
            invariant
                k <= n,
                color@.len() == k,
                depth@.len() == k,
                generation@.len() == k,
                forall|i: int| 0 <= i < k ==> color@[i] == Color::spec_zero(),
                forall|i: int| 0 <= i < k ==> depth@[i] == Depth::spec_infinity(),
                forall|i: int| 0 <= i < k ==> generation@[i] == 0u32,
            decreases n - k,
        {
            color.push(Color::zero());
            depth.push(Depth::infinity());
            generation.push(0);
            k = k + 1;
        }
        let fb = Framebuffer {
            color,
            depth,
            width: width as i32,
            height: height as i32,
            generation,
            current_generation: 0,
            tiles,
        };
        assert(fb@.generation =~= FramebufferView::fresh(width as int, height as int).generation);
        assert(fb@.color =~= FramebufferView::fresh(width as int, height as int).color);
        assert(fb@.depth =~= FramebufferView::fresh(width as int, height as int).depth);
        fb
    }

    proof fn lemma_len_bounds(self)
        ensures
            self.color@.len() <= usize::MAX,
            self.tiles.tiles@.len() <= usize::MAX,
    {
        assert(self.color.len() == self.color@.len());
        assert(self.tiles.tiles.len() == self.tiles.tiles@.len());
    }

    /// The tiling, for use in specifications.
    pub closed spec fn spec_tiles(&self) -> TilesInfo {
        self.tiles
    }

    pub fn width(&self) -> (w: i32)
        ensures
            w == self@.width,
    {
        self.width
    }

    pub fn height(&self) -> (h: i32)
        ensures
            h == self@.height,
    {
        self.height
    }

    pub fn current_generation(&self) -> (g: u32)
        ensures
            g == self@.current_generation,
    {
        self.current_generation
    }

    /// The framebuffer's tiles.
    pub fn get_tiles(&self) -> (t: &TilesInfo)
        requires
            self.wf(),
        ensures
            *t == self.spec_tiles(),
            is_tile_layout(*t, self@.width, self@.height),
    {
        &self.tiles
    }

    /// Clears the framebuffer by advancing its generation (wrapping at
    /// `u32::MAX`): every pixel written before reads as cleared. The color
    /// argument is not used.
    pub fn clear(&mut self, color: Color)
        requires
            old(self).wf(),
        ensures
            final(self)@ == old(self)@.cleared(),
            final(self).wf(),
            final(self).spec_tiles() == old(self).spec_tiles(),
    {
        self.current_generation = self.current_generation.wrapping_add(1);
    }

    /// Writes depth and color to pixel `(x, y)` in the current generation.
    pub fn write_fragment(&mut self, x: i32, y: i32, depth: Depth, color: Color)
        requires
            old(self).wf(),
            old(self)@.addressable(x, y),
        ensures
            final(self)@ == old(self)@.written(old(self)@.index(x as int, y as int), depth, color),
            final(self).wf(),
            final(self).spec_tiles() == old(self).spec_tiles(),
    {
        let index = (y * self.width + x) as usize;
        self.depth.set(index, depth);
        self.color.set(index, color);
        let g = self.current_generation;
        self.generation.set(index, g);
    }

    /// Draws the fragments in order: each one that passes the depth test at
    /// its pixel has `shade` run on its position in `fragments` for its color,
    /// and the pixel takes that color and the fragment's depth; `shade` is not
    /// run for the others.
    pub fn draw_fragments<F: Fn(usize) -> Color>(&mut self, fragments: &[Fragment], shade: F)
        requires
            old(self).wf(),
            fragments_on(old(self)@, fragments@),
            forall|k: usize| call_requires(shade, (k,)),
        ensures
            final(self).wf(),
            final(self).spec_tiles() == old(self).spec_tiles(),
            exists|cs: Seq<Color>|
                {
                    &&& cs.len() == fragments@.len()
                    &&& final(self)@ == drawn(old(self)@, fragments@, cs)
                    &&& forall|k: int|
                        0 <= k < fragments@.len() && drawn_passes(old(self)@, fragments@, cs, k)
                            ==> call_ensures(shade, (k as usize,), #[trigger] cs[k])
                },
    {
        let ghost v0 = self@;
        let ghost mut cs: Seq<Color> = Seq::empty();
        let mut k: usize = 0;
        while k < fragments.len()
            invariant
                k <= fragments@.len(),
                v0 == old(self)@,
                v0.wf(),
                fragments_on(v0, fragments@),
                self.wf(),
                self.spec_tiles() == old(self).spec_tiles(),
                forall|j: usize| call_requires(shade, (j,)),
                cs.len() == k,
                self@ == drawn(v0, fragments@.take(k as int), cs),
                forall|j: int|
                    0 <= j < k && drawn_passes(v0, fragments@, cs, j) ==> call_ensures(
                        shade,
                        (j as usize,),
                        #[trigger] cs[j],
                    ),
            decreases fragments@.len() - k,
        {
            let f = fragments[k];
            proof {
                assert forall|j: int| 0 <= j < k implies v0.addressable(#[trigger] fragments@.take(k as int)[j].x, fragments@.take(k as int)[j].y) by {
                    assert(fragments@.take(k as int)[j] == fragments@[j]);
                }
                lemma_drawn_shape(v0, fragments@.take(k as int), cs);
                assert(v0.addressable(f.x, f.y));
            }
            let ghost old_cs = cs;
            if self.depth_test(f.x, f.y, f.depth) {
                let color = shade(k);
                self.write_fragment(f.x, f.y, f.depth, color);
                proof {
                    cs = cs.push(color);
                }
            } else {
                proof {
                    cs = cs.push(Color::spec_zero());
                }
            }
            proof {
                assert(fragments@.take(k + 1).drop_last() =~= fragments@.take(k as int));
                assert(cs.take(k as int) =~= old_cs);
                assert(fragments@.take(k + 1)[k as int] == f);
                assert forall|j: int|
                    0 <= j < k + 1 && drawn_passes(v0, fragments@, cs, j) implies call_ensures(
                    shade,
                    (j as usize,),
                    #[trigger] cs[j],
                ) by {
                    if j < k {
                        assert(cs.take(j) =~= old_cs.take(j));
                        assert(drawn_passes(v0, fragments@, old_cs, j));
                    } else {
                        assert(fragments@.take(j) =~= fragments@.take(k as int));
                    }
                }
            }
            k = k + 1;
        }
        proof {
            assert(fragments@.take(k as int) =~= fragments@);
        }
    }

    /// Runs `shade` over every pixel, tile by tile and within a tile column by
    /// column: each pixel takes, at depth one, the color `shade` gives for it.
    pub fn shade_tiles<F: Fn((i32, i32)) -> Color>(&mut self, shade: F)
        requires
            old(self).wf(),
            old(self)@.len() <= i32::MAX,
            forall|p: (i32, i32)| call_requires(shade, (p,)),
        ensures
            final(self).wf(),
            final(self).spec_tiles() == old(self).spec_tiles(),
            final(self)@.width == old(self)@.width,
            final(self)@.height == old(self)@.height,
            final(self)@.current_generation == old(self)@.current_generation,
            forall|px: int, py: int|
                0 <= px < old(self)@.width && 0 <= py < old(self)@.height ==> #[trigger] shaded_by(
                    final(self)@,
                    shade,
                    px,
                    py,
                ),
    {
        let ghost w = self@.width;
        let ghost h = self@.height;
        let ghost t = self.spec_tiles();
        let n = self.tiles.tiles.len();
        let mut s: usize = 0;
        while s < n
            invariant
                s <= n,
                n == t.tiles@.len(),
                self.wf(),
                self.spec_tiles() == t,
                self@.width == w,
                self@.height == h,
                self@.current_generation == old(self)@.current_generation,
                self@.len() <= i32::MAX,
                0 <= w <= i32::MAX,
                0 <= h <= i32::MAX,
                forall|p: (i32, i32)| call_requires(shade, (p,)),
                forall|k: int, px: int, py: int|
                    0 <= k < s && 0 <= px < w && 0 <= py < h && in_tile(#[trigger] t.tiles@[k], px, py)
                        ==> #[trigger] shaded_by(self@, shade, px, py),
            decreases n - s,
        {
            let tile = self.tiles.tiles[s];
            proof {
                lemma_layout_tiles_within(t, w, h, s as int);
            }
            let min_t = tile.min();
            let max_t = tile.max();
            let mut x = min_t.x;
            while x < max_t.x
                invariant
                    s < n,
                    n == t.tiles@.len(),
                    tile == t.tiles@[s as int],
                    tile_within(tile, w, h),
                    min_t.x == tile.x,
                    min_t.y == tile.y,
                    max_t.x == tile.x + tile.width,
                    max_t.y == tile.y + tile.height,
                    tile.x <= x <= max_t.x,
                    self.wf(),
                    self.spec_tiles() == t,
                    self@.width == w,
                    self@.height == h,
                    self@.current_generation == old(self)@.current_generation,
                    self@.len() <= i32::MAX,
                    0 <= w <= i32::MAX,
                    0 <= h <= i32::MAX,
                    forall|p: (i32, i32)| call_requires(shade, (p,)),
                    forall|k: int, px: int, py: int|
                        0 <= k < s && 0 <= px < w && 0 <= py < h && in_tile(
                            #[trigger] t.tiles@[k],
                            px,
                            py,
                        ) ==> #[trigger] shaded_by(self@, shade, px, py),
                    forall|px: int, py: int|
                        tile.x <= px < x && tile.y <= py < max_t.y ==> #[trigger] shaded_by(
                            self@,
                            shade,
                            px,
                            py,
                        ),
                decreases max_t.x - x,
            {
                let mut y = min_t.y;
                while y < max_t.y
                    invariant
                        s < n,
                        n == t.tiles@.len(),
                        tile == t.tiles@[s as int],
                        tile_within(tile, w, h),
                        min_t.y == tile.y,
                        max_t.x == tile.x + tile.width,
                        max_t.y == tile.y + tile.height,
                        tile.x <= x < max_t.x,
                        tile.y <= y <= max_t.y,
                        self.wf(),
                        self.spec_tiles() == t,
                        self@.width == w,
                        self@.height == h,
                        self@.current_generation == old(self)@.current_generation,
                        self@.len() <= i32::MAX,
                        0 <= w <= i32::MAX,
                        0 <= h <= i32::MAX,
                        forall|p: (i32, i32)| call_requires(shade, (p,)),
                        forall|k: int, px: int, py: int|
                            0 <= k < s && 0 <= px < w && 0 <= py < h && in_tile(
                                #[trigger] t.tiles@[k],
                                px,
                                py,
                            ) ==> #[trigger] shaded_by(self@, shade, px, py),
                        forall|px: int, py: int|
                            tile.x <= px < x && tile.y <= py < max_t.y ==> #[trigger] shaded_by(
                                self@,
                                shade,
                                px,
                                py,
                            ),
                        forall|py: int| tile.y <= py < y ==> #[trigger] shaded_by(self@, shade, x as int, py),
                    decreases max_t.y - y,
                {
                    let color = shade((x, y));
                    let ghost before = self@;
                    proof {
                        lemma_in_bounds_addressable(before, x, y);
                    }
                    self.write_fragment(x, y, Depth { bits: ONE_BITS }, color);
                    proof {
                        assert forall|k: int, px: int, py: int|
                            0 <= k < s && 0 <= px < w && 0 <= py < h && in_tile(
                                #[trigger] t.tiles@[k],
                                px,
                                py,
                            ) implies #[trigger] shaded_by(self@, shade, px, py) by {
                            lemma_write_keeps_shaded(before, shade, x as int, y as int, color, px, py);
                        }
                        assert forall|px: int, py: int|
                            tile.x <= px < x && tile.y <= py < max_t.y implies #[trigger] shaded_by(
                                self@,
                                shade,
                                px,
                                py,
                            ) by {
                            lemma_write_keeps_shaded(before, shade, x as int, y as int, color, px, py);
                        }
                        assert forall|py: int| tile.y <= py < y + 1 implies #[trigger] shaded_by(
                            self@,
                            shade,
                            x as int,
                            py,
                        ) by {
                            lemma_write_keeps_shaded(before, shade, x as int, y as int, color, x as int, py);
                        }
                    }
                    y = y + 1;
                }
                x = x + 1;
            }
            assert forall|k: int, px: int, py: int|
                0 <= k < s + 1 && 0 <= px < w && 0 <= py < h && in_tile(
                    #[trigger] t.tiles@[k],
                    px,
                    py,
                ) implies #[trigger] shaded_by(self@, shade, px, py) by {
                if k == s {
                    assert(tile.x <= px < x && tile.y <= py < max_t.y);
                }
            }
            s = s + 1;
        }
        proof {
            lemma_layout_grid_fits(t, w, h);
            assert forall|px: int, py: int|
                0 <= px < w && 0 <= py < h implies #[trigger] shaded_by(self@, shade, px, py) by {
                lemma_tiles_cover_framebuffer(t, w, h, px, py);
                let k = tile_slot(t.cols as int, px / TILE_WIDTH as int, py / TILE_HEIGHT as int);
                lemma_slot_in_range(t.cols as int, t.rows as int, px / TILE_WIDTH as int, py / TILE_HEIGHT as int);
                assert(in_tile(t.tiles@[k], px, py));
            }
        }
    }

    /// Whether a fragment of depth `depth` at `(x, y)` is in front of what the
    /// pixel holds: always for a pixel not written since the last clear.
    pub fn depth_test(&self, x: i32, y: i32, depth: Depth) -> (r: bool)
        requires
            self.wf(),
            self@.addressable(x, y),
        ensures
            r == self@.passes_depth_test(self@.index(x as int, y as int), depth),
    {
        let index = (y * self.width + x) as usize;
        if self.generation[index] != self.current_generation {
            true
        } else {
            depth.less_than(self.depth[index])
        }
    }

    /// Whether the pixel with buffer index `index` was written since the last clear.
    pub fn is_visible(&self, index: usize) -> (r: bool)
        requires
            self.wf(),
            index < self@.len(),
        ensures
            r == self@.visible(index as int),
    {
        self.generation[index] == self.current_generation
    }

    /// The color buffer and the generation of every pixel.
    pub fn get_color(&self) -> (r: (&[Color], &[u32]))
        ensures
            r.0@ == self@.color,
            r.1@ == self@.generation,
    {
        (self.color.as_slice(), self.generation.as_slice())
    }

    /// The color of pixel `(x, y)`: opaque black if it was not written since the last clear.
    pub fn read_pixel(&self, x: i32, y: i32) -> (c: Color)
        requires
            self.wf(),
            self@.addressable(x, y),
        ensures
            c == self@.pixel_color(self@.index(x as int, y as int)),
    {
        let index = (y * self.width + x) as usize;
        if self.generation[index] != self.current_generation {
            Color::opaque_black()
        } else {
            self.color[index]
        }
    }

    /// The depth of pixel `(x, y)`: infinity if it was not written since the last clear.
    pub fn read_depth(&self, x: i32, y: i32) -> (d: Depth)
        requires
            self.wf(),
            self@.addressable(x, y),
        ensures
            d == self@.pixel_depth(self@.index(x as int, y as int)),
    {
        let index = (y * self.width + x) as usize;
        if self.generation[index] != self.current_generation {
            Depth::infinity()
        } else {
            self.depth[index]
        }
    }
}

} // verus!
