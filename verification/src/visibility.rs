use vstd::prelude::*;

use crate::color::{Color, Depth, f32_lt};
use crate::datatypes::DrawTri;
use crate::framebuffer::{
    Framebuffer, FramebufferView, lemma_in_bounds_addressable, lemma_pixel_index_injective,
};

verus! {

/// A visibility buffer: per pixel, the triangle drawn there.
#[derive(Debug)]
pub struct VBuffer {
    visibility: Vec<DrawTri>,
    width: usize,
    height: usize,
}

/// What a visibility buffer holds: its size and one entry per pixel, row by row.
pub struct VBufferView {
    pub width: int,
    pub height: int,
    pub cells: Seq<DrawTri>,
}

impl View for VBuffer {
    type V = VBufferView;

    closed spec fn view(&self) -> VBufferView {
        VBufferView { width: self.width as int, height: self.height as int, cells: self.visibility@ }
    }
}

impl VBufferView {
    /// Index of the entry of pixel `(x, y)`.
    pub open spec fn index(self, x: int, y: int) -> int {
        y * self.width + x
    }

    /// One entry per pixel of the `width` by `height` rectangle.
    pub open spec fn wf(self) -> bool {
        &&& 0 <= self.width
        &&& 0 <= self.height
        &&& self.cells.len() == self.width * self.height
    }

    /// Pixel `(x, y)` has an entry.
    pub open spec fn holds(self, x: int, y: int) -> bool {
        0 <= self.index(x, y) < self.cells.len()
    }
}

impl VBuffer {
    /// The buffer has one entry per pixel of its rectangle.
    #[verifier::type_invariant]
    closed spec fn fills_rectangle(&self) -> bool {
        self@.wf()
    }

    /// A `width` by `height` buffer with every entry the default `DrawTri`.
    pub fn new(width: usize, height: usize) -> (v: VBuffer)
        requires
            width * height <= usize::MAX,
        ensures
            v@.width == width,
            v@.height == height,
            v@.cells.len() == width * height,
            v@.wf(),
            forall|i: int| 0 <= i < v@.cells.len() ==> #[trigger] v@.cells[i] == DrawTri::spec_default(),
    {
        let n = width * height;
        let mut visibility: Vec<DrawTri> = Vec::with_capacity(n);
        let mut i: usize = 0;
        while i < n
            invariant
                i <= n,
                visibility@.len() == i,
                forall|k: int| 0 <= k < i ==> #[trigger] visibility@[k] == DrawTri::spec_default(),
            decreases n - i,
        {
            visibility.push(DrawTri::default());
            i = i + 1;
        }
        VBuffer { visibility, width, height }
    }

    /// Records `tri` as drawn at pixel `(x, y)`.
    pub fn put(&mut self, tri: DrawTri, x: usize, y: usize)
        requires
            old(self)@.holds(x as int, y as int),
        ensures
            old(self)@.wf(),
            final(self)@.wf(),
            final(self)@.width == old(self)@.width,
            final(self)@.height == old(self)@.height,
            final(self)@.cells == old(self)@.cells.update(old(self)@.index(x as int, y as int), tri),
    {
        let (mut cells, width, height) = self.take_parts();
        proof {
            // The entry's index is below the vector's length, which fits in `usize`.
            assert(cells@.len() == cells.len());
        }
        let index = y * width + x;
        cells.set(index, tri);
        *self = VBuffer { visibility: cells, width, height };
    }

    /// Takes the entries and the size out of the buffer, leaving it empty.
    fn take_parts(&mut self) -> (parts: (Vec<DrawTri>, usize, usize))
        ensures
            parts.0@ == old(self)@.cells,
            parts.1 == old(self)@.width,
            parts.2 == old(self)@.height,
            old(self)@.wf(),
    {
        let mut whole = VBuffer { visibility: Vec::new(), width: 0, height: 0 };
        std::mem::swap(&mut whole, self);
        proof {
            use_type_invariant(&whole);
        }
        let VBuffer { visibility, width, height } = whole;
        (visibility, width, height)
    }

    /// The triangle recorded at pixel `(x, y)`.
    pub fn get(&self, x: usize, y: usize) -> (r: &DrawTri)
        requires
            self@.holds(x as int, y as int),
        ensures
            *r == self@.cells[self@.index(x as int, y as int)],
            self@.wf(),
    {
        proof {
            use_type_invariant(self);
            assert(self.visibility@.len() == self.visibility.len());
        }
        &self.visibility[y * self.width + x]
    }

    /// Width of the buffer's rectangle; the buffer has an entry for each of its pixels.
    pub fn width(&self) -> (w: usize)
        ensures
            w == self@.width,
            self@.wf(),
    {
        proof {
            use_type_invariant(self);
        }
        self.width
    }

    /// Height of the buffer's rectangle; the buffer has an entry for each of its pixels.
    pub fn height(&self) -> (h: usize)
        ensures
            h == self@.height,
            self@.wf(),
    {
        proof {
            use_type_invariant(self);
        }
        self.height
    }
}

/// A fragment of a triangle that the visibility pass resolves: its pixel and
/// its depth.
#[derive(Clone, Copy, Debug, PartialEq, Eq, Structural)]
pub struct Fragment {
    pub x: i32,
    pub y: i32,
    pub depth: Depth,
}

/// The visibility buffer and depth buffer after one fragment of triangle
/// `call`: where the fragment passes the depth test, the pixel's entry becomes
/// `call` and its depth the fragment's (its color zero); otherwise nothing changes.
pub open spec fn resolve_step(
    state: (VBufferView, FramebufferView),
    call: DrawTri,
    f: Fragment,
) -> (VBufferView, FramebufferView) {
    let (vb, fb) = state;
    let i = fb.index(f.x as int, f.y as int);
    if fb.passes_depth_test(i, f.depth) {
        (
            VBufferView {
                width: vb.width,
                height: vb.height,
                cells: vb.cells.update(vb.index(f.x as int, f.y as int), call),
            },
            fb.written(i, f.depth, Color::spec_zero()),
        )
    } else {
        state
    }
}

/// The visibility buffer and depth buffer after the fragments of triangle
/// `call`, taken in order.
pub open spec fn resolved(
    vb: VBufferView,
    fb: FramebufferView,
    call: DrawTri,
    frags: Seq<Fragment>,
) -> (VBufferView, FramebufferView)
    decreases frags.len(),
{
    if frags.len() == 0 {
        (vb, fb)
    } else {
        resolve_step(resolved(vb, fb, call, frags.drop_last()), call, frags.last())
    }
}

/// The visibility buffer and the depth buffer address pixels alike: the same
/// width and one entry per pixel of the depth buffer.
pub open spec fn buffers_match(vb: VBufferView, fb: FramebufferView) -> bool {
    &&& fb.wf()
    &&& vb.width == fb.width
    &&& vb.cells.len() == fb.len()
}

/// The fragments all fall on pixels of the depth buffer.
pub open spec fn fragments_addressable(fb: FramebufferView, frags: Seq<Fragment>) -> bool {
    forall|k: int| 0 <= k < frags.len() ==> fb.addressable(#[trigger] frags[k].x, frags[k].y)
}

impl VBuffer {
    /// Resolves the fragments of triangle `call` in order against the depth
    /// buffer: each one that passes the depth test records `call` at its pixel
    /// and writes its depth (with color zero) to the depth buffer.
    pub fn record(&mut self, depth_buffer: &mut Framebuffer, call: DrawTri, fragments: &[Fragment])
        requires
            old(depth_buffer).wf(),
            buffers_match(old(self)@, old(depth_buffer)@),
            fragments_addressable(old(depth_buffer)@, fragments@),
        ensures
            (final(self)@, final(depth_buffer)@) == resolved(
                old(self)@,
                old(depth_buffer)@,
                call,
                fragments@,
            ),
            final(depth_buffer).wf(),
            final(depth_buffer).spec_tiles() == old(depth_buffer).spec_tiles(),
    {
        let (mut cells, width, height) = self.take_parts();
        let ghost vb0 = old(self)@;
        let mut k: usize = 0;
        while k < fragments.len()
            invariant
                k <= fragments@.len(),
                vb0 == old(self)@,
                width == vb0.width,
                height == vb0.height,
                vb0.wf(),
                cells@.len() == vb0.cells.len(),
                depth_buffer.wf(),
                depth_buffer.spec_tiles() == old(depth_buffer).spec_tiles(),
                depth_buffer@.width == old(depth_buffer)@.width,
                depth_buffer@.height == old(depth_buffer)@.height,
                buffers_match(VBufferView { width: width as int, height: height as int, cells: cells@ }, depth_buffer@),
                fragments_addressable(old(depth_buffer)@, fragments@),
                (VBufferView { width: width as int, height: height as int, cells: cells@ }, depth_buffer@) == resolved(
                    old(self)@,
                    old(depth_buffer)@,
                    call,
                    fragments@.take(k as int),
                ),
            decreases fragments@.len() - k,
        {
            let f = fragments[k];
            proof {
                assert(fragments@.take(k + 1).drop_last() =~= fragments@.take(k as int));
                assert(fragments@.take(k + 1).last() == f);
            }
            if depth_buffer.depth_test(f.x, f.y, f.depth) {
                let index = (f.y * depth_buffer.width() + f.x) as usize;
                cells.set(index, call);
                depth_buffer.write_fragment(f.x, f.y, f.depth, Color::zero());
            }
            k = k + 1;
        }
        proof {
            assert(fragments@.take(k as int) =~= fragments@);
        }
        *self = VBuffer { visibility: cells, width, height };
    }
}

/// Pixel `(px, py)` of the framebuffer holds, in the current generation and
/// at depth zero, a color that `shade` gives for the entry of `(px, py)` in
/// the visibility buffer.
pub open spec fn shaded_from<F: Fn(DrawTri) -> Color>(
    fb: FramebufferView,
    vb: VBufferView,
    shade: F,
    px: int,
    py: int,
) -> bool {
    let i = fb.index(px, py);
    &&& fb.generation[i] == fb.current_generation
    &&& fb.depth[i] == Depth { bits: 0 }
    &&& call_ensures(shade, (vb.cells[vb.index(px, py)],), fb.color[i])
}

/// Pixel `(px, py)` has the same contents in both framebuffers.
pub open spec fn pixel_kept(fb: FramebufferView, old_fb: FramebufferView, px: int, py: int) -> bool {
    let i = fb.index(px, py);
    &&& fb.generation[i] == old_fb.generation[i]
    &&& fb.depth[i] == old_fb.depth[i]
    &&& fb.color[i] == old_fb.color[i]
}

impl VBuffer {
    /// Shades the pixels of the visibility buffer's rectangle, entry by entry
    /// in row order: pixel `(x, y)` of the framebuffer gets, at depth zero, the
    /// color `shade` gives for the entry of `(x, y)`. The framebuffer's other
    /// pixels are kept.
    pub fn shade<F: Fn(DrawTri) -> Color>(&self, framebuffer: &mut Framebuffer, shade: F)
        requires
            old(framebuffer).wf(),
            self@.width <= old(framebuffer)@.width,
            self@.height <= old(framebuffer)@.height,
            old(framebuffer)@.len() <= i32::MAX,
            forall|t: DrawTri| call_requires(shade, (t,)),
        ensures
            final(framebuffer).wf(),
            final(framebuffer).spec_tiles() == old(framebuffer).spec_tiles(),
            final(framebuffer)@.width == old(framebuffer)@.width,
            final(framebuffer)@.height == old(framebuffer)@.height,
            final(framebuffer)@.current_generation == old(framebuffer)@.current_generation,
            forall|px: int, py: int|
                0 <= px < self@.width && 0 <= py < self@.height ==> #[trigger] shaded_from(
                    final(framebuffer)@,
                    self@,
                    shade,
                    px,
                    py,
                ),
            forall|px: int, py: int|
                0 <= px < old(framebuffer)@.width && 0 <= py < old(framebuffer)@.height && !(px
                    < self@.width && py < self@.height) ==> #[trigger] pixel_kept(
                    final(framebuffer)@,
                    old(framebuffer)@,
                    px,
                    py,
                ),
    {
        proof {
            use_type_invariant(self);
        }
        let ghost vb = self@;
        let ghost fb0 = framebuffer@;
        let n = self.visibility.len();
        let width = self.width;
        let fb_width = framebuffer.width();
        let fb_height = framebuffer.height();
        let mut j: usize = 0;
        while j < n
            invariant
                j <= n,
                n == vb.cells.len(),
                vb == self@,
                n == vb.width * vb.height,
                width == vb.width,
                vb.width <= fb0.width,
                vb.height <= fb0.height,
                fb0 == old(framebuffer)@,
                framebuffer.wf(),
                framebuffer.spec_tiles() == old(framebuffer).spec_tiles(),
                framebuffer@.width == fb0.width,
                framebuffer@.height == fb0.height,
                framebuffer@.current_generation == fb0.current_generation,
                fb0.wf(),
                fb0.len() <= i32::MAX,
                fb0.width == fb_width,
                fb0.height == fb_height,
                forall|t: DrawTri| call_requires(shade, (t,)),
                forall|px: int, py: int|
                    0 <= px < vb.width && 0 <= py < vb.height && vb.index(px, py) < j
                        ==> #[trigger] shaded_from(framebuffer@, vb, shade, px, py),
                forall|px: int, py: int|
                    0 <= px < fb0.width && 0 <= py < fb0.height && !(px < vb.width && py
                        < vb.height && vb.index(px, py) < j) ==> #[trigger] pixel_kept(
                        framebuffer@,
                        fb0,
                        px,
                        py,
                    ),
            decreases n - j,
        {
            assert(0 < width && width <= i32::MAX) by (nonlinear_arith)
                requires
                    j < n,
                    n == width * vb.height,
                    0 <= vb.height,
                    0 <= width <= fb0.width,
                    fb0.width <= i32::MAX,
            ;
            let x = j % width;
            let y = j / width;
            proof {
                assert(y * width + x == j && 0 <= x < width && 0 <= y < vb.height) by (nonlinear_arith)
                    requires
                        width > 0,
                        j < n,
                        n == width * vb.height,
                        x == j % width,
                        y == j / width,
                ;
                lemma_in_bounds_addressable(framebuffer@, x as i32, y as i32);
            }
            let color = shade(self.visibility[j]);
            let ghost before = framebuffer@;
            framebuffer.write_fragment(x as i32, y as i32, Depth { bits: 0 }, color);
            proof {
                assert forall|px: int, py: int|
                    0 <= px < vb.width && 0 <= py < vb.height && vb.index(px, py) < j + 1
                        implies #[trigger] shaded_from(framebuffer@, vb, shade, px, py) by {
                    lemma_pixel_index_injective(before, x as int, y as int, px, py);
                    if px == x && py == y {
                        assert(vb.index(px, py) == j);
                    } else {
                        assert(vb.index(px, py) != j) by (nonlinear_arith)
                            requires
                                0 <= px < vb.width,
                                0 <= x < vb.width,
                                0 <= py,
                                0 <= y,
                                !(px == x && py == y),
                                j == y * vb.width + x,
                        ;
                        assert(shaded_from(before, vb, shade, px, py));
                    }
                }
                assert forall|px: int, py: int|
                    0 <= px < fb0.width && 0 <= py < fb0.height && !(px < vb.width && py
                        < vb.height && vb.index(px, py) < j + 1) implies #[trigger] pixel_kept(
                    framebuffer@,
                    fb0,
                    px,
                    py,
                ) by {
                    lemma_pixel_index_injective(before, x as int, y as int, px, py);
                    assert(!(px == x && py == y));
                    assert(pixel_kept(before, fb0, px, py));
                }
            }
            j = j + 1;
        }
        proof {
            assert forall|px: int, py: int|
                0 <= px < vb.width && 0 <= py < vb.height implies #[trigger] shaded_from(
                framebuffer@,
                vb,
                shade,
                px,
                py,
            ) by {
                assert(vb.index(px, py) < n) by (nonlinear_arith)
                    requires
                        0 <= px < vb.width,
                        0 <= py < vb.height,
                        n == vb.width * vb.height,
                ;
            }
        }
    }
}

/// Resolving fragments keeps the buffers' sizes, the depth buffer's
/// generation and the agreement between the two buffers.
pub proof fn lemma_resolved_shape(
    vb: VBufferView,
    fb: FramebufferView,
    call: DrawTri,
    frags: Seq<Fragment>,
)
    requires
        buffers_match(vb, fb),
        fragments_addressable(fb, frags),
    ensures
        ({
            let (vb2, fb2) = resolved(vb, fb, call, frags);
            &&& buffers_match(vb2, fb2)
            &&& vb2.width == vb.width
            &&& vb2.height == vb.height
            &&& fb2.width == fb.width
            &&& fb2.height == fb.height
            &&& fb2.current_generation == fb.current_generation
        }),
    decreases frags.len(),
{
    if frags.len() > 0 {
        let rest = frags.drop_last();
        assert forall|k: int| 0 <= k < rest.len() implies fb.addressable(
            #[trigger] rest[k].x,
            rest[k].y,
        ) by {
            assert(rest[k] == frags[k]);
        }
        lemma_resolved_shape(vb, fb, call, rest);
        assert(fb.addressable(frags[frags.len() - 1].x, frags[frags.len() - 1].y));
    }
}

/// Nearest fragment wins: after the fragments of a triangle are resolved,
/// the pixel of each fragment has been drawn and holds no depth greater than
/// that fragment's.
pub proof fn lemma_resolved_keeps_nearest(
    vb: VBufferView,
    fb: FramebufferView,
    call: DrawTri,
    frags: Seq<Fragment>,
    k: int,
)
    requires
        buffers_match(vb, fb),
        fragments_addressable(fb, frags),
        0 <= k < frags.len(),
    ensures
        ({
            let fb2 = resolved(vb, fb, call, frags).1;
            let i = fb.index(frags[k].x as int, frags[k].y as int);
            &&& fb2.visible(i)
            &&& !f32_lt(frags[k].depth.bits, fb2.depth[i].bits)
        }),
    decreases frags.len(),
{
    let rest = frags.drop_last();
    let g = frags.last();
    assert forall|j: int| 0 <= j < rest.len() implies fb.addressable(
        #[trigger] rest[j].x,
        rest[j].y,
    ) by {
        assert(rest[j] == frags[j]);
    }
    lemma_resolved_shape(vb, fb, call, rest);
    assert(fb.addressable(g.x, g.y));
    if k < frags.len() - 1 {
        assert(rest[k] == frags[k]);
        lemma_resolved_keeps_nearest(vb, fb, call, rest, k);
    }
}

/// The two buffers stay in step: after resolving the fragments of triangle
/// `call`, a pixel whose depth or generation changed holds `call`, and a pixel
/// that no fragment falls on keeps its entry and its depth buffer contents.
pub proof fn lemma_resolved_in_step(
    vb: VBufferView,
    fb: FramebufferView,
    call: DrawTri,
    frags: Seq<Fragment>,
    i: int,
)
    requires
        buffers_match(vb, fb),
        fragments_addressable(fb, frags),
        0 <= i < fb.len(),
    ensures
        ({
            let (vb2, fb2) = resolved(vb, fb, call, frags);
            &&& (fb2.depth[i] != fb.depth[i] || fb2.generation[i] != fb.generation[i])
                ==> vb2.cells[i] == call && fb2.visible(i)
            &&& vb2.cells[i] != vb.cells[i] ==> vb2.cells[i] == call
            &&& (forall|k: int|
                0 <= k < frags.len() ==> fb.index(#[trigger] frags[k].x as int, frags[k].y as int)
                    != i) ==> {
                &&& vb2.cells[i] == vb.cells[i]
                &&& fb2.depth[i] == fb.depth[i]
                &&& fb2.generation[i] == fb.generation[i]
                &&& fb2.color[i] == fb.color[i]
            }
        }),
    decreases frags.len(),
{
    if frags.len() > 0 {
        let rest = frags.drop_last();
        let g = frags.last();
        assert forall|j: int| 0 <= j < rest.len() implies fb.addressable(
            #[trigger] rest[j].x,
            rest[j].y,
        ) by {
            assert(rest[j] == frags[j]);
        }
        lemma_resolved_shape(vb, fb, call, rest);
        lemma_resolved_in_step(vb, fb, call, rest, i);
        assert(fb.addressable(g.x, g.y));
        if forall|k: int|
            0 <= k < frags.len() ==> fb.index(#[trigger] frags[k].x as int, frags[k].y as int)
                != i {
            assert forall|k: int|
                0 <= k < rest.len() implies fb.index(
                #[trigger] rest[k].x as int,
                rest[k].y as int,
            ) != i by {
                assert(rest[k] == frags[k]);
            }
            assert(fb.index(frags[frags.len() - 1].x as int, frags[frags.len() - 1].y as int) != i);
        }
    }
}

/// Every pixel of a buffer's rectangle has its own entry (a buffer is always
/// well-formed, as `put`, `get`, `width` and `height` ensure): after a put at
/// one pixel, a get there gives the triangle put, and a get at any other
/// pixel gives what it gave before.
pub proof fn lemma_put_then_get(v: VBufferView, x: int, y: int, x2: int, y2: int, tri: DrawTri)
    requires
        v.wf(),
        0 <= x < v.width,
        0 <= y < v.height,
        0 <= x2 < v.width,
        0 <= y2 < v.height,
    ensures
        v.holds(x, y),
        v.holds(x2, y2),
        v.cells.update(v.index(x, y), tri)[v.index(x2, y2)] == if x == x2 && y == y2 {
            tri
        } else {
            v.cells[v.index(x2, y2)]
        },
{
    assert(0 <= v.index(x, y) < v.cells.len() && 0 <= v.index(x2, y2) < v.cells.len())
        by (nonlinear_arith)
        requires
            0 <= x < v.width,
            0 <= y < v.height,
            0 <= x2 < v.width,
            0 <= y2 < v.height,
            v.cells.len() == v.width * v.height,
    ;
    if !(x == x2 && y == y2) {
        assert(v.index(x, y) != v.index(x2, y2)) by (nonlinear_arith)
            requires
                0 <= x < v.width,
                0 <= x2 < v.width,
                0 <= y,
                0 <= y2,
                !(x == x2 && y == y2),
        ;
    }
}

/// An entry reads back the triangle last put there.
pub proof fn lemma_get_after_put(v: VBufferView, x: int, y: int, tri: DrawTri)
    requires
        v.holds(x, y),
    ensures
        v.cells.update(v.index(x, y), tri)[v.index(x, y)] == tri,
{
}

/// Putting a triangle at one pixel leaves the entries of all others.
pub proof fn lemma_put_leaves_others(v: VBufferView, x: int, y: int, x2: int, y2: int, tri: DrawTri)
    requires
        v.holds(x, y),
        v.holds(x2, y2),
        v.index(x, y) != v.index(x2, y2),
    ensures
        v.cells.update(v.index(x, y), tri)[v.index(x2, y2)] == v.cells[v.index(x2, y2)],
{
}

} // verus!
