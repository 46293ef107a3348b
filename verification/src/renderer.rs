use vstd::prelude::*;

use crate::framebuffer::{Framebuffer, FramebufferView, framebuffer_size_ok, is_tile_layout, tiles_dim, lemma_wf_size_ok};
use crate::texture::Texture;
use crate::color::Color;

verus! {

/// Bit `i` of `v`.
pub open spec fn bit_of(v: u32, i: u32) -> u32 {
    (v >> i) & 1
}

/// `r` is the Morton code of `x` and `y`: the bits of `x` fill the even bit
/// positions of `r` and the bits of `y` the odd ones, bit for bit in order.
pub open spec fn is_morton_code(r: u32, x: u32, y: u32) -> bool {
    forall|i: u32|
        i < 16 ==> #[trigger] bit_of(r, (2 * i) as u32) == bit_of(x, i) && bit_of(
            r,
            (2 * i + 1) as u32,
        ) == bit_of(y, i)
}

/// The Morton code of `x` and `y`.
pub open spec fn morton_code(x: u32, y: u32) -> u32 {
    choose|r: u32| is_morton_code(r, x, y)
}

proof fn lemma_bits_determine(a: u32, b: u32)
    by (bit_vector)
    requires
        ((a >> 0u32) & 1u32) == ((b >> 0u32) & 1u32),
        ((a >> 1u32) & 1u32) == ((b >> 1u32) & 1u32),
        ((a >> 2u32) & 1u32) == ((b >> 2u32) & 1u32),
        ((a >> 3u32) & 1u32) == ((b >> 3u32) & 1u32),
        ((a >> 4u32) & 1u32) == ((b >> 4u32) & 1u32),
        ((a >> 5u32) & 1u32) == ((b >> 5u32) & 1u32),
        ((a >> 6u32) & 1u32) == ((b >> 6u32) & 1u32),
        ((a >> 7u32) & 1u32) == ((b >> 7u32) & 1u32),
        ((a >> 8u32) & 1u32) == ((b >> 8u32) & 1u32),
        ((a >> 9u32) & 1u32) == ((b >> 9u32) & 1u32),
        ((a >> 10u32) & 1u32) == ((b >> 10u32) & 1u32),
        ((a >> 11u32) & 1u32) == ((b >> 11u32) & 1u32),
        ((a >> 12u32) & 1u32) == ((b >> 12u32) & 1u32),
        ((a >> 13u32) & 1u32) == ((b >> 13u32) & 1u32),
        ((a >> 14u32) & 1u32) == ((b >> 14u32) & 1u32),
        ((a >> 15u32) & 1u32) == ((b >> 15u32) & 1u32),
        ((a >> 16u32) & 1u32) == ((b >> 16u32) & 1u32),
        ((a >> 17u32) & 1u32) == ((b >> 17u32) & 1u32),
        ((a >> 18u32) & 1u32) == ((b >> 18u32) & 1u32),
        ((a >> 19u32) & 1u32) == ((b >> 19u32) & 1u32),
        ((a >> 20u32) & 1u32) == ((b >> 20u32) & 1u32),
        ((a >> 21u32) & 1u32) == ((b >> 21u32) & 1u32),
        ((a >> 22u32) & 1u32) == ((b >> 22u32) & 1u32),
        ((a >> 23u32) & 1u32) == ((b >> 23u32) & 1u32),
        ((a >> 24u32) & 1u32) == ((b >> 24u32) & 1u32),
        ((a >> 25u32) & 1u32) == ((b >> 25u32) & 1u32),
        ((a >> 26u32) & 1u32) == ((b >> 26u32) & 1u32),
        ((a >> 27u32) & 1u32) == ((b >> 27u32) & 1u32),
        ((a >> 28u32) & 1u32) == ((b >> 28u32) & 1u32),
        ((a >> 29u32) & 1u32) == ((b >> 29u32) & 1u32),
        ((a >> 30u32) & 1u32) == ((b >> 30u32) & 1u32),
        ((a >> 31u32) & 1u32) == ((b >> 31u32) & 1u32),
    ensures
        a == b,
{
}

/// A Morton code is determined by its coordinates.
pub proof fn lemma_morton_code_unique(r1: u32, r2: u32, x: u32, y: u32)
    requires
        is_morton_code(r1, x, y),
        is_morton_code(r2, x, y),
    ensures
        r1 == r2,
{
    assert(bit_of(r1, (2 * 0u32) as u32) == bit_of(r2, (2 * 0u32) as u32));
    assert(bit_of(r1, (2 * 0u32 + 1) as u32) == bit_of(r2, (2 * 0u32 + 1) as u32));
    assert(bit_of(r1, (2 * 1u32) as u32) == bit_of(r2, (2 * 1u32) as u32));
    assert(bit_of(r1, (2 * 1u32 + 1) as u32) == bit_of(r2, (2 * 1u32 + 1) as u32));
    assert(bit_of(r1, (2 * 2u32) as u32) == bit_of(r2, (2 * 2u32) as u32));
    assert(bit_of(r1, (2 * 2u32 + 1) as u32) == bit_of(r2, (2 * 2u32 + 1) as u32));
    assert(bit_of(r1, (2 * 3u32) as u32) == bit_of(r2, (2 * 3u32) as u32));
    assert(bit_of(r1, (2 * 3u32 + 1) as u32) == bit_of(r2, (2 * 3u32 + 1) as u32));
    assert(bit_of(r1, (2 * 4u32) as u32) == bit_of(r2, (2 * 4u32) as u32));
    assert(bit_of(r1, (2 * 4u32 + 1) as u32) == bit_of(r2, (2 * 4u32 + 1) as u32));
    assert(bit_of(r1, (2 * 5u32) as u32) == bit_of(r2, (2 * 5u32) as u32));
    assert(bit_of(r1, (2 * 5u32 + 1) as u32) == bit_of(r2, (2 * 5u32 + 1) as u32));
    assert(bit_of(r1, (2 * 6u32) as u32) == bit_of(r2, (2 * 6u32) as u32));
    assert(bit_of(r1, (2 * 6u32 + 1) as u32) == bit_of(r2, (2 * 6u32 + 1) as u32));
    assert(bit_of(r1, (2 * 7u32) as u32) == bit_of(r2, (2 * 7u32) as u32));
    assert(bit_of(r1, (2 * 7u32 + 1) as u32) == bit_of(r2, (2 * 7u32 + 1) as u32));
    assert(bit_of(r1, (2 * 8u32) as u32) == bit_of(r2, (2 * 8u32) as u32));
    assert(bit_of(r1, (2 * 8u32 + 1) as u32) == bit_of(r2, (2 * 8u32 + 1) as u32));
    assert(bit_of(r1, (2 * 9u32) as u32) == bit_of(r2, (2 * 9u32) as u32));
    assert(bit_of(r1, (2 * 9u32 + 1) as u32) == bit_of(r2, (2 * 9u32 + 1) as u32));
    assert(bit_of(r1, (2 * 10u32) as u32) == bit_of(r2, (2 * 10u32) as u32));
    assert(bit_of(r1, (2 * 10u32 + 1) as u32) == bit_of(r2, (2 * 10u32 + 1) as u32));
    assert(bit_of(r1, (2 * 11u32) as u32) == bit_of(r2, (2 * 11u32) as u32));
    assert(bit_of(r1, (2 * 11u32 + 1) as u32) == bit_of(r2, (2 * 11u32 + 1) as u32));
    assert(bit_of(r1, (2 * 12u32) as u32) == bit_of(r2, (2 * 12u32) as u32));
    assert(bit_of(r1, (2 * 12u32 + 1) as u32) == bit_of(r2, (2 * 12u32 + 1) as u32));
    assert(bit_of(r1, (2 * 13u32) as u32) == bit_of(r2, (2 * 13u32) as u32));
    assert(bit_of(r1, (2 * 13u32 + 1) as u32) == bit_of(r2, (2 * 13u32 + 1) as u32));
    assert(bit_of(r1, (2 * 14u32) as u32) == bit_of(r2, (2 * 14u32) as u32));
    assert(bit_of(r1, (2 * 14u32 + 1) as u32) == bit_of(r2, (2 * 14u32 + 1) as u32));
    assert(bit_of(r1, (2 * 15u32) as u32) == bit_of(r2, (2 * 15u32) as u32));
    assert(bit_of(r1, (2 * 15u32 + 1) as u32) == bit_of(r2, (2 * 15u32 + 1) as u32));
    lemma_bits_determine(r1, r2);
}

spec fn spread(v: u32) -> u32 {
    let a = (v | (v << 8u32)) & 0x00FF00FFu32;
    let b = (a | (a << 4u32)) & 0x0F0F0F0Fu32;
    let c = (b | (b << 2u32)) & 0x33333333u32;
    (c | (c << 1u32)) & 0x55555555u32
}

proof fn lemma_interleave_bit(x: u32, y: u32, i: u32)
    by (bit_vector)
    requires
        x < 0x10000u32,
        y < 0x10000u32,
        i < 16u32,
    ensures
        (((spread(x) | (spread(y) << 1u32)) >> (2u32 * i)) & 1u32) == ((x >> i) & 1u32),
        (((spread(x) | (spread(y) << 1u32)) >> (2u32 * i + 1u32)) & 1u32) == ((y >> i) & 1u32),
{
}

/// Interleaves the bits of `x` and `y` into a Morton (Z-order) code.
/// Both coordinates must be below 65536.
pub fn morton(x: u32, y: u32) -> (r: u32)
    requires
        x < 0x10000,
        y < 0x10000,
    ensures
        is_morton_code(r, x, y),
        r == morton_code(x, y),
{
    let ghost (x0, y0) = (x, y);
    let mut x = x;
    let mut y = y;
    x = (x | (x << 8u32)) & 0x00FF00FFu32;
    x = (x | (x << 4u32)) & 0x0F0F0F0Fu32;
    x = (x | (x << 2u32)) & 0x33333333u32;
    x = (x | (x << 1u32)) & 0x55555555u32;

    y = (y | (y << 8u32)) & 0x00FF00FFu32;
    y = (y | (y << 4u32)) & 0x0F0F0F0Fu32;
    y = (y | (y << 2u32)) & 0x33333333u32;
    y = (y | (y << 1u32)) & 0x55555555u32;

    let r = x | (y << 1u32);
    assert(x == spread(x0) && y == spread(y0));
    assert forall|i: u32| i < 16 implies #[trigger] bit_of(r, (2 * i) as u32) == bit_of(x0, i)
        && bit_of(r, (2 * i + 1) as u32) == bit_of(y0, i) by {
        lemma_interleave_bit(x0, y0, i);
    }
    proof {
        assert(is_morton_code(r, x0, y0));
        assert(exists|r2: u32| is_morton_code(r2, x0, y0));
        lemma_morton_code_unique(r, morton_code(x0, y0), x0, y0);
    }
    r
}

/// The Morton code of coordinates below 65536 is their spread bits interleaved.
proof fn lemma_morton_code_spread(x: u32, y: u32)
    requires
        x < 0x10000,
        y < 0x10000,
    ensures
        morton_code(x, y) == spread(x) | (spread(y) << 1u32),
{
    let r = spread(x) | (spread(y) << 1u32);
    assert forall|i: u32| i < 16 implies #[trigger] bit_of(r, (2 * i) as u32) == bit_of(x, i)
        && bit_of(r, (2 * i + 1) as u32) == bit_of(y, i) by {
        lemma_interleave_bit(x, y, i);
    }
    assert(is_morton_code(r, x, y));
    lemma_morton_code_unique(r, morton_code(x, y), x, y);
}

proof fn lemma_spread_monotone(x: u32, x2: u32)
    by (bit_vector)
    requires
        x <= x2,
        x2 < 0x10000u32,
    ensures
        spread(x) <= spread(x2),
{
}

proof fn lemma_spread_injective(x: u32, x2: u32)
    by (bit_vector)
    requires
        x < 0x10000u32,
        x2 < 0x10000u32,
        spread(x) == spread(x2),
    ensures
        x == x2,
{
}

proof fn lemma_interleave_sum(a: u32, b: u32)
    by (bit_vector)
    requires
        a & 0xAAAAAAAAu32 == 0u32,
        b & 0xAAAAAAAAu32 == 0u32,
    ensures
        a | (b << 1u32) == a + 2 * b,
        (a | (b << 1u32)) & 0x55555555u32 == a,
        ((a | (b << 1u32)) >> 1u32) & 0x55555555u32 == b,
{
}

proof fn lemma_spread_even(x: u32)
    by (bit_vector)
    ensures
        spread(x) & 0xAAAAAAAAu32 == 0u32,
{
}

/// Morton codes order and tell apart their coordinates: a point no further
/// right and no further down than another has no larger code, and distinct
/// points below 65536 in both coordinates have distinct codes.
pub proof fn lemma_morton_order(x: u32, y: u32, x2: u32, y2: u32)
    requires
        x < 0x10000,
        y < 0x10000,
        x2 < 0x10000,
        y2 < 0x10000,
    ensures
        x <= x2 && y <= y2 ==> morton_code(x, y) <= morton_code(x2, y2),
        (x != x2 || y != y2) ==> morton_code(x, y) != morton_code(x2, y2),
{
    lemma_morton_code_spread(x, y);
    lemma_morton_code_spread(x2, y2);
    lemma_spread_even(x);
    lemma_spread_even(y);
    lemma_spread_even(x2);
    lemma_spread_even(y2);
    lemma_interleave_sum(spread(x), spread(y));
    lemma_interleave_sum(spread(x2), spread(y2));
    if x <= x2 && y <= y2 {
        lemma_spread_monotone(x, x2);
        lemma_spread_monotone(y, y2);
    }
    if morton_code(x, y) == morton_code(x2, y2) {
        lemma_spread_injective(x, x2);
        lemma_spread_injective(y, y2);
    }
}

/// Owns the framebuffers and textures, by index. A render pass takes the
/// framebuffers it writes out of their slots and puts them back afterwards.
pub struct Renderer {
    framebuffers: Vec<Option<Framebuffer>>,
    textures: Vec<Option<Texture>>,
}

/// What a renderer holds: its slots, each empty while its resource is taken out.
pub struct RendererView {
    pub framebuffers: Seq<Option<Framebuffer>>,
    pub textures: Seq<Option<Texture>>,
}

impl View for Renderer {
    type V = RendererView;

    closed spec fn view(&self) -> RendererView {
        RendererView { framebuffers: self.framebuffers@, textures: self.textures@ }
    }
}

impl RendererView {
    /// Slot `id` holds a framebuffer.
    pub open spec fn has_framebuffer(self, id: int) -> bool {
        0 <= id < self.framebuffers.len() && self.framebuffers[id] is Some
    }

    /// Slot `id` holds a texture.
    pub open spec fn has_texture(self, id: int) -> bool {
        0 <= id < self.textures.len() && self.textures[id] is Some
    }
}

impl Renderer {
    pub fn new() -> (r: Renderer)
        ensures
            r@.framebuffers.len() == 0,
            r@.textures.len() == 0,
    {
        Renderer { framebuffers: Vec::new(), textures: Vec::new() }
    }

    /// Adds a new `width` by `height` framebuffer in a new slot, and returns the slot.
    pub fn create_framebuffer(&mut self, width: usize, height: usize) -> (id: usize)
        requires
            framebuffer_size_ok(width as int, height as int),
        ensures
            id == old(self)@.framebuffers.len(),
            final(self)@.framebuffers.len() == old(self)@.framebuffers.len() + 1,
            final(self)@.framebuffers.subrange(0, id as int) == old(self)@.framebuffers,
            final(self)@.has_framebuffer(id as int),
            final(self)@.framebuffers[id as int].unwrap()@ == FramebufferView::fresh(
                width as int,
                height as int,
            ),
            final(self)@.framebuffers[id as int].unwrap().wf(),
            final(self)@.textures == old(self)@.textures,
    {
        let fb = Framebuffer::new(width, height);
        self.framebuffers.push(Some(fb));
        assert(self.framebuffers@.subrange(0, self.framebuffers@.len() - 1) =~= old(self).framebuffers@);
        self.framebuffers.len() - 1
    }

    /// Whether slot `id` holds a framebuffer.
    pub fn has_framebuffer(&self, id: usize) -> (r: bool)
        ensures
            r == self@.has_framebuffer(id as int),
    {
        id < self.framebuffers.len() && self.framebuffers[id].is_some()
    }

    /// Whether slot `id` holds a texture.
    pub fn has_texture(&self, id: usize) -> (r: bool)
        ensures
            r == self@.has_texture(id as int),
    {
        id < self.textures.len() && self.textures[id].is_some()
    }

    /// Takes the framebuffer out of slot `id`, leaving the slot empty.
    pub fn take_framebuffer(&mut self, id: usize) -> (fb: Framebuffer)
        requires
            old(self)@.has_framebuffer(id as int),
        ensures
            fb == old(self)@.framebuffers[id as int].unwrap(),
            final(self)@.framebuffers == old(self)@.framebuffers.update(id as int, None),
            final(self)@.textures == old(self)@.textures,
    {
        self.framebuffers[id].take().unwrap()
    }

    /// The framebuffer in slot `id`.
    pub fn borrow_framebuffer(&self, id: usize) -> (fb: &Framebuffer)
        requires
            self@.has_framebuffer(id as int),
        ensures
            *fb == self@.framebuffers[id as int].unwrap(),
    {
        self.framebuffers[id].as_ref().unwrap()
    }

    /// A new framebuffer of the size of the one in slot `id`.
    pub fn clone_empty_framebuffer(&mut self, id: usize) -> (fb: Framebuffer)
        requires
            old(self)@.has_framebuffer(id as int),
            old(self)@.framebuffers[id as int].unwrap().wf(),
        ensures
            fb@ == FramebufferView::fresh(
                old(self)@.framebuffers[id as int].unwrap()@.width,
                old(self)@.framebuffers[id as int].unwrap()@.height,
            ),
            fb.wf(),
            final(self)@ == old(self)@,
    {
        let fb = self.framebuffers[id].as_ref().unwrap();
        proof {
            lemma_wf_size_ok(*fb);
        }
        Framebuffer::new(fb.width() as usize, fb.height() as usize)
    }

    /// Puts a framebuffer into slot `id`.
    pub fn put_framebuffer(&mut self, id: usize, fb: Framebuffer)
        requires
            id < old(self)@.framebuffers.len(),
        ensures
            final(self)@.framebuffers == old(self)@.framebuffers.update(id as int, Some(fb)),
            final(self)@.textures == old(self)@.textures,
    {
        self.framebuffers.set(id, Some(fb));
    }

    /// Adds a texture in a new slot, and returns the slot.
    pub fn insert_texture(&mut self, tex: Texture) -> (id: usize)
        ensures
            id == old(self)@.textures.len(),
            final(self)@.textures == old(self)@.textures.push(Some(tex)),
            final(self)@.framebuffers == old(self)@.framebuffers,
    {
        self.textures.push(Some(tex));
        self.textures.len() - 1
    }

    /// Takes the texture out of slot `id`, leaving the slot empty.
    pub fn take_texture(&mut self, id: usize) -> (tex: Texture)
        requires
            old(self)@.has_texture(id as int),
        ensures
            tex == old(self)@.textures[id as int].unwrap(),
            final(self)@.textures == old(self)@.textures.update(id as int, None),
            final(self)@.framebuffers == old(self)@.framebuffers,
    {
        self.textures[id].take().unwrap()
    }

    /// The texture in slot `id`.
    pub fn borrow_texture(&self, id: usize) -> (tex: &Texture)
        requires
            self@.has_texture(id as int),
        ensures
            *tex == self@.textures[id as int].unwrap(),
    {
        self.textures[id].as_ref().unwrap()
    }

    /// Puts a texture into slot `id`.
    pub fn put_texturte(&mut self, id: usize, tex: Texture)
        requires
            id < old(self)@.textures.len(),
        ensures
            final(self)@.textures == old(self)@.textures.update(id as int, Some(tex)),
            final(self)@.framebuffers == old(self)@.framebuffers,
    {
        self.textures.set(id, Some(tex));
    }

    /// Clears the framebuffer in slot `id`.
    pub fn clear_framebuffer(&mut self, id: usize)
        requires
            old(self)@.has_framebuffer(id as int),
            old(self)@.framebuffers[id as int].unwrap().wf(),
        ensures
            final(self)@.framebuffers.len() == old(self)@.framebuffers.len(),
            final(self)@.has_framebuffer(id as int),
            final(self)@.framebuffers[id as int].unwrap()@ == old(self)@.framebuffers[id as int].unwrap()@.cleared(),
            final(self)@.framebuffers[id as int].unwrap().wf(),
            final(self)@.framebuffers[id as int].unwrap().spec_tiles() == old(self)@.framebuffers[id as int].unwrap().spec_tiles(),
            forall|j: int| 0 <= j < old(self)@.framebuffers.len() && j != id ==> final(self)@.framebuffers[j] == old(self)@.framebuffers[j],
            final(self)@.textures == old(self)@.textures,
    {
        let mut fb = self.framebuffers[id].take().unwrap();
        fb.clear(Color::zero());
        self.framebuffers.set(id, Some(fb));
    }
}

/// Putting a framebuffer into a slot and taking it out again gives it back,
/// and leaves the slot empty.
pub proof fn lemma_take_after_put(r: RendererView, id: int, fb: Framebuffer)
    requires
        0 <= id < r.framebuffers.len(),
    ensures
        r.framebuffers.update(id, Some(fb))[id].unwrap() == fb,
        r.framebuffers.update(id, Some(fb)).update(id, None) == r.framebuffers.update(id, None),
{
    assert(r.framebuffers.update(id, Some(fb)).update(id, None) =~= r.framebuffers.update(id, None));
}

/// Taking a framebuffer out of its slot and putting it back restores the slots.
pub proof fn lemma_put_after_take(r: RendererView, id: int)
    requires
        r.has_framebuffer(id),
    ensures
        r.framebuffers.update(id, None).update(id, Some(r.framebuffers[id].unwrap()))
            == r.framebuffers,
{
    assert(r.framebuffers.update(id, None).update(id, Some(r.framebuffers[id].unwrap())) =~= r.framebuffers);
}

/// Putting a texture into a slot and taking it out again gives it back.
pub proof fn lemma_take_texture_after_put(r: RendererView, id: int, tex: Texture)
    requires
        0 <= id < r.textures.len(),
    ensures
        r.textures.update(id, Some(tex))[id].unwrap() == tex,
{
}

} // verus!
