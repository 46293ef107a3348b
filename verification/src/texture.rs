use vstd::prelude::*;

use crate::color::Color;

verus! {

/// An image sampled by shaders: colors row by row, `width` texels per row.
pub struct Texture {
    color: Vec<Color>,
    width: i32,
    height: i32,
}

/// What a texture holds.
pub struct TextureView {
    pub color: Seq<Color>,
    pub width: int,
    pub height: int,
}

impl View for Texture {
    type V = TextureView;

    closed spec fn view(&self) -> TextureView {
        TextureView { color: self.color@, width: self.width as int, height: self.height as int }
    }
}

impl TextureView {
    /// Index of texel `(tex_x, tex_y)`: the width is taken as a `usize`, as
    /// the sampling arithmetic does.
    pub open spec fn texel_index(self, tex_x: int, tex_y: int) -> int {
        tex_y * ((self.width as i32) as usize) + tex_x
    }
}

impl Texture {
    pub fn new(color: Vec<Color>, width: i32, height: i32) -> (t: Texture)
        ensures
            t@.color == color@,
            t@.width == width,
            t@.height == height,
    {
        Texture { color, width, height }
    }

    pub fn width(&self) -> (w: i32)
        ensures
            w == self@.width,
    {
        self.width
    }

    pub fn height(&self) -> (h: i32)
        ensures
            h == self@.height,
    {
        self.height
    }

    /// The color of texel `(tex_x, tex_y)`.
    pub fn texel(&self, tex_x: usize, tex_y: usize) -> (c: Color)
        requires
            self@.texel_index(tex_x as int, tex_y as int) < self@.color.len(),
        ensures
            c == self@.color[self@.texel_index(tex_x as int, tex_y as int)],
    {
        proof {
            // The texel's index is below the vector's length, which fits in `usize`.
            assert(self.color@.len() == self.color.len());
        }
        let tex_idx = tex_y * self.width as usize + tex_x;
        self.color[tex_idx]
    }

    /// The color of texel `(tex_x, tex_y)`, or opaque black for a texel past
    /// the end of the image.
    pub fn texel_fail_silent(&self, tex_x: usize, tex_y: usize) -> (c: Color)
        requires
            self@.texel_index(tex_x as int, tex_y as int) <= usize::MAX,
        ensures
            c == if self@.texel_index(tex_x as int, tex_y as int) >= self@.color.len() {
                Color::spec_opaque_black()
            } else {
                self@.color[self@.texel_index(tex_x as int, tex_y as int)]
            },
    {
        proof {
            assert(0 <= tex_y * ((self.width as i32) as usize)) by (nonlinear_arith)
                requires
                    0 <= tex_y,
            ;
        }
        let tex_idx = tex_y * self.width as usize + tex_x;
        if tex_idx >= self.color.len() {
            Color::opaque_black()
        } else {
            self.color[tex_idx]
        }
    }
}

} // verus!
