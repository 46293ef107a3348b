use renderer::datatypes::DrawTri;
use renderer::visibility::VBuffer;

#[test]
fn vbuffer_starts_with_default_entries() {
    let v = VBuffer::new(3, 2);
    assert_eq!(*v.get(2, 1), DrawTri::default());
    assert_eq!(*v.get(0, 0), DrawTri { draw_id: 0, tri_id: 0 });
}

#[test]
fn vbuffer_reads_back_what_was_put() {
    let mut v = VBuffer::new(3, 2);
    let tri = DrawTri { draw_id: 4, tri_id: 9 };
    v.put(tri, 1, 1);
    assert_eq!(*v.get(1, 1), tri);
    assert_eq!(*v.get(1, 0), DrawTri::default());
    v.put(DrawTri { draw_id: 1, tri_id: 2 }, 1, 1);
    assert_eq!(*v.get(1, 1), DrawTri { draw_id: 1, tri_id: 2 });
}

use renderer::color::{Color, Depth};
use renderer::framebuffer::Framebuffer;
use renderer::visibility::Fragment;

fn frag(x: i32, y: i32, d: f32) -> Fragment {
    Fragment { x, y, depth: Depth { bits: d.to_bits() } }
}

#[test]
fn nearest_fragment_wins_across_triangles() {
    let mut v = VBuffer::new(2, 2);
    let mut depth = Framebuffer::new(2, 2);
    let far = DrawTri { draw_id: 1, tri_id: 0 };
    let near = DrawTri { draw_id: 1, tri_id: 1 };
    v.record(&mut depth, far, &[frag(0, 0, 0.75), frag(1, 0, 0.75)]);
    v.record(&mut depth, near, &[frag(1, 0, 0.25), frag(1, 1, 0.5)]);
    // A farther fragment of a later triangle loses the depth test.
    v.record(&mut depth, DrawTri { draw_id: 2, tri_id: 0 }, &[frag(0, 0, 0.9)]);
    assert_eq!(*v.get(0, 0), far);
    assert_eq!(*v.get(1, 0), near);
    assert_eq!(*v.get(1, 1), near);
    assert_eq!(*v.get(0, 1), DrawTri::default());
    assert_eq!(depth.read_depth(0, 0), Depth { bits: 0.75f32.to_bits() });
    assert_eq!(depth.read_depth(1, 0), Depth { bits: 0.25f32.to_bits() });
    assert_eq!(depth.read_depth(0, 1), Depth { bits: f32::INFINITY.to_bits() });
    assert_eq!(depth.read_pixel(1, 0), Color::zero());
}

#[test]
fn shading_colors_each_pixel_from_its_entry() {
    let mut v = VBuffer::new(2, 2);
    v.put(DrawTri { draw_id: 0, tri_id: 3 }, 1, 0);
    v.put(DrawTri { draw_id: 0, tri_id: 5 }, 0, 1);
    // The target is wider than the visibility buffer: its extra column is kept.
    let mut target = Framebuffer::new(3, 2);
    let marker = Color { r: 7, g: 7, b: 7, a: 7 };
    target.write_fragment(2, 1, Depth { bits: 9 }, marker);
    v.shade(&mut target, |t| Color { r: t.tri_id, g: 0, b: 0, a: 1 });
    assert_eq!(target.read_pixel(0, 0), Color { r: 0, g: 0, b: 0, a: 1 });
    assert_eq!(target.read_pixel(1, 0), Color { r: 3, g: 0, b: 0, a: 1 });
    assert_eq!(target.read_pixel(0, 1), Color { r: 5, g: 0, b: 0, a: 1 });
    assert_eq!(target.read_depth(1, 1), Depth { bits: 0 });
    assert_eq!(target.read_pixel(2, 1), marker);
    assert_eq!(target.read_depth(2, 1), Depth { bits: 9 });
    assert_eq!(target.read_pixel(2, 0), Color::zero());
}

#[test]
fn put_changes_only_its_own_pixel() {
    let mut v = VBuffer::new(3, 2);
    let tri = DrawTri { draw_id: 2, tri_id: 7 };
    v.put(tri, 2, 0);
    for y in 0..2 {
        for x in 0..3 {
            let expected = if (x, y) == (2, 0) { tri } else { DrawTri::default() };
            assert_eq!(*v.get(x, y), expected);
        }
    }
}

#[test]
fn vbuffer_reports_its_size() {
    let v = VBuffer::new(4, 3);
    assert_eq!(v.width(), 4);
    assert_eq!(v.height(), 3);
}
