use renderer::color::{Color, Depth};
use renderer::renderer::Renderer;
use renderer::texture::Texture;

fn vec4(r: f32, g: f32, b: f32, a: f32) -> Color {
    Color { r: r.to_bits(), g: g.to_bits(), b: b.to_bits(), a: a.to_bits() }
}

#[test]
fn framebuffer_binding_round_trips_through_renderer() {
    let mut renderer = Renderer::new();
    let framebuffer_id = renderer.create_framebuffer(2, 2);

    let mut framebuffer = renderer.take_framebuffer(framebuffer_id);
    framebuffer.write_fragment(0, 0, Depth { bits: 0.25f32.to_bits() }, vec4(1.0, 0.0, 0.0, 1.0));
    renderer.put_framebuffer(framebuffer_id, framebuffer);

    let framebuffer = renderer.take_framebuffer(framebuffer_id);
    assert_eq!(framebuffer.read_pixel(0, 0), vec4(1.0, 0.0, 0.0, 1.0));
    renderer.put_framebuffer(framebuffer_id, framebuffer);

    renderer.clear_framebuffer(framebuffer_id);

    let framebuffer = renderer.take_framebuffer(framebuffer_id);
    assert_eq!(framebuffer.read_pixel(0, 0), vec4(0.0, 0.0, 0.0, 1.0));
    assert!(framebuffer.depth_test(0, 0, Depth { bits: 0.5f32.to_bits() }));
}

#[test]
fn framebuffer_ids_count_up() {
    let mut renderer = Renderer::new();
    assert_eq!(renderer.create_framebuffer(1, 1), 0);
    assert_eq!(renderer.create_framebuffer(3, 2), 1);
    let fb = renderer.borrow_framebuffer(1);
    assert_eq!((fb.width(), fb.height()), (3, 2));
    let empty = renderer.clone_empty_framebuffer(1);
    assert_eq!((empty.width(), empty.height()), (3, 2));
    assert_eq!(empty.current_generation(), 0);
}

#[test]
fn textures_round_trip_through_renderer() {
    let mut renderer = Renderer::new();
    let id = renderer.insert_texture(Texture::new(vec![vec4(0.5, 0.5, 0.5, 1.0)], 1, 1));
    assert_eq!(id, 0);
    assert_eq!(renderer.borrow_texture(id).texel(0, 0), vec4(0.5, 0.5, 0.5, 1.0));
    let tex = renderer.take_texture(id);
    assert_eq!(tex.width(), 1);
    renderer.put_texturte(id, tex);
    assert_eq!(renderer.borrow_texture(id).height(), 1);
}

#[test]
fn texture_lookup_by_texel() {
    let colors = vec![
        vec4(1.0, 0.0, 0.0, 1.0),
        vec4(0.0, 1.0, 0.0, 1.0),
        vec4(0.0, 0.0, 1.0, 1.0),
        vec4(1.0, 1.0, 1.0, 1.0),
    ];
    let tex = Texture::new(colors, 2, 2);
    assert_eq!(tex.texel(1, 0), vec4(0.0, 1.0, 0.0, 1.0));
    assert_eq!(tex.texel(0, 1), vec4(0.0, 0.0, 1.0, 1.0));
    assert_eq!(tex.texel_fail_silent(1, 1), vec4(1.0, 1.0, 1.0, 1.0));
    assert_eq!(tex.texel_fail_silent(0, 2), vec4(0.0, 0.0, 0.0, 1.0));
}
