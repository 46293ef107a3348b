use renderer::visibility::Fragment;
use renderer::color::{Color, Depth};
use renderer::datatypes::Point;
use renderer::framebuffer::{Framebuffer, Tile};

fn vec4(r: f32, g: f32, b: f32, a: f32) -> Color {
    Color { r: r.to_bits(), g: g.to_bits(), b: b.to_bits(), a: a.to_bits() }
}

fn depth(d: f32) -> Depth {
    Depth { bits: d.to_bits() }
}

#[test]
fn clear_resets_visible_state_via_generation() {
    let mut framebuffer = Framebuffer::new(2, 2);
    let initial_generation = framebuffer.current_generation();

    framebuffer.clear(vec4(0.25, 0.5, 0.75, 1.0));
    assert_eq!(framebuffer.current_generation(), initial_generation + 1);
    assert_eq!(framebuffer.read_pixel(0, 0), vec4(0.0, 0.0, 0.0, 1.0));
    assert_eq!(framebuffer.read_depth(0, 0), depth(f32::INFINITY));
    assert!(framebuffer.depth_test(0, 0, depth(0.5)));

    framebuffer.write_fragment(1, 1, depth(0.25), vec4(1.0, 0.0, 0.0, 1.0));

    assert_eq!(framebuffer.read_pixel(1, 1), vec4(1.0, 0.0, 0.0, 1.0));
    assert_eq!(framebuffer.read_depth(1, 1), depth(0.25));
    assert!(!framebuffer.depth_test(1, 1, depth(0.5)));

    framebuffer.clear(vec4(0.0, 0.0, 0.0, 0.0));
    assert_eq!(framebuffer.read_pixel(1, 1), vec4(0.0, 0.0, 0.0, 1.0));
    assert_eq!(framebuffer.read_depth(1, 1), depth(f32::INFINITY));
    assert!(framebuffer.depth_test(1, 1, depth(0.5)));
}

#[test]
fn partial_framebuffer_tiles_are_clipped_to_the_framebuffer_bounds() {
    let framebuffer = Framebuffer::new(65, 65);
    let tiles = framebuffer.get_tiles();

    assert_eq!(tiles.cols, 2);
    assert_eq!(tiles.rows, 2);
    assert_eq!(tiles.tiles.len(), 4);
    assert_eq!(tiles.tiles[0].min(), Point::new(0, 0));
    assert_eq!(tiles.tiles[0].max(), Point::new(64, 64));
    assert_eq!(tiles.tiles[3].min(), Point::new(64, 64));
    assert_eq!(tiles.tiles[3].max(), Point::new(65, 65));
}

#[test]
fn fresh_framebuffer_reads_zero_color_and_infinite_depth() {
    let framebuffer = Framebuffer::new(3, 2);
    assert_eq!(framebuffer.width(), 3);
    assert_eq!(framebuffer.height(), 2);
    assert_eq!(framebuffer.current_generation(), 0);
    assert_eq!(framebuffer.read_pixel(2, 1), vec4(0.0, 0.0, 0.0, 0.0));
    assert_eq!(framebuffer.read_depth(2, 1), depth(f32::INFINITY));
    assert!(framebuffer.depth_test(2, 1, depth(1000.0)));
    assert!(!framebuffer.depth_test(2, 1, depth(f32::INFINITY)));
}

#[test]
fn write_leaves_other_pixels_untouched() {
    let mut framebuffer = Framebuffer::new(4, 4);
    framebuffer.clear(Color::zero());
    framebuffer.write_fragment(2, 3, depth(0.5), vec4(0.0, 1.0, 0.0, 1.0));
    assert_eq!(framebuffer.read_pixel(2, 3), vec4(0.0, 1.0, 0.0, 1.0));
    assert_eq!(framebuffer.read_pixel(3, 2), vec4(0.0, 0.0, 0.0, 1.0));
    assert_eq!(framebuffer.read_depth(3, 2), depth(f32::INFINITY));
    let (colors, generations) = framebuffer.get_color();
    assert_eq!(colors.len(), 16);
    assert_eq!(colors[3 * 4 + 2], vec4(0.0, 1.0, 0.0, 1.0));
    assert_eq!(generations[3 * 4 + 2], framebuffer.current_generation());
    assert_ne!(generations[2 * 4 + 3], framebuffer.current_generation());
}

#[test]
fn depth_test_follows_float_order() {
    let mut framebuffer = Framebuffer::new(1, 1);
    framebuffer.write_fragment(0, 0, depth(0.0), vec4(1.0, 1.0, 1.0, 1.0));
    assert!(!framebuffer.depth_test(0, 0, depth(-0.0)));
    assert!(framebuffer.depth_test(0, 0, depth(-1.0)));
    assert!(!framebuffer.depth_test(0, 0, depth(1.0)));
    assert!(!framebuffer.depth_test(0, 0, depth(f32::NAN)));
    assert!(framebuffer.depth_test(0, 0, depth(f32::NEG_INFINITY)));
    framebuffer.write_fragment(0, 0, depth(-2.0), vec4(1.0, 1.0, 1.0, 1.0));
    assert!(framebuffer.depth_test(0, 0, depth(-3.0)));
    assert!(!framebuffer.depth_test(0, 0, depth(-1.5)));
}

#[test]
fn depth_less_than_matches_f32_comparison() {
    let values = [
        0.0f32, -0.0, 1.0, -1.0, 0.5, -0.5, 1e-40, -1e-40, f32::INFINITY, f32::NEG_INFINITY,
        f32::NAN, f32::MAX, f32::MIN, 3.25,
    ];
    for &a in values.iter() {
        for &b in values.iter() {
            assert_eq!(depth(a).less_than(depth(b)), a < b, "{} < {}", a, b);
        }
    }
}

#[test]
fn clear_wraps_the_generation() {
    let mut framebuffer = Framebuffer::new(1, 1);
    for _ in 0..3 {
        framebuffer.clear(Color::zero());
    }
    assert_eq!(framebuffer.current_generation(), 3);
}

#[test]
fn tile_layout_of_a_wide_framebuffer() {
    let framebuffer = Framebuffer::new(200, 10);
    let tiles = framebuffer.get_tiles();
    assert_eq!(tiles.cols, 4);
    assert_eq!(tiles.rows, 1);
    assert_eq!(tiles.tiles.len(), 16);
    assert_eq!(tiles.tiles[3], Tile { x: 192, y: 0, width: 8, height: 10 });
    assert_eq!(tiles.tiles[4], Tile { x: 0, y: 0, width: 0, height: 0 });
    assert_eq!(tiles.tiles[1].max(), Point::new(128, 10));
}

#[test]
fn tile_grid_is_padded_to_a_power_of_two_square() {
    let framebuffer = Framebuffer::new(150, 10);
    let tiles = framebuffer.get_tiles();
    assert_eq!((tiles.cols, tiles.rows), (3, 1));
    assert_eq!(tiles.tiles.len(), 16);
    assert_eq!(tiles.tiles[2], Tile { x: 128, y: 0, width: 22, height: 10 });
    let single = Framebuffer::new(1, 1);
    assert_eq!(single.get_tiles().tiles.len(), 1);
    let empty = Framebuffer::new(0, 0);
    assert_eq!((empty.get_tiles().cols, empty.get_tiles().rows), (0, 0));
    assert_eq!(empty.get_tiles().tiles.len(), 1);
}

#[test]
fn draw_fragments_keeps_the_nearest_and_shades_only_those_drawn() {
    let mut framebuffer = Framebuffer::new(2, 1);
    framebuffer.write_fragment(1, 0, depth(0.3), vec4(0.0, 0.0, 0.0, 1.0));
    let frags = [
        Fragment { x: 0, y: 0, depth: depth(0.5) },
        Fragment { x: 0, y: 0, depth: depth(0.75) },
        Fragment { x: 0, y: 0, depth: depth(0.25) },
        Fragment { x: 1, y: 0, depth: depth(0.4) },
    ];
    let calls = std::cell::RefCell::new(Vec::new());
    framebuffer.draw_fragments(&frags, |k| {
        calls.borrow_mut().push(k);
        vec4(k as f32, 0.0, 0.0, 1.0)
    });
    // The second fragment is behind the first and the fourth behind what the pixel held.
    assert_eq!(*calls.borrow(), vec![0, 2]);
    assert_eq!(framebuffer.read_depth(0, 0), depth(0.25));
    assert_eq!(framebuffer.read_pixel(0, 0), vec4(2.0, 0.0, 0.0, 1.0));
    assert_eq!(framebuffer.read_depth(1, 0), depth(0.3));
}

#[test]
fn depth_test_compares_with_the_depth_read() {
    let mut framebuffer = Framebuffer::new(2, 2);
    framebuffer.write_fragment(0, 1, depth(0.5), vec4(1.0, 1.0, 1.0, 1.0));
    for &(x, y) in &[(0, 1), (1, 1)] {
        for &d in &[-1.0f32, 0.25, 0.5, 0.75, 1.0e30] {
            let nearer = d < f32::from_bits(framebuffer.read_depth(x, y).bits);
            assert_eq!(framebuffer.depth_test(x, y, depth(d)), nearer);
        }
    }
}

#[test]
fn shade_tiles_covers_every_pixel_once_per_tile() {
    let mut framebuffer = Framebuffer::new(70, 3);
    let calls = std::cell::Cell::new(0usize);
    framebuffer.shade_tiles(|(x, y)| {
        calls.set(calls.get() + 1);
        Color { r: x as u32, g: y as u32, b: 0, a: 1 }
    });
    assert_eq!(calls.get(), 70 * 3);
    assert_eq!(framebuffer.read_pixel(0, 0), Color { r: 0, g: 0, b: 0, a: 1 });
    assert_eq!(framebuffer.read_pixel(69, 2), Color { r: 69, g: 2, b: 0, a: 1 });
    assert_eq!(framebuffer.read_pixel(64, 1), Color { r: 64, g: 1, b: 0, a: 1 });
    assert_eq!(framebuffer.read_depth(33, 2), depth(1.0));
}

#[test]
fn is_visible_follows_writes_and_clears() {
    let mut framebuffer = Framebuffer::new(2, 2);
    assert!(framebuffer.is_visible(3));
    framebuffer.clear(vec4(0.0, 0.0, 0.0, 0.0));
    assert!(!framebuffer.is_visible(3));
    framebuffer.write_fragment(1, 1, depth(0.5), vec4(1.0, 0.0, 0.0, 1.0));
    assert!(framebuffer.is_visible(3));
    assert!(!framebuffer.is_visible(2));
}
