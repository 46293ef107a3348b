use renderer::datatypes::{Point, Triangle};
use renderer::framebuffer::Tile;
use renderer::rasterizer::{Coverage, Rasterizer, edge_function};

fn test_triangle() -> Triangle<f32, [f32; 4]> {
    Triangle {
        position: [Point::new(0, 0), Point::new(3, 0), Point::new(0, 3)],
        depth: [0.2, 0.4, 0.6],
        data: [[1.0, 0.0, 0.0, 1.0], [0.0, 1.0, 0.0, 1.0], [0.0, 0.0, 1.0, 1.0]],
    }
}

/// Interpolates depth and payload from a covered pixel's weights the way the
/// pipeline does: each weight times the reciprocal of the doubled area.
fn interpolate(t: &Triangle<f32, [f32; 4]>, c: &Coverage) -> (f32, [f32; 4]) {
    let area = edge_function(t.position[0], t.position[1], t.position[2]);
    let inv_area = 1.0 / area as f32;
    let alpha = c.w0 as f32 * inv_area;
    let beta = c.w1 as f32 * inv_area;
    let gamma = c.w2 as f32 * inv_area;
    let depth = t.depth[0] * alpha + t.depth[1] * beta + t.depth[2] * gamma;
    let mut data = [0.0f32; 4];
    for k in 0..4 {
        data[k] = t.data[0][k] * alpha + t.data[1][k] * beta + t.data[2][k] * gamma;
    }
    (depth, data)
}

#[test]
fn rasterize_emits_fragments_inside_tile() {
    let triangle = test_triangle();
    let tile = Tile { x: 0, y: 0, width: 4, height: 4 };

    let fragments = Rasterizer::rasterize(&triangle, &tile);

    let top_left = fragments
        .iter()
        .find(|fragment| fragment.x == 0 && fragment.y == 0)
        .expect("expected the triangle corner fragment to be rasterized");

    let (depth, data) = interpolate(&triangle, top_left);
    assert_eq!(data, [1.0, 0.0, 0.0, 1.0]);
    assert!((depth - 0.2).abs() < 1e-6);
    assert!(!fragments.is_empty());
    assert!(fragments.iter().all(|fragment| {
        fragment.x >= tile.min().x
            && fragment.x <= tile.max().x - 1
            && fragment.y >= tile.min().y
            && fragment.y <= tile.max().y - 1
    }));
}

#[test]
fn rasterize_skips_tiles_that_do_not_overlap_the_triangle() {
    let triangle = test_triangle();
    let tile = Tile { x: 8, y: 8, width: 4, height: 4 };

    let fragments = Rasterizer::rasterize(&triangle, &tile);

    assert!(fragments.is_empty());
}

#[test]
fn rasterize_covers_exactly_the_triangle_in_scan_order() {
    let triangle = test_triangle();
    let tile = Tile { x: 0, y: 0, width: 4, height: 4 };
    let fragments = Rasterizer::rasterize(&triangle, &tile);
    let positions: Vec<(i32, i32)> = fragments.iter().map(|f| (f.x, f.y)).collect();
    assert_eq!(
        positions,
        vec![(0, 0), (1, 0), (2, 0), (3, 0), (0, 1), (1, 1), (2, 1), (0, 2), (1, 2), (0, 3)]
    );
    for f in fragments.iter() {
        assert_eq!(f.w0 + f.w1 + f.w2, 9);
        assert!(f.w0 >= 0 && f.w1 >= 0 && f.w2 >= 0);
    }
    assert_eq!(fragments[0], Coverage { x: 0, y: 0, w0: 9, w1: 0, w2: 0 });
    assert_eq!(fragments[3], Coverage { x: 3, y: 0, w0: 0, w1: 9, w2: 0 });
}

#[test]
fn rasterize_clips_to_the_tile() {
    let triangle = Triangle {
        position: [Point::new(0, 0), Point::new(8, 0), Point::new(0, 8)],
        depth: [(); 3],
        data: [(); 3],
    };
    let tile = Tile { x: 2, y: 2, width: 2, height: 2 };
    let fragments = Rasterizer::rasterize(&triangle, &tile);
    let positions: Vec<(i32, i32)> = fragments.iter().map(|f| (f.x, f.y)).collect();
    assert_eq!(positions, vec![(2, 2), (3, 2), (2, 3), (3, 3)]);
}

#[test]
fn rasterize_accepts_clockwise_triangles() {
    let triangle = Triangle {
        position: [Point::new(0, 0), Point::new(0, 3), Point::new(3, 0)],
        depth: [(); 3],
        data: [(); 3],
    };
    let tile = Tile { x: 0, y: 0, width: 4, height: 4 };
    let fragments = Rasterizer::rasterize(&triangle, &tile);
    assert_eq!(fragments.len(), 10);
    assert!(fragments.iter().all(|f| f.w0 <= 0 && f.w1 <= 0 && f.w2 <= 0));
}

#[test]
fn degenerate_triangle_covers_nothing() {
    let triangle = Triangle {
        position: [Point::new(0, 0), Point::new(2, 2), Point::new(4, 4)],
        depth: [(); 3],
        data: [(); 3],
    };
    let tile = Tile { x: 0, y: 0, width: 8, height: 8 };
    assert!(Rasterizer::rasterize(&triangle, &tile).is_empty());
}

#[test]
fn edge_function_is_twice_the_signed_area() {
    assert_eq!(edge_function(Point::new(0, 0), Point::new(4, 0), Point::new(0, 3)), 12);
    assert_eq!(edge_function(Point::new(0, 0), Point::new(0, 3), Point::new(4, 0)), -12);
    assert_eq!(edge_function(Point::new(1, 1), Point::new(2, 2), Point::new(3, 3)), 0);
}

fn positions(tile: Tile) -> Vec<(i32, i32)> {
    Rasterizer::rasterize(&test_triangle(), &tile).iter().map(|f| (f.x, f.y)).collect()
}

#[test]
fn rasterize_stays_inside_a_small_tile() {
    let p = positions(Tile { x: 0, y: 0, width: 2, height: 2 });
    assert_eq!(p, vec![(0, 0), (1, 0), (0, 1), (1, 1)]);
}

#[test]
fn splitting_a_tile_splits_its_fragments() {
    let left = positions(Tile { x: 0, y: 0, width: 2, height: 4 });
    let right = positions(Tile { x: 2, y: 0, width: 2, height: 4 });
    let whole = positions(Tile { x: 0, y: 0, width: 4, height: 4 });
    assert!(left.iter().all(|p| !right.contains(p)));
    let mut joined: Vec<(i32, i32)> = left.iter().chain(right.iter()).cloned().collect();
    joined.sort_by_key(|&(x, y)| (y, x));
    assert_eq!(joined, whole);
    assert_eq!(whole.len(), 10);
}

#[test]
fn overflow_check_matches_the_32_bit_range() {
    let tile = Tile { x: 0, y: 0, width: 4, height: 4 };
    assert!(Rasterizer::fits(&test_triangle(), &tile));
    let big = Triangle {
        position: [Point::new(0, 0), Point::new(15000, 0), Point::new(0, 15000)],
        depth: [0.0f32; 3],
        data: [0u8; 3],
    };
    // Beyond the earlier coordinate limit but within 32-bit edge arithmetic.
    assert!(Rasterizer::fits(&big, &Tile { x: 14990, y: 0, width: 8, height: 8 }));
    let huge = Triangle {
        position: [Point::new(-40000, 0), Point::new(40000, 0), Point::new(0, 40000)],
        depth: [0.0f32; 3],
        data: [0u8; 3],
    };
    assert!(!Rasterizer::fits(&huge, &tile));
    let far_tile = Tile { x: i32::MAX - 1, y: 0, width: 4, height: 4 };
    assert!(!Rasterizer::fits(&test_triangle(), &far_tile));
}

#[test]
fn winding_order_does_not_change_coverage() {
    let ccw = test_triangle();
    let mut cw = test_triangle();
    cw.position.swap(0, 1);
    cw.depth.swap(0, 1);
    cw.data.swap(0, 1);
    for tile in [Tile { x: 0, y: 0, width: 4, height: 4 }, Tile { x: 1, y: 1, width: 2, height: 2 }] {
        let a: Vec<(i32, i32)> = Rasterizer::rasterize(&ccw, &tile).iter().map(|f| (f.x, f.y)).collect();
        let b: Vec<(i32, i32)> = Rasterizer::rasterize(&cw, &tile).iter().map(|f| (f.x, f.y)).collect();
        assert_eq!(a, b);
    }
}
