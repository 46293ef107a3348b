use renderer::datatypes::{Point, Triangle};
use renderer::forward_pipeline::PipelineForward;
use renderer::framebuffer::{Framebuffer, Tile};
use renderer::renderer::morton;

fn tri(a: (i32, i32), b: (i32, i32), c: (i32, i32)) -> Triangle<(), ()> {
    Triangle {
        position: [Point::new(a.0, a.1), Point::new(b.0, b.1), Point::new(c.0, c.1)],
        depth: [(); 3],
        data: [(); 3],
    }
}

#[test]
fn morton_interleaves_bits() {
    assert_eq!(morton(0, 0), 0);
    assert_eq!(morton(1, 0), 1);
    assert_eq!(morton(0, 1), 2);
    assert_eq!(morton(3, 3), 15);
    assert_eq!(morton(0b101, 0b010), 0b011001);
    assert_eq!(morton(0xffff, 0), 0x5555_5555);
    assert_eq!(morton(0, 0xffff), 0xaaaa_aaaa);
    assert_eq!(morton(64, 128), 0x1000 | 0x8000);
}

#[test]
fn furthest_point_follows_the_normal() {
    let lo = Point::new(0, 10);
    let hi = Point::new(64, 74);
    assert_eq!(PipelineForward::furthest_point(lo, hi, 1, 1), Point::new(64, 74));
    assert_eq!(PipelineForward::furthest_point(lo, hi, -1, 0), Point::new(0, 74));
    assert_eq!(PipelineForward::furthest_point(lo, hi, 0, -5), Point::new(64, 10));
}

#[test]
fn double_signed_area_matches_the_edge_function() {
    assert_eq!(PipelineForward::double_signed_triangle_area(0, 0, 4, 0, 0, 3), 12);
    assert_eq!(PipelineForward::double_signed_triangle_area(0, 0, 0, 3, 4, 0), -12);
}

#[test]
fn check_triangle_lists_the_tiles_under_the_triangle() {
    let fb = Framebuffer::new(256, 128);
    let tiles = fb.get_tiles();
    assert_eq!((tiles.cols, tiles.rows), (4, 2));
    // A small triangle inside tile (1, 0).
    let small = tri((70, 5), (90, 5), (70, 20));
    assert_eq!(PipelineForward::check_triangle(&small, tiles.rows, tiles.cols, &tiles.tiles), vec![1]);
    // A large triangle over the whole top-left: the tile right of the
    // hypotenuse's far end is skipped.
    let large = tri((0, 0), (200, 0), (0, 120));
    let hits = PipelineForward::check_triangle(&large, tiles.rows, tiles.cols, &tiles.tiles);
    assert_eq!(hits, vec![0, 1, 2, 3, 4, 5]);
    // Facing away: not binned.
    let back = tri((70, 5), (70, 20), (90, 5));
    assert!(PipelineForward::check_triangle(&back, tiles.rows, tiles.cols, &tiles.tiles).is_empty());
}

#[test]
fn bin_triangles_groups_triangles_by_tile_in_morton_order() {
    let fb = Framebuffer::new(128, 128);
    let tiles = fb.get_tiles();
    let triangles = vec![
        tri((70, 70), (90, 70), (70, 90)),
        tri((5, 5), (20, 5), (5, 20)),
        tri((5, 70), (20, 70), (5, 90)),
        tri((10, 10), (30, 10), (10, 30)),
        tri((70, 5), (90, 5), (70, 20)),
    ];
    let bins = PipelineForward::bin_triangles(tiles, &triangles);
    let summary: Vec<(i32, i32, Vec<usize>, u32)> =
        bins.iter().map(|b| (b.tile.x, b.tile.y, b.indices.clone(), b.morton_key)).collect();
    assert_eq!(
        summary,
        vec![
            (0, 0, vec![1, 3], morton(0, 0)),
            (64, 0, vec![4], morton(64, 0)),
            (0, 64, vec![2], morton(0, 64)),
            (64, 64, vec![0], morton(64, 64)),
        ]
    );
}

#[test]
fn binning_keeps_every_covered_pixel() {
    let fb = Framebuffer::new(256, 192);
    let tiles = fb.get_tiles();
    let t = tri((10, 20), (230, 60), (40, 180));
    let hits = PipelineForward::check_triangle(&t, tiles.rows, tiles.cols, &tiles.tiles);
    let whole = Tile { x: 0, y: 0, width: 255, height: 191 };
    for c in renderer::rasterizer::Rasterizer::rasterize(&t, &whole) {
        let slot = (c.y as usize / 64) * tiles.cols + c.x as usize / 64;
        assert!(hits.contains(&slot), "pixel ({}, {}) lost", c.x, c.y);
    }
}

#[test]
fn bins_follow_morton_order_not_row_order() {
    let fb = Framebuffer::new(256, 128);
    let tiles = fb.get_tiles();
    let triangles = vec![
        tri((130, 5), (150, 5), (130, 20)),
        tri((5, 70), (20, 70), (5, 90)),
    ];
    let bins = PipelineForward::bin_triangles(tiles, &triangles);
    let order: Vec<(i32, i32)> = bins.iter().map(|b| (b.tile.x, b.tile.y)).collect();
    assert_eq!(order, vec![(0, 64), (128, 0)]);
    assert_eq!(bins[0].indices, vec![1]);
    assert_eq!(bins[1].indices, vec![0]);
    assert!(bins[0].morton_key < bins[1].morton_key);
}

#[test]
fn binnable_accepts_frames_past_the_old_coordinate_limit() {
    let fb = Framebuffer::new(9000, 64);
    let tiles = fb.get_tiles();
    let tris = vec![tri((8990, 10), (8999, 10), (8990, 20))];
    assert!(PipelineForward::binnable(tiles, &tris));
    let bins = PipelineForward::bin_triangles(tiles, &tris);
    assert_eq!(bins.len(), 1);
    assert_eq!(bins[0].tile.x, 8960);
    assert_eq!(bins[0].indices, vec![0]);
    let overflowing = vec![tri((-2_000_000_000, 0), (2_000_000_000, 0), (0, 2_000_000_000))];
    assert!(!PipelineForward::binnable(tiles, &overflowing));
}

#[test]
fn morton_codes_follow_both_coordinates_and_are_distinct() {
    let mut seen = std::collections::HashSet::new();
    for x in 0..16u32 {
        for y in 0..16u32 {
            assert!(seen.insert(morton(x, y)));
            assert!(morton(x, y) <= morton(x + 1, y));
            assert!(morton(x, y) <= morton(x, y + 1));
        }
    }
    assert!(morton(65535, 65535) == u32::MAX);
}
