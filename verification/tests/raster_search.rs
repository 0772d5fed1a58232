use fractalz::raster::GrayRaster;
use fractalz::search::{find_point, PixelTest};
use fractalz::selector::find_target_point;
use rand::SeedableRng;

fn raster(width: u32, height: u32, data: Vec<u8>) -> GrayRaster {
    GrayRaster::from_raw(width, height, data).unwrap()
}

#[test]
fn from_raw_checks_length() {
    assert!(GrayRaster::from_raw(2, 2, vec![0, 0, 0, 0]).is_some());
    assert!(GrayRaster::from_raw(2, 2, vec![0, 0, 0]).is_none());
}

#[test]
fn get_reads_row_major() {
    let g = raster(3, 2, vec![1, 2, 3, 4, 5, 6]);
    assert_eq!(g.get(0, 0), 1);
    assert_eq!(g.get(2, 0), 3);
    assert_eq!(g.get(0, 1), 4);
    assert_eq!(g.get(2, 1), 6);
}

#[test]
fn new_filled_is_flat() {
    let g = GrayRaster::new_filled(4, 3, 7);
    for y in 0..3 {
        for x in 0..4 {
            assert_eq!(g.get(x, y), 7);
        }
    }
}

#[test]
fn edges_of_flat_raster_are_zero() {
    let g = GrayRaster::new_filled(5, 4, 200);
    let e = g.edges();
    for y in 0..4 {
        for x in 0..5 {
            assert_eq!(e.get(x, y), 0);
        }
    }
}

#[test]
fn edges_of_corner_step() {
    let g = raster(3, 3, vec![0, 0, 0, 0, 0, 0, 0, 0, 90]);
    let e = g.edges();
    assert_eq!(e.get(1, 1), 0);
    assert_eq!(e.get(2, 2), 180);
    assert_eq!(e.get(1, 2), 90);
    assert_eq!(e.get(2, 1), 90);
}

#[test]
fn edges_cap_at_full_intensity() {
    // at (0, 0) both the horizontal and the vertical difference are 255,
    // so the sum 510 is capped at 255.
    let g = raster(2, 2, vec![0, 255, 255, 0]);
    let e = g.edges();
    assert_eq!(e.get(0, 0), 255);
    assert_eq!(e.get(1, 1), 255);
}

#[test]
fn find_point_returns_matching_start() {
    let g = GrayRaster::new_filled(4, 4, 10);
    assert_eq!(find_point((2, 3), &g, PixelTest::AtMost(128)), Some((2, 3)));
}

#[test]
fn find_point_finds_nearest_match() {
    let g = raster(5, 1, vec![200, 200, 0, 200, 100]);
    // breadth-first from the left end: the dark pixel at x = 2 is closer
    // than the one at x = 4.
    assert_eq!(find_point((0, 0), &g, PixelTest::AtMost(128)), Some((2, 0)));
}

#[test]
fn find_point_reports_no_match() {
    let g = GrayRaster::new_filled(6, 5, 200);
    assert_eq!(find_point((3, 2), &g, PixelTest::AtMost(128)), None);
}

#[test]
fn selector_rejects_flat_view() {
    // every pixel is dark, but a flat view has no edge to aim at.
    let mut rng = rand::rngs::StdRng::seed_from_u64(7);
    let gray = GrayRaster::new_filled(10, 10, 0);
    let blurred = GrayRaster::new_filled(10, 10, 0);
    assert_eq!(find_target_point(&mut rng, &gray, &blurred), None);
}

#[test]
fn selector_rejects_bright_view() {
    // no blurred pixel is dark, so there is nothing to dive toward.
    let mut rng = rand::rngs::StdRng::seed_from_u64(7);
    let mut data = Vec::new();
    for i in 0..100u32 {
        data.push(if i % 2 == 0 { 200 } else { 255 });
    }
    let gray = raster(10, 10, data.clone());
    let blurred = raster(10, 10, data);
    assert_eq!(find_target_point(&mut rng, &gray, &blurred), None);
}

#[test]
fn selector_finds_edge_target() {
    // left half dark, right half bright: the boundary is a strong edge.
    let mut data = Vec::new();
    for _y in 0..8u32 {
        for x in 0..8u32 {
            data.push(if x < 4 { 0 } else { 255 });
        }
    }
    let gray = raster(8, 8, data.clone());
    let blurred = raster(8, 8, data);
    let mut rng = rand::rngs::StdRng::seed_from_u64(3);
    let target = find_target_point(&mut rng, &gray, &blurred);
    let (tx, ty) = target.expect("a view with dark pixels and edges has a target");
    let e = gray.edges();
    assert!(e.get(tx, ty) >= 128);
}

#[test]
fn selector_is_deterministic_for_a_seed() {
    let mut data = Vec::new();
    for _y in 0..8u32 {
        for x in 0..8u32 {
            data.push(if x < 4 { 0 } else { 255 });
        }
    }
    let gray = raster(8, 8, data.clone());
    let blurred = raster(8, 8, data);
    let mut rng_a = rand::rngs::StdRng::seed_from_u64(99);
    let mut rng_b = rand::rngs::StdRng::seed_from_u64(99);
    let a = find_target_point(&mut rng_a, &gray, &blurred);
    let b = find_target_point(&mut rng_b, &gray, &blurred);
    assert_eq!(a, b);
}
