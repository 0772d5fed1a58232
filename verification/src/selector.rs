use vstd::prelude::*;

use crate::raster::GrayRaster;
use crate::rng::random_point;
use crate::search::{find_point, no_pixel_matches, PixelTest};

verus! {

/// Half of the maximal luminance: the bound under which a blurred pixel
/// counts as dark, and over which an edge pixel counts as strong.
pub const DARKNESS_THRESHOLD: u8 = 128;

/// Some blurred pixel is dark enough to dive toward.
pub open spec fn has_dark_pixel(blurred: GrayRaster) -> bool {
    exists|x: int, y: int|
        blurred.in_bounds(x, y) && #[trigger] blurred.pix(x, y) <= DARKNESS_THRESHOLD
}

/// Some pixel of the rendering sits on a strong edge.
pub open spec fn has_strong_edge(grayscaled: GrayRaster) -> bool {
    exists|x: int, y: int|
        grayscaled.in_bounds(x, y) && #[trigger] grayscaled.edge_at(x, y) >= DARKNESS_THRESHOLD
}

/// On a uniformly flat rendering there is no strong edge, so the
/// selector reports no target however dark the view is and wherever the
/// random walk starts.
pub proof fn lemma_flat_view_has_no_target(grayscaled: GrayRaster, v: u8)
    requires
        grayscaled.wf(),
        forall|x: int, y: int|
            grayscaled.in_bounds(x, y) ==> #[trigger] grayscaled.pix(x, y) == v,
    ensures
        !has_strong_edge(grayscaled),
{
    grayscaled.lemma_flat_raster_has_no_edges(v);
    assert forall|x: int, y: int| grayscaled.in_bounds(x, y) implies #[trigger] grayscaled.edge_at(
        x,
        y,
    ) < DARKNESS_THRESHOLD by {
        assert(grayscaled.edge_at(x, y) == 0);
    }
}

/// Find a good target point that will not be a black area:
///   - walk from a random pixel to the nearest dark pixel of the blurred
///     rendering (a region inside the set),
///   - then walk from there to the nearest strong edge of the unblurred
///     rendering (the visually rich boundary).
/// A target comes back exactly when the view has both a dark region and
/// a strong edge; the target itself always sits on a strong edge.
pub fn find_target_point(
    rng: &mut rand::rngs::StdRng,
    grayscaled: &GrayRaster,
    blurred: &GrayRaster,
) -> (r: Option<(u32, u32)>)
    requires
        grayscaled.wf(),
        blurred.wf(),
        blurred.width == grayscaled.width,
        blurred.height == grayscaled.height,
        grayscaled.width > 0,
        grayscaled.height > 0,
    ensures
        r.is_some() <==> has_dark_pixel(*blurred) && has_strong_edge(*grayscaled),
        match r {
            Some(p) => grayscaled.in_bounds(p.0 as int, p.1 as int) && grayscaled.edge_at(
                p.0 as int,
                p.1 as int,
            ) >= DARKNESS_THRESHOLD,
            None => true,
        },
{
    let start = random_point(rng, blurred.width, blurred.height);
    let black_point = find_point(start, blurred, PixelTest::AtMost(DARKNESS_THRESHOLD));
    match black_point {
        None => {
            proof {
                assert(!has_dark_pixel(*blurred));
            }
            None
        },
        Some(bp) => {
            let edged = grayscaled.edges();
            let target = find_point(bp, &edged, PixelTest::AtLeast(DARKNESS_THRESHOLD));
            proof {
                assert(has_dark_pixel(*blurred));
            }
            match target {
                None => {
                    proof {
                        assert forall|x: int, y: int|
                            grayscaled.in_bounds(x, y) implies #[trigger] grayscaled.edge_at(x, y)
                            < DARKNESS_THRESHOLD by {
                            assert(edged.in_bounds(x, y));
                            assert(!PixelTest::AtLeast(DARKNESS_THRESHOLD).holds(edged.pix(x, y)));
                        }
                        assert(!has_strong_edge(*grayscaled));
                    }
                    None
                },
                Some(p) => {
                    proof {
                        assert(grayscaled.edge_at(p.0 as int, p.1 as int) >= DARKNESS_THRESHOLD);
                        assert(has_strong_edge(*grayscaled));
                    }
                    Some(p)
                },
            }
        },
    }
}

} // verus!
