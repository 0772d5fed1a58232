use vstd::prelude::*;
use rand::Rng;

verus! {

/// rand's standard seeded generator, opaque to the verifier; the dive
/// draws its random choices from it through the wrapper below.
#[verifier::external_type_specification]
#[verifier::external_body]
pub struct ExStdRng(rand::rngs::StdRng);

/// Relies on rand's `Rng::gen_range` over `lo..hi`: it returns a value
/// of that half-open range, and panics only when the range is empty,
/// which the precondition rules out.
#[verifier::external_body]
pub(crate) fn gen_range_u32(rng: &mut rand::rngs::StdRng, lo: u32, hi: u32) -> (r: u32)
    requires
        lo < hi,
    ensures
        lo <= r < hi,
{
    rng.gen_range(lo..hi)
}

/// A random pixel inside a `width` by `height` screen.
pub fn random_point(rng: &mut rand::rngs::StdRng, width: u32, height: u32) -> (r: (u32, u32))
    requires
        width > 0,
        height > 0,
    ensures
        r.0 < width,
        r.1 < height,
{
    let x = gen_range_u32(rng, 0, width);
    let y = gen_range_u32(rng, 0, height);
    (x, y)
}

} // verus!
