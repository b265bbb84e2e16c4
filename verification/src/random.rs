//! The source of randomness: `rand`'s standard generator and its uniform sampler of
//! integers.
//!
//! Nothing is claimed about which number a draw returns, only the range it lies in.
use rand::distributions::uniform::UniformInt;
use rand::distributions::uniform::UniformSampler;
use rand::rngs::StdRng;
use rand::Rng;
use rand::SeedableRng;
use vstd::prelude::*;

verus! {

/// `rand::rngs::StdRng`, made known to the verifier as an opaque type.
#[verifier::external_type_specification]
#[verifier::external_body]
pub struct ExStdRng(StdRng);

/// `rand::distributions::uniform::UniformInt`, the sampler behind `rand`'s uniform
/// distribution of integers, made known to the verifier as an opaque type. A sampler is
/// prepared once for a range, so that many numbers can be drawn from it.
#[verifier::external_type_specification]
#[verifier::external_body]
#[verifier::reject_recursive_types(X)]
pub struct ExUniformInt<X>(UniformInt<X>);

/// The exclusive upper end of the range that a sampler over `[0, end)` was made with.
pub uninterp spec fn range_end(d: UniformInt<usize>) -> usize;

/// Calls `UniformSampler::new` of `UniformInt<usize>` for the range `[0, end)`. Claims that
/// the sampler remembers `end` as its upper end. An empty range is left out, since the
/// call panics on it.
#[verifier::external_body]
pub(crate) fn uniform_below(end: usize) -> (d: UniformInt<usize>)
    requires
        end > 0,
    ensures
        range_end(d) == end,
{
    UniformInt::<usize>::new(0usize, end)
}

/// Calls `UniformSampler::sample` of `UniformInt<usize>`. Claims only that the number
/// drawn lies below the upper end of the sampler's range.
#[verifier::external_body]
pub(crate) fn sample(d: &UniformInt<usize>, rng: &mut StdRng) -> (i: usize)
    ensures
        i < range_end(*d),
{
    d.sample(rng)
}

/// Calls `Rng::gen_range` on the range `0..end`. Claims only that the number drawn lies
/// below `end`. An empty range is left out, since the call panics on it.
#[verifier::external_body]
pub(crate) fn pick_below(rng: &mut StdRng, end: usize) -> (i: usize)
    requires
        end > 0,
    ensures
        i < end,
{
    rng.gen_range(0..end)
}

/// Calls `SeedableRng::from_entropy` for a generator seeded by the operating system.
/// Nothing is claimed of the generator.
#[verifier::external_body]
pub(crate) fn entropy_rng() -> StdRng {
    StdRng::from_entropy()
}

} // verus!
