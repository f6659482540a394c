use vstd::prelude::*;
use rand::seq::SliceRandom;
use rltk::RandomNumberGenerator;
use crate::dir::Dir;

verus! {

/// rltk's random number generator, carried through the generators as an
/// opaque value.
#[verifier::external_type_specification]
#[verifier::external_body]
pub struct ExRandomNumberGenerator(RandomNumberGenerator);

/// Relies on rltk's `RandomNumberGenerator::new`: a generator seeded from
/// system entropy (or the clock). Nothing is known of what it will draw.
#[verifier::external_body]
pub(crate) fn fresh_rng() -> RandomNumberGenerator {
    RandomNumberGenerator::new()
}

/// Relies on rltk's `RandomNumberGenerator::range`, which draws with rand's
/// `gen_range(min..max)`: a value in `[min, max)`; an empty range panics.
#[verifier::external_body]
pub(crate) fn range_i32(rng: &mut RandomNumberGenerator, min: i32, max: i32) -> (r: i32)
    requires
        min < max,
    ensures
        min <= r < max,
{
    rng.range(min, max)
}

/// Relies on rand's `SliceRandom::shuffle`, fed by the generator's own rng
/// (`get_rng`): the same directions, each as often, in some order.
#[verifier::external_body]
pub(crate) fn shuffle_dirs(rng: &mut RandomNumberGenerator, dirs: &mut Vec<Dir>)
    ensures
        final(dirs)@.to_multiset() == old(dirs)@.to_multiset(),
{
    dirs.shuffle(rng.get_rng());
}

/// Relies on rand's `SliceRandom::choose`, fed by the generator's own rng
/// (`get_rng`): nothing for an empty slice, else one of its elements.
#[verifier::external_body]
pub(crate) fn choose_dir(rng: &mut RandomNumberGenerator, dirs: &Vec<Dir>) -> (r: Option<Dir>)
    ensures
        r is None <==> dirs@.len() == 0,
        r matches Some(d) ==> dirs@.contains(d),
{
    dirs.choose(rng.get_rng()).copied()
}

} // verus!
