use vstd::prelude::*;
use rltk::RandomNumberGenerator;

verus! {

#[verifier::external_type_specification]
#[verifier::external_body]
pub struct ExRandomNumberGenerator(RandomNumberGenerator);

/// Relies on `RandomNumberGenerator::new`: a generator seeded from the system.
#[verifier::external_body]
pub(crate) fn fresh_rng() -> RandomNumberGenerator {
    RandomNumberGenerator::new()
}

/// Relies on `RandomNumberGenerator::range`: a uniform draw from `min..max`,
/// which panics on an empty range.
#[verifier::external_body]
pub(crate) fn draw_range(rng: &mut RandomNumberGenerator, min: i32, max: i32) -> (r: i32)
    requires
        min < max,
    ensures
        min <= r < max,
{
    rng.range(min, max)
}

/// Relies on `RandomNumberGenerator::roll_dice` with one die: a draw from
/// `1..=die_type`, made as `range(1, die_type + 1)`.
#[verifier::external_body]
pub(crate) fn roll_one_die(rng: &mut RandomNumberGenerator, die_type: i32) -> (r: i32)
    requires
        1 <= die_type < i32::MAX,
    ensures
        1 <= r <= die_type,
{
    rng.roll_dice(1, die_type)
}

} // verus!
