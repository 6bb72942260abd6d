use vstd::prelude::*;
use rand::Rng;
use rand::seq::IteratorRandom;
use crate::cell::GLYPH_COUNT;

verus! {

#[verifier::external_type_specification]
#[verifier::external_body]
pub struct ExThreadRng(rand::rngs::ThreadRng);

/// Relies on rand::thread_rng: a handle to the thread-local generator.
#[verifier::external_body]
pub(crate) fn fresh_rng() -> rand::rngs::ThreadRng {
    rand::thread_rng()
}

/// Relies on rand::Rng::gen_range: a uniformly random value inside the given
/// range, which must not be empty (here a constant, non-empty one).
#[verifier::external_body]
pub(crate) fn random_glyph(rng: &mut rand::rngs::ThreadRng) -> (g: usize)
    ensures
        g < GLYPH_COUNT,
{
    rng.gen_range(0..GLYPH_COUNT)
}

/// Relies on rand's IteratorRandom::choose_multiple: reservoir sampling that
/// returns `min(amount, candidates.len())` elements drawn without
/// replacement, each output slot holding a distinct input position.
#[verifier::external_body]
pub(crate) fn choose_up_to(
    rng: &mut rand::rngs::ThreadRng,
    candidates: &Vec<usize>,
    amount: usize,
) -> (r: Vec<usize>)
    requires
        candidates@.no_duplicates(),
    ensures
        r@.len() == (if amount <= candidates@.len() {
            amount as int
        } else {
            candidates@.len() as int
        }),
        forall|i: int| 0 <= i < r@.len() ==> candidates@.contains(#[trigger] r@[i]),
        r@.no_duplicates(),
{
    candidates.iter().copied().choose_multiple(rng, amount)
}

} // verus!
