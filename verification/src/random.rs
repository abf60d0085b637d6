//! The random number generator of the `rand` crate, and the few things the
//! game asks of it. Nothing is claimed of the values a generator produces
//! beyond what holds of every outcome.
use rand::rngs::StdRng;
use rand::seq::SliceRandom;
use rand::{RngExt, SeedableRng};
use std::cell::RefCell;
use vstd::prelude::*;

verus! {

#[verifier::external_type_specification]
#[verifier::external_body]
pub struct ExStdRng(StdRng);

#[verifier::external_type_specification]
#[verifier::external_body]
#[verifier::reject_recursive_types(T)]
pub struct ExRefCell<T: ?Sized>(RefCell<T>);

/// `SeedableRng::seed_from_u64` for `StdRng`: a generator whose stream is
/// determined by `seed`. Nothing is stated of that stream.
#[verifier::external_body]
pub(crate) fn seeded_rng(seed: u64) -> StdRng {
    StdRng::seed_from_u64(seed)
}

/// `SeedableRng::from_rng` for `StdRng`, seeded from `rand::rng()` (the
/// thread-local generator, itself seeded by the operating system). Nothing is
/// stated of the result.
#[verifier::external_body]
pub(crate) fn fresh_rng() -> StdRng {
    StdRng::from_rng(&mut rand::rng())
}

/// `SliceRandom::shuffle`: rearranges the cards in an order that the
/// generator picks. Stated: the same cards remain, each as often as before.
#[verifier::external_body]
pub(crate) fn shuffle_cards(cards: &mut Vec<u8>, rng: &mut StdRng)
    ensures
        final(cards)@.to_multiset() == old(cards)@.to_multiset(),
{
    cards.shuffle(rng)
}

/// The order in which `SliceRandom::shuffle` leaves `cards` when it draws from
/// a `StdRng` seeded with `StdRng::seed_from_u64(seed)`. Both are fixed
/// algorithms of the `rand` version in use (a ChaCha generator seeded through
/// a PCG stream, and a Fisher-Yates shuffle), so the order depends on the
/// cards and the seed alone.
pub uninterp spec fn seeded_shuffle(cards: Seq<u8>, seed: u64) -> Seq<u8>;

/// `SliceRandom::shuffle` with a generator made by `StdRng::seed_from_u64`.
/// Stated: the same cards remain, each as often as before, and their order is
/// the one named by `seeded_shuffle` for these cards and this seed.
#[verifier::external_body]
pub(crate) fn shuffle_seeded(cards: &mut Vec<u8>, seed: u64)
    ensures
        final(cards)@ == seeded_shuffle(old(cards)@, seed),
        final(cards)@.to_multiset() == old(cards)@.to_multiset(),
{
    cards.shuffle(&mut StdRng::seed_from_u64(seed))
}

/// `RefCell::new`: a cell holding the generator.
#[verifier::external_body]
pub(crate) fn rng_cell(rng: StdRng) -> RefCell<StdRng> {
    RefCell::new(rng)
}

/// `RngExt::random_range` over `0..bound`, on the generator held by the cell
/// (borrowed mutably for the call). The range must not be empty, since the
/// crate panics on an empty range. Stated: the value lies in the range; which
/// value is left to the generator.
#[verifier::external_body]
pub(crate) fn random_below(rng: &RefCell<StdRng>, bound: usize) -> (r: usize)
    requires
        bound > 0,
    ensures
        r < bound,
{
    rng.borrow_mut().random_range(0..bound)
}

} // verus!
