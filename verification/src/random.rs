//! The generator's random draws: a seeded Xoshiro256++ stream and the few
//! ways the pipeline samples from it.

use vstd::prelude::*;
use rand::seq::IteratorRandom;
use rand::{RngExt, SeedableRng};
use rand_xoshiro::Xoshiro256PlusPlus;
use crate::geom::RaceDir;

verus! {

/// The generator state, carried through the pipeline by reference.
#[verifier::external_type_specification]
#[verifier::external_body]
pub struct ExXoshiro256PlusPlus(Xoshiro256PlusPlus);

/// The generator `SeedableRng::seed_from_u64` builds from `seed`:
/// `Xoshiro256PlusPlus` expands the seed into its state by SplitMix64, a
/// fixed function of the seed alone.
pub uninterp spec fn seeded_generator(seed: u64) -> Xoshiro256PlusPlus;

/// `SeedableRng::seed_from_u64` for `Xoshiro256PlusPlus`: the state expanded
/// from `seed` by SplitMix64, so equal seeds give equal generators. The
/// state itself is opaque here.
#[verifier::external_body]
pub(crate) fn seeded_rng(seed: u64) -> (r: Xoshiro256PlusPlus)
    ensures
        r == seeded_generator(seed),
{
    Xoshiro256PlusPlus::seed_from_u64(seed)
}

/// What `RngExt::random_range(0..=hi)` does to generator state `g`: the
/// value drawn and the state after the draw. Both follow from the state and
/// the bound alone: the sampler reads the xoshiro256++ outputs, which are a
/// fixed function of the state.
pub uninterp spec fn upto_draw(g: Xoshiro256PlusPlus, hi: u32) -> (u32, Xoshiro256PlusPlus);

/// `RngExt::random_range` over `0..=hi`: a draw of at most `hi`, and the
/// generator advanced past it, both as [`upto_draw`] names them.
#[verifier::external_body]
pub(crate) fn random_upto(rng: &mut Xoshiro256PlusPlus, hi: u32) -> (r: u32)
    ensures
        r <= hi,
        (r, *final(rng)) == upto_draw(*old(rng), hi),
{
    rng.random_range(0..=hi)
}

/// A draw below `n`, the draw of `0..n`: rand samples a half-open integer
/// range as the inclusive one that ends one below, so this is the draw of
/// `0..=n - 1`.
pub fn random_below(rng: &mut Xoshiro256PlusPlus, n: u32) -> (r: u32)
    requires
        n > 0,
    ensures
        r < n,
        (r, *final(rng)) == upto_draw(*old(rng), (n - 1) as u32),
{
    random_upto(rng, n - 1)
}

/// What `IteratorRandom::choose` over the directions `dirs` does to
/// generator state `g`: the direction chosen and the state after the draw,
/// a fixed function of the list and the state.
pub uninterp spec fn race_dir_draw(dirs: Seq<RaceDir>, g: Xoshiro256PlusPlus) -> (Option<RaceDir>, Xoshiro256PlusPlus);

/// `IteratorRandom::choose` over the directions in `dirs`: for an iterator
/// of known length it returns `None` when the length is zero and otherwise
/// the element at an index drawn below it, so a listed direction comes
/// back exactly when the list is not empty; which one, and the state after,
/// are as [`race_dir_draw`] names them.
#[verifier::external_body]
pub(crate) fn choose_race_dir(dirs: &[RaceDir], rng: &mut Xoshiro256PlusPlus) -> (r: Option<RaceDir>)
    ensures
        r is Some <==> dirs@.len() > 0,
        r matches Some(dir) ==> dirs@.contains(dir),
        (r, *final(rng)) == race_dir_draw(dirs@, *old(rng)),
{
    dirs.iter().copied().choose(rng)
}

} // verus!
