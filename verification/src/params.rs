//! Generation parameters and the grouped seeds of the random streams.

use vstd::prelude::*;
use rand_xoshiro::Xoshiro256PlusPlus;
use crate::random::{seeded_generator, seeded_rng};

verus! {

/// The grouped seeds of the game's independent random streams.
#[derive(Clone, Copy, Debug, PartialEq, Eq, Structural)]
pub struct Seeds {
    /// Collision resolution.
    pub collision: u64,
    /// Track generation.
    pub generation: u64,
    /// AI learning.
    pub ai_learning: u64,
    /// AI inference.
    pub ai_inference: u64,
}

impl Default for Seeds {
    fn default() -> (r: Self)
        ensures
            r.collision == 0 && r.generation == 0 && r.ai_learning == 0 && r.ai_inference == 0,
    {
        Seeds { collision: 0, generation: 0, ai_learning: 0, ai_inference: 0 }
    }
}

impl Seeds {
    /// The generation stream: a generator seeded from `generation` alone.
    pub fn generation_rng(&self) -> (r: Xoshiro256PlusPlus)
        ensures
            r == seeded_generator(self.generation),
    {
        seeded_rng(self.generation)
    }
}

/// Generation parameters.
#[derive(Clone, Copy, Debug)]
pub struct GenParams {
    /// `m` — number of cars. Drives the width floor and the start/finish
    /// width.
    pub cars: u32,
    /// `L_min` — minimum straight length before a corner.
    pub min_straight: i32,
    /// `V` — oracle speed ceiling.
    pub v_ceiling: i32,
    /// `k` — coarse-block size, the nominal corridor width.
    pub block_size: i32,
    /// The grouped seeds; `seeds.generation` feeds the generation stream.
    pub seeds: Seeds,
}

impl GenParams {
    /// Global minimum width `n = ⌈m/2⌉`.
    pub fn min_width(&self) -> (r: u32)
        ensures
            r == (self.cars + 1) / 2,
    {
        self.cars / 2 + self.cars % 2
    }

    /// Start/finish width floor `m` — cars start abreast across the
    /// corridor.
    pub fn start_finish_width(&self) -> (r: u32)
        ensures
            r == self.cars,
    {
        self.cars
    }

    /// The replay-deterministic generation stream, seeded from
    /// `seeds.generation` alone — the pipeline's single generation random
    /// path.
    pub fn generation_rng(&self) -> (r: Xoshiro256PlusPlus)
        ensures
            r == seeded_generator(self.seeds.generation),
    {
        self.seeds.generation_rng()
    }
}

/// Every car fits abreast in two lanes of the width floor: `2n ≥ m`, and
/// `n` is the least such width.
pub proof fn lemma_min_width_seats_cars(cars: u32)
    ensures
        2 * ((cars + 1) / 2) >= cars,
        cars > 0 ==> 2 * ((cars + 1) / 2 - 1) < cars,
{
}

} // verus!
