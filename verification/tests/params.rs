use gp_track::params::{GenParams, Seeds};
use rand::Rng;
use rand_xoshiro::Xoshiro256PlusPlus;

fn params(seed: u64) -> GenParams {
    GenParams {
        cars: 4,
        min_straight: 3,
        v_ceiling: 5,
        block_size: 6,
        seeds: Seeds { generation: seed, ..Default::default() },
    }
}

fn draws(mut rng: Xoshiro256PlusPlus) -> Vec<u64> {
    (0..8).map(|_| rng.next_u64()).collect()
}

#[test]
fn rng_same_seed_yields_identical_stream() {
    assert_eq!(draws(params(42).generation_rng()), draws(params(42).generation_rng()));
}

#[test]
fn rng_different_seed_yields_different_stream() {
    assert_ne!(draws(params(1).generation_rng()), draws(params(2).generation_rng()));
}

#[test]
fn generation_rng_is_the_sole_generation_path() {
    let a = GenParams {
        cars: 4,
        min_straight: 3,
        v_ceiling: 5,
        block_size: 6,
        seeds: Seeds { collision: 1, generation: 42, ai_learning: 2, ai_inference: 3 },
    };
    let b = GenParams {
        cars: 4,
        min_straight: 3,
        v_ceiling: 5,
        block_size: 6,
        seeds: Seeds { collision: 99, generation: 42, ai_learning: 98, ai_inference: 97 },
    };
    assert_eq!(draws(a.generation_rng()), draws(b.generation_rng()));
}

#[test]
fn min_width_is_half_the_cars_rounded_up() {
    assert_eq!(params(0).min_width(), 2);
    let mut p = params(0);
    p.cars = 5;
    assert_eq!(p.min_width(), 3);
    p.cars = u32::MAX;
    assert_eq!(p.min_width(), 2_147_483_648);
    assert_eq!(p.start_finish_width(), u32::MAX);
}
