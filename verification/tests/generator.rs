use golden_core::generator::Generator;
use rand::seq::SliceRandom;
use rand::Rng;
use rand::SeedableRng;
use rand_chacha::ChaCha8Rng;

fn stream(seed: u32) -> ChaCha8Rng {
    let mut key = [0u8; 32];
    key[0..4].copy_from_slice(&seed.to_le_bytes());
    ChaCha8Rng::from_seed(key)
}

#[test]
fn draws_are_those_of_one_stream() {
    for seed in [0u32, 1, 255, 256, 65536, 0x0102_0304, u32::MAX] {
        let mut generator = Generator::from_seed(seed);
        let mut rng = stream(seed);
        for round in 0..300usize {
            let bound = 1 + (round * 37) % 1000;
            let expected: usize = rng.random_range(..bound);
            assert_eq!(generator.index_below(bound), expected);
        }
    }
}

#[test]
fn shuffles_and_draws_are_those_of_one_stream() {
    for seed in [3u32, 77, 4242] {
        let mut generator = Generator::from_seed(seed);
        let mut rng = stream(seed);
        for round in 0..40usize {
            let items: Vec<u8> = (0..(round * 7 % 250) as u8).collect();
            let mut expected = items.clone();
            expected.shuffle(&mut rng);
            assert_eq!(generator.shuffle(items), expected);
            let bound = 1 + round * 13;
            let drawn: usize = rng.random_range(..bound);
            assert_eq!(generator.index_below(bound), drawn);
        }
    }
}

#[test]
fn large_bounds_are_drawn_from_the_same_stream() {
    let mut generator = Generator::from_seed(9);
    let mut rng = stream(9);
    for bound in [usize::MAX, usize::MAX / 2, (u32::MAX as usize) + 1, u32::MAX as usize, 1 << 20] {
        let expected: usize = rng.random_range(..bound);
        assert_eq!(generator.index_below(bound), expected);
    }
}
