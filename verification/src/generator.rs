//! The seeded generator behind every random draw of a game.
//!
//! A generator is kept as plain values: the key it was seeded with and its
//! position in the key's stream. A draw is a function of those two and of its
//! own arguments, so a game can be replayed from its seed.

use rand::seq::SliceRandom;
use rand::Rng;
use rand::SeedableRng;
use rand_chacha::ChaCha8Rng;
use vstd::prelude::*;

verus! {

/// The index below `bound` that the ChaCha8 stream of `key` yields at word
/// `pos`, and the word position after that draw.
pub uninterp spec fn chacha_draw(key: Seq<u8>, pos: u128, bound: usize) -> (usize, u128);

/// The order into which the ChaCha8 stream of `key`, read from word `pos`,
/// shuffles `items`, and the word position after the shuffle.
pub uninterp spec fn chacha_shuffled(key: Seq<u8>, pos: u128, items: Seq<u8>) -> (Seq<u8>, u128);

/// The key that a 32-bit seed stands for: the seed in the low four bytes,
/// least significant first, and zero in the other twenty-eight.
pub open spec fn seed_key(seed: u32) -> Seq<u8> {
    Seq::new(
        32,
        |i: int|
            if i == 0 {
                (seed % 256) as u8
            } else if i == 1 {
                (seed / 256 % 256) as u8
            } else if i == 2 {
                (seed / 65536 % 256) as u8
            } else if i == 3 {
                (seed / 16777216) as u8
            } else {
                0u8
            },
    )
}

/// A position in the stream of a key.
#[derive(Clone, Copy, Debug)]
pub struct Generator {
    key: [u8; 32],
    word_pos: u128,
}

impl Generator {
    /// The key of the stream.
    pub closed spec fn key(&self) -> Seq<u8> {
        self.key@
    }

    /// The number of 32-bit words of the stream that are used up.
    pub closed spec fn word_pos(&self) -> u128 {
        self.word_pos
    }

    /// The generator at the start of the stream of `seed`.
    pub fn from_seed(seed: u32) -> (generator: Generator)
        ensures
            generator.key() == seed_key(seed),
            generator.word_pos() == 0,
    {
        let mut key: [u8; 32] = [0u8; 32];
        key[0] = (seed % 256) as u8;
        key[1] = (seed / 256 % 256) as u8;
        key[2] = (seed / 65536 % 256) as u8;
        key[3] = (seed / 16777216) as u8;
        let generator = Generator { key, word_pos: 0 };
        assert(generator.key() =~= seed_key(seed));
        generator
    }

    /// Draws an index below `bound`.
    pub fn index_below(&mut self, bound: usize) -> (index: usize)
        requires
            bound > 0,
        ensures
            index < bound,
            index == chacha_draw(old(self).key(), old(self).word_pos(), bound).0,
            final(self).key() == old(self).key(),
            final(self).word_pos() == chacha_draw(old(self).key(), old(self).word_pos(), bound).1,
    {
        let drawn = draw_below(&self.key, self.word_pos, bound);
        self.word_pos = drawn.1;
        drawn.0
    }

    /// Shuffles `items`.
    pub fn shuffle(&mut self, items: Vec<u8>) -> (shuffled: Vec<u8>)
        ensures
            shuffled@ == chacha_shuffled(old(self).key(), old(self).word_pos(), items@).0,
            shuffled@.to_multiset() == items@.to_multiset(),
            final(self).key() == old(self).key(),
            final(self).word_pos() == chacha_shuffled(
                old(self).key(),
                old(self).word_pos(),
                items@,
            ).1,
    {
        let shuffled = shuffle_from(&self.key, self.word_pos, items);
        self.word_pos = shuffled.1;
        shuffled.0
    }
}

/// `Rng::random_range` of rand on a `ChaCha8Rng` of rand_chacha, made by
/// `from_seed` of `key` and moved by `set_word_pos` to `pos`. Claims that the
/// index returned and the position read back by `get_word_pos` depend on
/// `key`, `pos` and `bound` alone, and that the index is below `bound`.
#[verifier::external_body]
fn draw_below(key: &[u8; 32], pos: u128, bound: usize) -> (drawn: (usize, u128))
    requires
        bound > 0,
    ensures
        drawn == chacha_draw(key@, pos, bound),
        drawn.0 < bound,
{
    let mut rng = ChaCha8Rng::from_seed(*key);
    rng.set_word_pos(pos);
    let index: usize = rng.random_range(..bound);
    (index, rng.get_word_pos())
}

/// `SliceRandom::shuffle` of rand with a `ChaCha8Rng` of rand_chacha, made by
/// `from_seed` of `key` and moved by `set_word_pos` to `pos`. Claims that the
/// new order and the position read back by `get_word_pos` depend on `key`,
/// `pos` and `items` alone, and that the new order holds the same items,
/// each as often as before.
#[verifier::external_body]
fn shuffle_from(key: &[u8; 32], pos: u128, items: Vec<u8>) -> (shuffled: (Vec<u8>, u128))
    ensures
        (shuffled.0@, shuffled.1) == chacha_shuffled(key@, pos, items@),
        shuffled.0@.to_multiset() == items@.to_multiset(),
{
    let mut rng = ChaCha8Rng::from_seed(*key);
    rng.set_word_pos(pos);
    let mut items = items;
    items.shuffle(&mut rng);
    (items, rng.get_word_pos())
}

} // verus!
