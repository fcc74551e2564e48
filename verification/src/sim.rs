//! The integer side of the simulation harness: its error, and the game-keyed
//! hash that turns a game's identity into a reproducible draw.

use vstd::prelude::*;

verus! {

/// Errors from a simulation run.
#[derive(Debug, Clone, PartialEq, Eq)]
pub enum SimError {
    /// The base tournament has too few players to pair a round.
    NotEnoughPlayers { have: usize },
}

/// The SplitMix64 finalizer, a bijection on `u64`.
pub open spec fn splitmix(z: u64) -> u64 {
    let a = (z ^ (z >> 30u64)).wrapping_mul(0xbf58_476d_1ce4_e5b9u64);
    let b = (a ^ (a >> 27u64)).wrapping_mul(0x94d0_49bb_1331_11ebu64);
    b ^ (b >> 31u64)
}

/// The SplitMix64 finalizer — a fast, well-mixing bijection on `u64`, used to
/// fold a game's identity into a pseudo-random draw.
fn splitmix64(z: u64) -> (r: u64)
    ensures
        r == splitmix(z),
{
    let a = (z ^ (z >> 30u64)).wrapping_mul(0xbf58_476d_1ce4_e5b9u64);
    let b = (a ^ (a >> 27u64)).wrapping_mul(0x94d0_49bb_1331_11ebu64);
    b ^ (b >> 31u64)
}

/// The five words a game's key is made of: both ids' low and high halves,
/// then the rematch count.
pub open spec fn key_words(lo: u128, hi: u128, rematch: u32) -> Seq<u64> {
    seq![lo as u64, (lo >> 64u128) as u64, hi as u64, (hi >> 64u128) as u64, rematch as u64]
}

/// `h` folded with each word through the finalizer, in order.
pub open spec fn fold_words(h: u64, words: Seq<u64>) -> u64
    decreases words.len(),
{
    if words.len() == 0 {
        h
    } else {
        splitmix(fold_words(h, words.drop_last()) ^ words.last())
    }
}

/// The top 53 bits of a game's keyed hash — the numerator of its uniform draw
/// in `[0, 1)` (divided by 2⁵³). Keyed on the run's seed and the game's
/// identity (the two ids as 128-bit numbers, lower first, and how many times
/// they have already met), so the same pairing draws the same value however it
/// came about.
pub fn game_draw_bits(run_seed: u64, lo: u128, hi: u128, rematch: u32) -> (r: u64)
    ensures
        r == fold_words(run_seed, key_words(lo, hi, rematch)) >> 11u64,
{
    let words: [u64; 5] = [lo as u64, (lo >> 64u128) as u64, hi as u64, (hi >> 64u128) as u64, rematch as u64];
    assert(words@ =~= key_words(lo, hi, rematch));
    let mut h = run_seed;
    let mut i: usize = 0;
    while i < 5
        invariant
            i <= 5,
            words@ == key_words(lo, hi, rematch),
            h == fold_words(run_seed, words@.subrange(0, i as int)),
        decreases 5 - i,
    {
        assert(words@.subrange(0, i as int + 1).drop_last() =~= words@.subrange(0, i as int));
        h = splitmix64(h ^ words[i]);
        i += 1;
    }
    assert(words@.subrange(0, 5) =~= words@);
    h >> 11u64
}

} // verus!
