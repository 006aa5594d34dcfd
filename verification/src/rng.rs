//! Randomness from the `rand` crate: the generator that deals the wall, and
//! the thread generator used for seeds and game ids.

use vstd::prelude::*;
use rand::StdRng;
use rand::Rng;
use rand::Rand;
use crate::tile::Tile;

verus! {

/// `rand::StdRng`, the seeded generator that deals the walls.
#[verifier::external_type_specification]
#[verifier::external_body]
pub struct ExStdRng(StdRng);

/// `Rng::shuffle` of `rand` on the tiles of `v`.  The crate swaps elements
/// in place (a Fisher-Yates shuffle), so the claim is only that `v` keeps
/// its tiles; which order comes out depends on the generator's state and is
/// not stated.
#[verifier::external_body]
pub fn shuffle_tiles(rng: &mut StdRng, v: &mut Vec<Tile>)
    ensures
        final(v)@.len() == old(v)@.len(),
        final(v)@.to_multiset() == old(v)@.to_multiset(),
{
    rng.shuffle(v.as_mut_slice());
}

/// `Rng::gen_range` of `rand` on `usize`: a value in `[low, high)`, as its
/// documentation says; which one depends on the generator's state.  It
/// panics when `low >= high`, which `requires` leaves out.
#[verifier::external_body]
pub fn gen_range_usize(rng: &mut StdRng, low: usize, high: usize) -> (r: usize)
    requires
        low < high,
    ensures
        low <= r < high,
{
    rng.gen_range(low, high)
}

/// `Rng::gen_range` of `rand` on `u64`, drawn from `rand::thread_rng()`: a
/// value in `[low, high)`.  The thread generator is seeded by the operating
/// system (it panics where the system has no entropy, which no argument
/// decides); nothing but the range is claimed.
#[verifier::external_body]
pub fn thread_gen_range_u64(low: u64, high: u64) -> (r: u64)
    requires
        low < high,
    ensures
        low <= r < high,
{
    rand::thread_rng().gen_range(low, high)
}

/// `Rand::rand` of `rand` for `usize`, drawn from `rand::thread_rng()`: any
/// value, so nothing is claimed of it.
#[verifier::external_body]
pub fn thread_random_usize() -> usize {
    usize::rand(&mut rand::thread_rng())
}

/// A seed of eight random words for the generator that deals the walls.
pub fn gen_seed() -> (seed: Vec<usize>)
    ensures
        seed.len() == 8,
{
    let mut seed: Vec<usize> = Vec::new();
    let mut i: usize = 0;
    while i < 8
        invariant
            i <= 8,
            seed.len() == i,
        decreases 8 - i,
    {
        seed.push(thread_random_usize());
        i = i + 1;
    }
    seed
}

} // verus!
