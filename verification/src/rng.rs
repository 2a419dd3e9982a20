//! Seeded pseudo-random generation. Every generator in a session is derived
//! from the session seed and the event counter, so the byte stream — and with
//! it every rolled face and every bot coin flip — is a deterministic function
//! of the seed, which is what permits replay-based verification.

use vstd::prelude::*;

use rand::rngs::StdRng;
use rand::seq::SliceRandom;
use rand::Rng;
use rand::SeedableRng;

use crate::model::Player;

verus! {

#[verifier::external_type_specification]
#[verifier::external_body]
pub struct ExStdRng(StdRng);

/// The byte at position `idx` of the stream that a standard generator seeded
/// with `seed` produces. The generator algorithm is fixed, so the stream is a
/// function of the seed alone.
pub uninterp spec fn std_rng_byte(seed: u64, idx: nat) -> u8;

/// A standard generator together with the seed it was built from and the
/// number of bytes already drawn, so that each drawn byte can be pinned to a
/// position of the seed's stream.
pub struct DiceRng {
    inner: StdRng,
    seed: Ghost<u64>,
    taken: Ghost<nat>,
}

/// Relies on rand's StdRng::seed_from_u64: builds a generator positioned at
/// the start of a stream that is a function of the seed alone.
#[verifier::external_body]
fn seeded_std_rng(seed: u64) -> StdRng {
    StdRng::seed_from_u64(seed)
}

/// Relies on rand's Rng::gen::<u8>: draws the next byte of the generator's
/// stream, which is a function of the seed and of the position alone.
#[verifier::external_body]
pub(crate) fn rng_next_u8(r: &mut DiceRng) -> (b: u8)
    ensures
        final(r).seed() == old(r).seed(),
        final(r).taken() == old(r).taken() + 1,
        b == std_rng_byte(old(r).seed(), old(r).taken()),
{
    r.inner.gen::<u8>()
}

/// The arrangement that rand's shuffle leaves a sequence of players in, as a
/// function of the generator's seed and position and of the sequence itself:
/// the algorithm draws only from the generator, so the result depends on
/// nothing else.
pub uninterp spec fn std_shuffled(seed: u64, taken: nat, players: Seq<Player>) -> Seq<Player>;

/// Relies on rand's SliceRandom::shuffle: reorders the slice in place by
/// swaps driven by the generator alone, neither adding nor removing elements.
/// Takes the generator by value: the shuffle consumes an unspecified amount
/// of its stream, so no byte may be drawn from it afterwards.
#[verifier::external_body]
pub(crate) fn shuffle_players(r: DiceRng, v: &mut Vec<Player>)
    ensures
        final(v)@ == std_shuffled(r.seed(), r.taken(), old(v)@),
        final(v)@.to_multiset() == old(v)@.to_multiset(),
{
    let mut r = r;
    v.shuffle(&mut r.inner);
}

impl DiceRng {
    /// The seed this generator was built from.
    pub closed spec fn seed(self) -> u64 {
        self.seed@
    }

    /// How many bytes have been drawn from it so far.
    pub closed spec fn taken(self) -> nat {
        self.taken@
    }

    /// Builds a generator seeded with `seed`, positioned at the start of the
    /// seed's stream.
    pub fn from_seed(seed: u64) -> (r: DiceRng)
        ensures
            r.seed() == seed,
            r.taken() == 0,
    {
        DiceRng { inner: seeded_std_rng(seed), seed: Ghost(seed), taken: Ghost(0nat) }
    }
}

} // verus!
