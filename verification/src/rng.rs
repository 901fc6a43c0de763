use vstd::prelude::*;

verus! {

#[verifier::external_type_specification]
#[verifier::external_body]
pub struct ExChaCha20Rng(rand_chacha::ChaCha20Rng);

/// The word that a ChaCha20 stream seeded with `seed` produces at position
/// `index`.  ChaCha20 is a pure function of its seed: the same seed yields the
/// same stream of words on every machine and in every process.
pub uninterp spec fn chacha_word(seed: Seq<u8>, index: nat) -> u32;

/// Relies on rand_chacha's `ChaCha20Rng::from_seed` (through rand_core's
/// `SeedableRng`): builds the deterministic generator for this seed, with no
/// words drawn from it yet.
#[verifier::external_body]
fn chacha_from_seed(seed: [u8; 32]) -> rand_chacha::ChaCha20Rng {
    <rand_chacha::ChaCha20Rng as rand::SeedableRng>::from_seed(seed)
}

/// Relies on rand's `OsRng::fill_bytes` (through rand_core's `RngCore`): the
/// buffer is filled with system entropy, so nothing is known of the returned
/// bytes.
#[verifier::external_body]
fn entropy_seed() -> [u8; 32] {
    let mut seed = [0u8; 32];
    <rand::rngs::OsRng as rand::RngCore>::fill_bytes(&mut rand::rngs::OsRng, &mut seed);
    seed
}

/// The pseudo-random source owned by every maze generator.
///
/// It pairs a ChaCha20 generator with the seed it was built from and the
/// number of words drawn so far.  The two ghost fields mirror the state of the
/// inner generator exactly: every constructor and every draw goes through this
/// module, which keeps them in step.
pub struct MazeRng {
    inner: rand_chacha::ChaCha20Rng,
    seed: Ghost<Seq<u8>>,
    drawn: Ghost<nat>,
}

impl MazeRng {
    /// The seed this source was built from (unknown for an entropy-seeded
    /// source).
    pub closed spec fn seed(self) -> Seq<u8> {
        self.seed@
    }

    /// How many words have been drawn from this source so far.
    pub closed spec fn drawn(self) -> nat {
        self.drawn@
    }

    /// Build a fully deterministic source from a fixed 32-byte seed.
    pub fn from_seed(seed: [u8; 32]) -> (r: MazeRng)
        ensures
            r.seed() == seed@,
            r.drawn() == 0,
    {
        MazeRng { inner: chacha_from_seed(seed), seed: Ghost(seed@), drawn: Ghost(0) }
    }

    /// Build a source from system entropy; its seed is unknown.
    pub fn from_entropy() -> (r: MazeRng)
        ensures
            r.drawn() == 0,
    {
        let seed = entropy_seed();
        MazeRng::from_seed(seed)
    }

    /// Relies on rand_chacha's `ChaCha20Rng::next_u32` (through rand_core's
    /// `RngCore`): each call returns the next 32-bit word of the ChaCha20
    /// stream determined by the seed, a pure function of the seed and of how
    /// many words were drawn before.
    #[verifier::external_body]
    pub(crate) fn next_u32(&mut self) -> (r: u32)
        ensures
            r == chacha_word(old(self).seed(), old(self).drawn()),
            final(self).seed() == old(self).seed(),
            final(self).drawn() == old(self).drawn() + 1,
    {
        <rand_chacha::ChaCha20Rng as rand::RngCore>::next_u32(&mut self.inner)
    }

    /// Draw a number below `bound` by reducing one random word.
    pub(crate) fn below(&mut self, bound: usize) -> (r: usize)
        requires
            0 < bound,
        ensures
            r < bound,
            r == (chacha_word(old(self).seed(), old(self).drawn()) as usize) % bound,
            final(self).seed() == old(self).seed(),
            final(self).drawn() == old(self).drawn() + 1,
    {
        let word = self.next_u32();
        (word as usize) % bound
    }

    /// Draw a fair coin by testing one bit of a random word.
    pub(crate) fn coin(&mut self) -> (r: bool)
        ensures
            r == (chacha_word(old(self).seed(), old(self).drawn()) & 1 == 1),
            final(self).seed() == old(self).seed(),
            final(self).drawn() == old(self).drawn() + 1,
    {
        let word = self.next_u32();
        word & 1 == 1
    }
}

} // verus!
