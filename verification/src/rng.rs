//! The random number generator behind the dice, and what is known of the
//! numbers it yields.
use vstd::prelude::*;
use rand_xoshiro::rand_core::Rng;
use rand_xoshiro::rand_core::SeedableRng;
use rand_xoshiro::Xoroshiro128StarStar;

verus! {

/// `rand_xoshiro::Xoroshiro128StarStar`, a pseudo-random generator whose
/// state Verus does not see.
#[verifier::external_type_specification]
#[verifier::external_body]
pub struct ExXoroshiro128StarStar(Xoroshiro128StarStar);

/// The `k`-th number (counting from 0) that `Rng::next_u32` yields on a
/// generator made by `Xoroshiro128StarStar::seed_from_u64(seed)`. The
/// generator's output is a fixed function of its seed.
pub uninterp spec fn seeded_draw(seed: u64, k: nat) -> u32;

/// The numbers that a generator made from `seed` yields, from the `from`-th
/// on, `n` of them.
pub open spec fn seeded_stream(seed: u64, from: nat, n: nat) -> Seq<u32> {
    Seq::new(n, |k: int| seeded_draw(seed, (from + k) as nat))
}

/// A generator for the dice. Its model is the seed it was made from, when
/// it was made from one, and the numbers drawn from it so far.
pub struct Dice {
    rng: Xoroshiro128StarStar,
    seed: Ghost<Option<u64>>,
    drawn: Ghost<Seq<u32>>,
}

impl View for Dice {
    type V = (Option<u64>, Seq<u32>);

    closed spec fn view(&self) -> (Option<u64>, Seq<u32>) {
        (self.seed@, self.drawn@)
    }
}

/// Going from the generator `a` to `b` drew the numbers `d`: they follow
/// the ones drawn before, and for a generator made from a seed they are the
/// next numbers of that seed's stream.
pub open spec fn draws(a: (Option<u64>, Seq<u32>), b: (Option<u64>, Seq<u32>), d: Seq<u32>) -> bool {
    &&& b.0 == a.0
    &&& b.1 == a.1 + d
    &&& a.0 matches Some(s) ==> d == seeded_stream(s, a.1.len(), d.len())
}

pub proof fn lemma_draws_none(a: (Option<u64>, Seq<u32>))
    ensures
        draws(a, a, Seq::empty()),
{
    assert(a.1 + Seq::<u32>::empty() =~= a.1);
    if let Some(s) = a.0 {
        assert(Seq::<u32>::empty() =~= seeded_stream(s, a.1.len(), 0));
    }
}

pub proof fn lemma_draws_concat(
    a: (Option<u64>, Seq<u32>),
    b: (Option<u64>, Seq<u32>),
    c: (Option<u64>, Seq<u32>),
    d1: Seq<u32>,
    d2: Seq<u32>,
)
    requires
        draws(a, b, d1),
        draws(b, c, d2),
    ensures
        draws(a, c, d1 + d2),
{
    assert(c.1 =~= a.1 + (d1 + d2));
    if let Some(s) = a.0 {
        assert(d1 + d2 =~= seeded_stream(s, a.1.len(), (d1 + d2).len()));
    }
}

impl Dice {
    /// `Xoroshiro128StarStar::seed_from_u64(seed)`: a generator at the start
    /// of the stream of `seed`.
    #[verifier::external_body]
    pub fn from_seed(seed: u64) -> (d: Dice)
        ensures
            d@ == (Some(seed), Seq::<u32>::empty()),
    {
        Dice { rng: Xoroshiro128StarStar::seed_from_u64(seed), seed: Ghost(Some(seed)), drawn: Ghost(Seq::empty()) }
    }

    /// A generator in whatever state `rng` is in; nothing is known of the
    /// numbers it will yield.
    pub fn from_generator(rng: Xoroshiro128StarStar) -> (d: Dice)
        ensures
            d@ == (None::<u64>, Seq::<u32>::empty()),
    {
        Dice { rng, seed: Ghost(None), drawn: Ghost(Seq::empty()) }
    }

    /// The generator itself, to go on drawing from it elsewhere.
    pub fn into_generator(self) -> Xoroshiro128StarStar {
        self.rng
    }

    /// `Rng::next_u32` on the generator: the next pseudo-random `u32`. For a
    /// generator made from a seed it is the next number of that seed's
    /// stream; otherwise nothing is stated of its value.
    #[verifier::external_body]
    pub fn next(&mut self) -> (v: u32)
        ensures
            old(self)@.0 matches Some(s) ==> v == seeded_draw(s, old(self)@.1.len()),
            draws(old(self)@, final(self)@, seq![v]),
    {
        let v = self.rng.next_u32();
        self.drawn = Ghost(self.drawn@.push(v));
        v
    }
}

} // verus!
