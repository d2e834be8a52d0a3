//! xorshift64 pseudo-random generator: deterministic, seedable, and
//! never stuck at zero.

use vstd::prelude::*;

verus! {

/// State used in place of a zero seed (xorshift maps 0 to 0 forever).
pub const ZERO_SEED_FALLBACK: u64 = 0x9E3779B97F4A7C15u64;

/// One xorshift64 step with shifts 13, 7, 17.
pub open spec fn xorshift(x: u64) -> u64 {
    let a = x ^ (x << 13u64);
    let b = a ^ (a >> 7u64);
    b ^ (b << 17u64)
}

/// The state a generator starts from for a given seed.
pub open spec fn seed_state(seed: u64) -> u64 {
    if seed == 0 {
        ZERO_SEED_FALLBACK
    } else {
        seed
    }
}

/// The state after `k` draws from `state`.
pub open spec fn advance(state: u64, k: nat) -> u64
    decreases k,
{
    if k == 0 {
        state
    } else {
        xorshift(advance(state, (k - 1) as nat))
    }
}

/// A nonzero state never becomes zero.
pub proof fn lemma_xorshift_nonzero(x: u64)
    requires
        x != 0,
    ensures
        xorshift(x) != 0,
{
    assert(x != 0 ==> (x ^ (x << 13u64)) != 0) by (bit_vector);
    let a = x ^ (x << 13u64);
    assert(a != 0 ==> (a ^ (a >> 7u64)) != 0) by (bit_vector);
    let b = a ^ (a >> 7u64);
    assert(b != 0 ==> (b ^ (b << 17u64)) != 0) by (bit_vector);
}

/// Distinct states step to distinct states: xorshift is injective.
pub proof fn lemma_xorshift_injective(x: u64, y: u64)
    requires
        x != y,
    ensures
        xorshift(x) != xorshift(y),
{
    assert(x != y ==> (x ^ (x << 13u64)) != (y ^ (y << 13u64))) by (bit_vector);
    let ax = x ^ (x << 13u64);
    let ay = y ^ (y << 13u64);
    assert(ax != ay ==> (ax ^ (ax >> 7u64)) != (ay ^ (ay >> 7u64))) by (bit_vector);
    let bx = ax ^ (ax >> 7u64);
    let by = ay ^ (ay >> 7u64);
    assert(bx != by ==> (bx ^ (bx << 17u64)) != (by ^ (by << 17u64))) by (bit_vector);
}

/// Two generators started from the same seed draw the same sequence.
pub proof fn lemma_same_seed_same_sequence(seed_a: u64, seed_b: u64, k: nat)
    requires
        seed_a == seed_b,
    ensures
        advance(seed_state(seed_a), k) == advance(seed_state(seed_b), k),
{
}

/// Seeds that start from different states give different first draws.
pub proof fn lemma_different_seeds_differ(seed_a: u64, seed_b: u64)
    requires
        seed_state(seed_a) != seed_state(seed_b),
    ensures
        advance(seed_state(seed_a), 1) != advance(seed_state(seed_b), 1),
{
    lemma_xorshift_injective(seed_state(seed_a), seed_state(seed_b));
    assert(advance(seed_state(seed_a), 0) == seed_state(seed_a));
    assert(advance(seed_state(seed_b), 0) == seed_state(seed_b));
}

/// Whatever the seed (zero included), no draw is ever zero.
pub proof fn lemma_draws_never_zero(seed: u64, k: nat)
    ensures
        advance(seed_state(seed), k) != 0,
    decreases k,
{
    if k > 0 {
        lemma_draws_never_zero(seed, (k - 1) as nat);
        lemma_xorshift_nonzero(advance(seed_state(seed), (k - 1) as nat));
    }
}

/// Seedable xorshift64 generator.
pub struct Rng {
    state: u64,
}

impl View for Rng {
    type V = u64;

    closed spec fn view(&self) -> u64 {
        self.state
    }
}

impl Rng {
    #[verifier::type_invariant]
    closed spec fn state_nonzero(self) -> bool {
        self.state != 0
    }

    /// Creates a generator; a zero seed is replaced by a fixed nonzero
    /// state.
    pub fn new(seed: u64) -> (rng: Rng)
        ensures
            rng@ == seed_state(seed),
    {
        let safe_seed = if seed == 0 {
            ZERO_SEED_FALLBACK
        } else {
            seed
        };
        Rng { state: safe_seed }
    }

    /// Advances the state by one xorshift step and returns the new
    /// state, which is never zero.
    pub fn next_u64(&mut self) -> (v: u64)
        ensures
            final(self)@ == xorshift(old(self)@),
            v == final(self)@,
            v != 0,
    {
        proof {
            use_type_invariant(&*self);
            lemma_xorshift_nonzero(self.state);
        }
        let x = self.state;
        let a = x ^ (x << 13u64);
        let b = a ^ (a >> 7u64);
        let c = b ^ (b << 17u64);
        self.state = c;
        c
    }
}

} // verus!
