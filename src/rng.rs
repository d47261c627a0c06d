use vstd::prelude::*;

verus! {

/// One xorshift64 step.
pub open spec fn xorshift(s: u64) -> u64 {
    let a = s ^ (s << 13u64);
    let b = a ^ (a >> 7u64);
    b ^ (b << 17u64)
}

/// The state a generator starts from for a seed (zero is replaced by one).
pub open spec fn seed_state(seed: u64) -> u64 {
    if seed == 0 {
        1
    } else {
        seed
    }
}

/// The value `next_int(bound)` returns from a state.
pub open spec fn draw(s: u64, bound: u32) -> u32
    recommends
        bound > 0,
{
    (xorshift(s) % (bound as u64)) as u32
}

/// The values that successive calls `next_int(bounds[0])`, `next_int(bounds[1])`, ...
/// return from a state.
pub open spec fn draws(s: u64, bounds: Seq<u32>) -> Seq<u32>
    decreases bounds.len(),
{
    if bounds.len() == 0 {
        Seq::empty()
    } else {
        seq![draw(s, bounds[0])] + draws(xorshift(s), bounds.drop_first())
    }
}

/// Seedable pseudo-random number generator (xorshift64).
#[derive(Debug, Clone, Copy)]
pub struct Rng {
    state: u64,
}

impl View for Rng {
    type V = u64;

    closed spec fn view(&self) -> u64 {
        self.state
    }
}

impl Rng {
    pub fn new(seed: u64) -> (r: Rng)
        ensures
            r@ == seed_state(seed),
    {
        Rng { state: if seed == 0 { 1 } else { seed } }
    }

    /// Generate next u64 using xorshift64.
    fn next_u64(&mut self) -> (r: u64)
        ensures
            r == xorshift(old(self)@),
            final(self)@ == r,
    {
        let mut x = self.state;
        x = x ^ (x << 13u64);
        x = x ^ (x >> 7u64);
        x = x ^ (x << 17u64);
        self.state = x;
        x
    }

    /// Generate a random number in [0, upper_bound).
    pub fn next_int(&mut self, upper_bound: u32) -> (r: u32)
        requires
            upper_bound > 0,
        ensures
            r == draw(old(self)@, upper_bound),
            r < upper_bound,
            final(self)@ == xorshift(old(self)@),
    {
        let v = self.next_u64();
        (v % (upper_bound as u64)) as u32
    }
}

/// Generators in the same state produce the same values for the same calls,
/// and every value lies below its bound: two generators built from one seed
/// replay one sequence.
pub proof fn lemma_same_seed_same_draws(a: Rng, b: Rng, seed: u64, bounds: Seq<u32>)
    requires
        a@ == seed_state(seed),
        b@ == seed_state(seed),
        forall|i: int| 0 <= i < bounds.len() ==> bounds[i] > 0,
    ensures
        draws(a@, bounds) == draws(b@, bounds),
        draws(a@, bounds).len() == bounds.len(),
        forall|i: int| 0 <= i < bounds.len() ==> draws(a@, bounds)[i] < bounds[i],
    decreases bounds.len(),
{
    lemma_draws_in_range(a@, bounds);
}

/// Every value of a draw sequence lies below its bound.
pub proof fn lemma_draws_in_range(s: u64, bounds: Seq<u32>)
    requires
        forall|i: int| 0 <= i < bounds.len() ==> bounds[i] > 0,
    ensures
        draws(s, bounds).len() == bounds.len(),
        forall|i: int| 0 <= i < bounds.len() ==> draws(s, bounds)[i] < bounds[i],
    decreases bounds.len(),
{
    if bounds.len() > 0 {
        let rest = bounds.drop_first();
        lemma_draws_in_range(xorshift(s), rest);
        assert forall|i: int| 0 <= i < bounds.len() implies draws(s, bounds)[i] < bounds[i] by {
            if i > 0 {
                assert(draws(s, bounds)[i] == draws(xorshift(s), rest)[i - 1]);
                assert(rest[i - 1] == bounds[i]);
            }
        }
    }
}

} // verus!
