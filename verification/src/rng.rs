//! The simulation's random stream: a seeded ChaCha generator behind a small
//! trusted boundary, with verified derived draws (bounded integers, Bernoulli
//! trials in micro units, weighted choice, shuffling).
//!
//! Every run owns one `SimRng` and consumes it in a fixed order, so a fixed
//! seed reproduces a run exactly.

use crate::fixed::SCALE;
use rand::RngCore;
use rand::SeedableRng;
use vstd::prelude::*;
use vstd::seq_lib::group_to_multiset_ensures;
use vstd::seq_lib::to_multiset_update;

verus! {

/// Declares rand_chacha's `ChaCha12Rng` to the verifier, as an opaque
/// generator state carried by `SimRng`.
#[verifier::external_type_specification]
#[verifier::external_body]
pub struct ExChaCha12Rng(rand_chacha::ChaCha12Rng);

/// Relies on rand_chacha's `ChaCha12Rng::seed_from_u64` (via rand_core's
/// `SeedableRng`): builds a generator from a 64-bit seed.
#[verifier::external_body]
fn chacha_seed_from_u64(seed: u64) -> rand_chacha::ChaCha12Rng {
    rand_chacha::ChaCha12Rng::seed_from_u64(seed)
}

/// Relies on rand_chacha's `ChaCha12Rng::from_seed` (via rand_core's
/// `SeedableRng`): builds a generator from a full 32-byte seed.
#[verifier::external_body]
fn chacha_from_seed(seed: [u8; 32]) -> rand_chacha::ChaCha12Rng {
    rand_chacha::ChaCha12Rng::from_seed(seed)
}

/// Relies on rand_core's `RngCore::next_u64` for `ChaCha12Rng`: draws the
/// next 64 bits of the stream. Nothing can be promised of a random draw.
#[verifier::external_body]
fn chacha_next_u64(rng: &mut rand_chacha::ChaCha12Rng) -> u64 {
    rng.next_u64()
}

/// The run's random stream.
pub struct SimRng {
    inner: rand_chacha::ChaCha12Rng,
}

/// Running sum of the first `i` entries of a weight sequence.
pub open spec fn prefix_sum(s: Seq<i64>, i: int) -> int
    decreases i,
{
    if i <= 0 {
        0
    } else {
        prefix_sum(s, i - 1) + s[i - 1]
    }
}

impl SimRng {
    /// A stream determined by a 64-bit seed.
    pub fn seed_from_u64(seed: u64) -> SimRng {
        SimRng { inner: chacha_seed_from_u64(seed) }
    }

    /// A stream determined by a full 32-byte seed.
    pub fn from_seed(seed: [u8; 32]) -> SimRng {
        SimRng { inner: chacha_from_seed(seed) }
    }

    /// The next raw 64-bit draw.
    pub fn next_u64(&mut self) -> u64 {
        chacha_next_u64(&mut self.inner)
    }

    /// A draw below `n`.
    pub fn gen_below(&mut self, n: u64) -> (r: u64)
        requires
            n > 0,
        ensures
            r < n,
    {
        self.next_u64() % n
    }

    /// A uniform micro value in `[0, SCALE)`.
    pub fn gen_micro(&mut self) -> (r: i64)
        ensures
            0 <= r < SCALE,
    {
        self.gen_below(1_000_000) as i64
    }

    /// A Bernoulli trial with success probability `p` micro: compares one
    /// 64-bit draw against `p * 2^64 / SCALE`, so certain failure and certain
    /// success are exact.
    pub fn gen_bool_micro(&mut self, p: i64) -> (b: bool)
        requires
            0 <= p <= SCALE,
        ensures
            p == 0 ==> !b,
            p == SCALE ==> b,
    {
        let threshold: u128 = (p as u128) * 0x1_0000_0000_0000_0000u128 / 1_000_000u128;
        let v = self.next_u64();
        proof {
            if p == SCALE {
                assert(threshold == 0x1_0000_0000_0000_0000u128);
            }
        }
        (v as u128) < threshold
    }

    /// One of the two strategies, uniformly.
    pub fn gen_flag(&mut self) -> bool {
        self.next_u64() % 2 == 0
    }

    /// Weighted categorical choice over normalized weights: draws one micro
    /// value and hands it to `pick_weighted`.
    pub fn sample_weighted(&mut self, weights: &Vec<i64>) -> (r: usize)
        requires
            weights@.len() >= 1,
            forall|i: int| 0 <= i < weights@.len() ==> 0 <= #[trigger] weights@[i] <= SCALE,
            prefix_sum(weights@, weights@.len() as int) == SCALE,
        ensures
            r < weights@.len(),
            weights@[r as int] > 0,
    {
        let u = self.gen_below(1_000_000);
        pick_weighted(weights, u)
    }

    /// A uniform permutation, by Fisher-Yates: the contents are exactly
    /// preserved as a multiset.
    pub fn shuffle<T: Copy>(&mut self, v: &mut Vec<T>)
        ensures
            final (v)@.len() == old(v)@.len(),
            final (v)@.to_multiset() == old(v)@.to_multiset(),
    {
        let n = v.len();
        if n <= 1 {
            return ;
        }
        let mut i: usize = n - 1;
        while i >= 1
            invariant
                0 <= i <= n - 1,
                n == v@.len(),
                v@.len() == old(v)@.len(),
                v@.to_multiset() == old(v)@.to_multiset(),
            decreases i,
        {
            let j = self.gen_below((i + 1) as u64) as usize;
            if j != i {
                let ghost s = v@;
                let a = v[i];
                let b = v[j];
                v.set(i, b);
                v.set(j, a);
                proof {
                    broadcast use group_to_multiset_ensures, to_multiset_update;

                    assert(v@ == s.update(i as int, s[j as int]).update(j as int, s[i as int]));
                    assert(v@.to_multiset() =~= s.to_multiset());
                }
            }
            i = i - 1;
        }
    }
}

/// The index a normalized weight vector selects for the micro draw `u`: the
/// first index whose cumulative weight exceeds `u`.
pub fn pick_weighted(weights: &Vec<i64>, u: u64) -> (r: usize)
    requires
        weights@.len() >= 1,
        forall|i: int| 0 <= i < weights@.len() ==> 0 <= #[trigger] weights@[i] <= SCALE,
        prefix_sum(weights@, weights@.len() as int) == SCALE,
        u < SCALE,
    ensures
        r < weights@.len(),
        prefix_sum(weights@, r as int) <= u as int,
        (u as int) < prefix_sum(weights@, r as int + 1),
        weights@[r as int] > 0,
{
    let n = weights.len();
    let mut i: usize = 0;
    let mut acc: u64 = 0;
    loop
        invariant
            0 <= i < n,
            n == weights@.len(),
            forall|k: int| 0 <= k < n ==> 0 <= #[trigger] weights@[k] <= SCALE,
            prefix_sum(weights@, n as int) == SCALE,
            acc == prefix_sum(weights@, i as int),
            acc <= u < SCALE,
        decreases n - i,
    {
        let w = weights[i] as u64;
        if u < acc + w {
            return i;
        }
        proof {
            if i + 1 == n {
                assert(prefix_sum(weights@, n as int) == acc + w);
            } else {
                lemma_prefix_sum_bound(weights@, i as int + 1, n as int);
            }
        }
        acc = acc + w;
        i = i + 1;
    }
}

/// A prefix of a nonnegative weight sequence never exceeds the whole sum.
pub proof fn lemma_prefix_sum_bound(s: Seq<i64>, i: int, n: int)
    requires
        0 <= i <= n <= s.len(),
        forall|k: int| 0 <= k < s.len() ==> 0 <= #[trigger] s[k],
    ensures
        prefix_sum(s, i) <= prefix_sum(s, n),
    decreases n - i,
{
    if i < n {
        lemma_prefix_sum_bound(s, i + 1, n);
    }
}

} // verus!
