//! Per-key token buckets: each key may spend `rate` evaluations per second,
//! refilled continuously up to one second's worth. Tokens are counted in
//! millionths, so a refill over `e` microseconds adds exactly `e * rate`.
use vstd::prelude::*;
use std::time::Instant;
use crate::text::{owned, str_eq};
use crate::timeout::instant_now;

verus! {

/// Millionths of a token in one token.
pub const MICRO: u64 = 1_000_000;

/// `later.duration_since(earlier).as_micros()`, truncated to `u64` as `as`
/// does (zero when `earlier` is later). Nothing is claimed of the value: it
/// is the clock.
#[verifier::external_body]
fn micros_between(earlier: &Instant, later: &Instant) -> (r: u64) {
    later.duration_since(*earlier).as_micros() as u64
}

/// A bucket holds at most one second's worth of tokens.
pub open spec fn capacity(rate: u32) -> nat {
    rate as nat * MICRO as nat
}

/// Tokens after `elapsed_us` microseconds of refilling.
pub open spec fn refilled(tokens: nat, elapsed_us: u64, rate: u32) -> nat {
    let t = tokens + elapsed_us as nat * rate as nat;
    if t < capacity(rate) {
        t
    } else {
        capacity(rate)
    }
}

/// Taking `n` tokens from `tokens`: the tokens left and the answer, which
/// on refusal is the whole seconds until enough tokens are there (the
/// largest `u64` when the rate is zero and so they never are).
pub open spec fn take(tokens: nat, n: u32, rate: u32) -> (nat, Result<(), u64>) {
    let need = n as nat * MICRO as nat;
    if tokens >= need {
        ((tokens - need) as nat, Ok(()))
    } else if rate == 0 {
        (tokens, Err(u64::MAX))
    } else {
        (tokens, Err((((need - tokens) + capacity(rate) - 1) / (capacity(rate) as int)) as u64))
    }
}

/// The token bucket of one key.
#[derive(Debug)]
pub struct Bucket {
    tokens: u64,
    last_refill: Instant,
}

impl Bucket {
    pub closed spec fn tokens(&self) -> nat {
        self.tokens as nat
    }

    pub closed spec fn wf(&self, rate: u32) -> bool {
        self.tokens <= capacity(rate)
    }

    /// A full bucket.
    pub fn new(rate: u32) -> (r: Bucket)
        ensures
            r.wf(rate),
            r.tokens() == capacity(rate),
    {
        Bucket { tokens: rate as u64 * MICRO, last_refill: instant_now() }
    }

    /// Refills for `elapsed_us` microseconds, then takes `n` tokens; on
    /// refusal, the whole seconds to wait.
    pub fn refill_and_take(&mut self, elapsed_us: u64, n: u32, rate: u32) -> (r: Result<(), u64>)
        requires
            old(self).wf(rate),
        ensures
            final(self).wf(rate),
            (final(self).tokens(), r) == take(refilled(old(self).tokens(), elapsed_us, rate), n, rate),
    {
        let cap: u128 = rate as u128 * 1_000_000;
        assert((elapsed_us as int) * (rate as int) <= 0xffff_ffff_ffff_ffff * 0xffff_ffff) by (nonlinear_arith)
            requires
                elapsed_us <= 0xffff_ffff_ffff_ffffu64,
                rate <= 0xffff_ffffu32,
        ;
        let add: u128 = elapsed_us as u128 * rate as u128;
        let t: u128 = self.tokens as u128 + add;
        let t = if t < cap {
            t
        } else {
            cap
        };
        let need: u128 = n as u128 * 1_000_000;
        if t >= need {
            self.tokens = (t - need) as u64;
            Ok(())
        } else {
            self.tokens = t as u64;
            if rate == 0 {
                Err(u64::MAX)
            } else {
                let w = (need - t + cap - 1) / cap;
                assert(w <= need) by (nonlinear_arith)
                    requires
                        cap >= 1_000_000,
                        need > t,
                        w as int == (need as int - t as int + cap as int - 1) / (cap as int),
                ;
                Err(w as u64)
            }
        }
    }

    /// Refills for the time since the last refill, then takes `n` tokens.
    pub fn consume(&mut self, n: u32, rate: u32) -> (r: Result<(), u64>)
        requires
            old(self).wf(rate),
        ensures
            final(self).wf(rate),
            exists|e: u64|
                (final(self).tokens(), r) == #[trigger] take(refilled(old(self).tokens(), e, rate), n, rate),
    {
        let now = instant_now();
        let e = micros_between(&self.last_refill, &now);
        self.last_refill = now;
        assert(self.tokens() == old(self).tokens());
        let r = self.refill_and_take(e, n, rate);
        assert((self.tokens(), r) == take(refilled(old(self).tokens(), e, rate), n, rate));
        r
    }
}

/// Tokens a key starts from: its bucket's, or a full bucket for a new key.
pub open spec fn start_tokens(before: Seq<(Seq<char>, nat)>, i: int, rate: u32) -> nat {
    if i < before.len() {
        before[i].1
    } else {
        capacity(rate)
    }
}

/// Token buckets per API key, all with the same rate.
pub struct RateLimiter {
    buckets: Vec<(String, Bucket)>,
    rate_per_sec: u32,
}

impl RateLimiter {
    /// The keys with a bucket and their tokens, in order of first use.
    pub closed spec fn tokens_by_key(&self) -> Seq<(Seq<char>, nat)> {
        self.buckets@.map_values(|p: (String, Bucket)| (p.0@, p.1.tokens()))
    }

    pub closed spec fn rate(&self) -> u32 {
        self.rate_per_sec
    }

    pub closed spec fn wf(&self) -> bool {
        forall|i: int| 0 <= i < self.buckets@.len() ==> (#[trigger] self.buckets@[i]).1.wf(self.rate_per_sec)
    }

    /// A limiter allowing `rate_per_sec` evaluations per second per key.
    pub fn new(rate_per_sec: u32) -> (r: RateLimiter)
        ensures
            r.wf(),
            r.rate() == rate_per_sec,
            r.tokens_by_key().len() == 0,
    {
        let r = RateLimiter { buckets: Vec::new(), rate_per_sec };
        assert(r.tokens_by_key() =~= Seq::<(Seq<char>, nat)>::empty());
        r
    }

    /// Takes `n` tokens from the bucket of `key_id`, which starts full on
    /// first use; `Err` carries the whole seconds to wait.
    pub fn check(&mut self, key_id: &str, n: u32) -> (r: Result<(), u64>)
        requires
            old(self).wf(),
        ensures
            final(self).wf(),
            final(self).rate() == old(self).rate(),
            ({
                let before = old(self).tokens_by_key();
                let after = final(self).tokens_by_key();
                let rate = old(self).rate();
                exists|i: int, e: u64|
                    0 <= i < after.len() && after[i].0 == key_id@ && (forall|j: int|
                        0 <= j < i ==> after[j].0 != key_id@) && (after[i].1, r) == #[trigger] take(
                        refilled(start_tokens(before, i, rate), e, rate),
                        n,
                        rate,
                    ) && (if i < before.len() {
                        after == before.update(i, after[i])
                    } else {
                        i == before.len() && after == before.push(after[i])
                    })
            }),
    {
        let ghost before = self.tokens_by_key();
        let rate = self.rate_per_sec;
        let mut i: usize = 0;
        while i < self.buckets.len()
            invariant
                i <= self.buckets@.len(),
                before == self.tokens_by_key(),
                forall|j: int| 0 <= j < i ==> before[j].0 != key_id@,
            ensures
                i <= self.buckets@.len(),
                before == self.tokens_by_key(),
                forall|j: int| 0 <= j < i ==> before[j].0 != key_id@,
                i < self.buckets@.len() ==> self.buckets@[i as int].0@ == key_id@,
            decreases self.buckets@.len() - i,
        {
            if str_eq(self.buckets[i].0.as_str(), key_id) {
                break;
            }
            i = i + 1;
        }
        let ghost b0 = self.buckets@;
        if i == self.buckets.len() {
            self.buckets.push((owned(key_id), Bucket::new(rate)));
        }
        let ghost b1 = self.buckets@;
        assert(b1[i as int].1.wf(rate));
        assert(b1[i as int].1.tokens() == start_tokens(before, i as int, rate));
        let (k, mut b) = self.buckets.remove(i);
        let ghost t0 = b.tokens();
        let r = b.consume(n, rate);
        let ghost e = choose|e: u64| (b.tokens(), r) == #[trigger] take(refilled(t0, e, rate), n, rate);
        self.buckets.insert(i, (k, b));
        proof {
            let after = self.tokens_by_key();
            assert(self.buckets@ =~= b1.update(i as int, (k, b)));
            assert(after[i as int] == (key_id@, b.tokens()));
            assert forall|j: int| 0 <= j < i implies after[j].0 != key_id@ by {
                assert(after[j] == before[j]);
            }
            assert((after[i as int].1, r) == take(refilled(start_tokens(before, i as int, rate), e, rate), n, rate));
            if (i as int) < before.len() {
                assert(after =~= before.update(i as int, after[i as int]));
            } else {
                assert(after =~= before.push(after[i as int]));
            }
            assert forall|j: int| 0 <= j < self.buckets@.len() implies (#[trigger] self.buckets@[j]).1.wf(
                rate,
            ) by {
                if j != i {
                    assert(self.buckets@[j] == b1[j]);
                }
            }
        }
        r
    }
}

} // verus!
