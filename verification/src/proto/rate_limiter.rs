use tokio::time::Instant;
use vstd::prelude::*;

verus! {

/// Parts of a token in which a bucket counts: one for each nanosecond of a
/// second, so that a refill of any whole number of nanoseconds is exact.
pub const PARTS_PER_TOKEN: u128 = 1_000_000_000;

/// `tokio::time::Instant`: a moment of the monotonic clock, kept as it is.
#[verifier::external_type_specification]
#[verifier::external_body]
pub struct ExInstant(Instant);

/// `tokio::time::Instant::now`: the present moment of the monotonic clock.
/// Nothing is claimed of it.
#[verifier::external_body]
fn clock_now() -> (now: Instant) {
    Instant::now()
}

/// `tokio::time::Instant::duration_since`, in whole nanoseconds: the time
/// from `earlier` to `later`, zero where `earlier` is the later one. Nothing
/// is claimed of the number.
#[verifier::external_body]
fn nanos_between(earlier: &Instant, later: &Instant) -> (nanos: u128) {
    later.duration_since(*earlier).as_nanos()
}

/// The fill of a bucket, in parts of a token, after `elapsed_nanos`
/// nanoseconds of refill at `rate` tokens per second: never more than
/// `capacity` tokens.
pub open spec fn refilled(level: nat, capacity: nat, rate: nat, elapsed_nanos: nat) -> nat {
    let full = capacity * PARTS_PER_TOKEN as nat;
    if level + elapsed_nanos * rate >= full {
        full
    } else {
        level + elapsed_nanos * rate
    }
}

/// A token bucket that admits byte counts: it holds at most `capacity`
/// tokens, gains `refill_per_sec` tokens each second, and gives one token
/// for each byte that it lets pass.
pub struct RateLimiter {
    capacity: usize,
    tokens: u128,
    refill_per_sec: usize,
    last: Instant,
}

impl RateLimiter {
    /// The most tokens that the bucket holds.
    pub closed spec fn capacity_of(&self) -> nat {
        self.capacity as nat
    }

    /// Tokens gained in a second.
    pub closed spec fn rate_of(&self) -> nat {
        self.refill_per_sec as nat
    }

    /// The fill of the bucket in parts of a token.
    pub closed spec fn level(&self) -> nat {
        self.tokens as nat
    }

    /// The bucket holds no more than its capacity.
    pub closed spec fn wf(&self) -> bool {
        self.tokens <= self.capacity * PARTS_PER_TOKEN
    }

    /// The two buckets have the same size, rate and fill.
    pub open spec fn same_fill(&self, other: &RateLimiter) -> bool {
        &&& self.capacity_of() == other.capacity_of()
        &&& self.rate_of() == other.rate_of()
        &&& self.level() == other.level()
    }

    /// `after` and `ok` are what asking `before` for `n` tokens gives when
    /// `elapsed_nanos` nanoseconds have passed since it was last asked: the
    /// bucket is refilled, and gives the tokens if it holds them all.
    pub open spec fn asked(
        before: &RateLimiter,
        elapsed_nanos: nat,
        n: nat,
        after: &RateLimiter,
        ok: bool,
    ) -> bool {
        let filled = refilled(before.level(), before.capacity_of(), before.rate_of(), elapsed_nanos);
        &&& after.capacity_of() == before.capacity_of()
        &&& after.rate_of() == before.rate_of()
        &&& ok == (filled >= n * PARTS_PER_TOKEN as nat)
        &&& after.level() == if ok {
            (filled - n * PARTS_PER_TOKEN as nat) as nat
        } else {
            filled
        }
    }

    /// A full bucket of `burst` tokens that gains `bytes_per_sec` tokens a
    /// second.
    pub fn new(bytes_per_sec: usize, burst: usize) -> (r: RateLimiter)
        ensures
            r.wf(),
            r.capacity_of() == burst,
            r.rate_of() == bytes_per_sec,
            r.level() == burst * PARTS_PER_TOKEN as nat,
    {
        assert(burst * PARTS_PER_TOKEN <= u128::MAX) by (nonlinear_arith)
            requires
                burst <= u64::MAX,
                PARTS_PER_TOKEN == 1_000_000_000,
        ;
        RateLimiter {
            capacity: burst,
            tokens: burst as u128 * PARTS_PER_TOKEN,
            refill_per_sec: bytes_per_sec,
            last: clock_now(),
        }
    }

    /// Asks for `n` tokens, `elapsed_nanos` nanoseconds after the bucket was
    /// last asked.
    pub fn allow_after(&mut self, elapsed_nanos: u128, n: usize) -> (ok: bool)
        requires
            old(self).wf(),
        ensures
            final(self).wf(),
            RateLimiter::asked(old(self), elapsed_nanos as nat, n as nat, final(self), ok),
    {
        assert(self.capacity * PARTS_PER_TOKEN <= 0xffff_ffff_ffff_ffff * 1_000_000_000) by (
            nonlinear_arith)
            requires
                self.capacity <= u64::MAX,
                PARTS_PER_TOKEN == 1_000_000_000,
        ;
        assert(n * PARTS_PER_TOKEN <= 0xffff_ffff_ffff_ffff * 1_000_000_000) by (nonlinear_arith)
            requires
                n <= u64::MAX,
                PARTS_PER_TOKEN == 1_000_000_000,
        ;
        let full: u128 = self.capacity as u128 * PARTS_PER_TOKEN;
        let room: u128 = full - self.tokens;
        let filled: u128 = match elapsed_nanos.checked_mul(self.refill_per_sec as u128) {
            Some(gain) => if gain >= room {
                full
            } else {
                self.tokens + gain
            },
            None => full,
        };
        self.tokens = filled;
        let cost: u128 = n as u128 * PARTS_PER_TOKEN;
        if self.tokens >= cost {
            self.tokens = self.tokens - cost;
            true
        } else {
            false
        }
    }

    /// Nanoseconds since the bucket was last asked; the count starts anew.
    pub(crate) fn restart_clock(&mut self) -> (elapsed_nanos: u128)
        ensures
            final(self).wf() == old(self).wf(),
            final(self).same_fill(old(self)),
    {
        let now = clock_now();
        let elapsed: u128 = nanos_between(&self.last, &now);
        self.last = now;
        elapsed
    }

    /// Asks for `n` tokens now. The clock decides how much was refilled since
    /// the bucket was last asked: some number of nanoseconds has passed, and
    /// the answer is the one that `allow_after` gives for it.
    pub fn allow(&mut self, n: usize) -> (ok: bool)
        requires
            old(self).wf(),
        ensures
            final(self).wf(),
            exists|elapsed_nanos: nat| #[trigger]
                RateLimiter::asked(old(self), elapsed_nanos, n as nat, final(self), ok),
    {
        let elapsed: u128 = self.restart_clock();
        let ok = self.allow_after(elapsed, n);
        proof {
            assert(RateLimiter::asked(old(self), elapsed as nat, n as nat, self, ok));
        }
        ok
    }
}

} // verus!
