//! Token-bucket simulation: given a parsed rule and a sequence of request
//! times, decide which requests are allowed and which get throttled.
//!
//! The bucket starts full (steady allowance plus burst available
//! immediately), drains one token per admitted request, and refills
//! continuously at the rule's configured rate. This matches how most
//! gateway rate limiters behave in practice, rather than a fixed-window
//! counter that resets in lockstep and lets requests through unevenly
//! near window boundaries.
//!
//! Amounts of tokens are exact: a token is `period_secs * 10^9` units, and
//! the bucket refills `count` units per nanosecond. So a bucket that has
//! refilled to exactly one token has one, where floating-point amounts can
//! fall just short of it (at 1/sec, ten requests 0.1 s apart refill exactly
//! one token here).

use vstd::prelude::*;
use crate::config::{RateLimit, RuleView};

verus! {

/// Nanoseconds per second.
pub open spec fn nanos_per_sec() -> nat {
    1_000_000_000
}

/// A bucket as plain values, amounts of tokens in units.
pub struct BucketView {
    /// Units in one token: the period in nanoseconds.
    pub unit: nat,
    /// Units added per nanosecond: the rule's count.
    pub rate: nat,
    /// Units the bucket holds when full.
    pub capacity: nat,
    /// Units in the bucket now.
    pub tokens: nat,
    /// Where the bucket stands in time, in nanoseconds.
    pub last: nat,
    /// Whether it refills to capacity at once: a rule with a zero period
    /// refills at an infinite rate.
    pub instant: bool,
}

/// The full bucket for rule `r` at time 0. A rule with a zero period
/// refills at once; its token is one unit.
pub open spec fn fresh_bucket(r: RuleView) -> BucketView {
    if r.period_secs == 0 {
        let capacity: nat = (r.count + r.burst) as nat;
        BucketView { unit: 1, rate: 0, capacity, tokens: capacity, last: 0, instant: true }
    } else {
        let unit: nat = r.period_secs * nanos_per_sec();
        let capacity: nat = ((r.count + r.burst) * unit) as nat;
        BucketView { unit, rate: r.count as nat, capacity, tokens: capacity, last: 0, instant: false }
    }
}

/// A bucket is sound when it holds at most its capacity.
pub open spec fn bucket_ok(b: BucketView) -> bool {
    b.unit >= 1 && b.tokens <= b.capacity
}

/// The smaller of two numbers.
pub open spec fn min_nat(a: nat, b: nat) -> nat {
    if a <= b {
        a
    } else {
        b
    }
}

/// The bucket `b` refilled up to time `at`: nothing is added for a time
/// before where it stands, and it never holds more than its capacity.
pub open spec fn refilled(b: BucketView, at: nat) -> BucketView {
    let elapsed: nat = if at > b.last { (at - b.last) as nat } else { 0 };
    BucketView {
        tokens: if b.instant { b.capacity } else { min_nat(b.tokens + elapsed * b.rate, b.capacity) },
        last: if at > b.last { at } else { b.last },
        ..b
    }
}

/// What admitting one request at time `at` does: the bucket after it and
/// whether the request is allowed. A request is allowed when the refilled
/// bucket holds a whole token, which it takes.
pub open spec fn admit_step(b: BucketView, at: nat) -> (BucketView, bool) {
    let f = refilled(b, at);
    if f.tokens >= f.unit {
        (BucketView { tokens: (f.tokens - f.unit) as nat, ..f }, true)
    } else {
        (f, false)
    }
}

/// The outcome of a request as plain values: allowed or not, and the units
/// left in the bucket.
pub struct OutcomeView {
    pub allowed: bool,
    pub tokens_remaining_units: nat,
    pub units_per_token: nat,
}

/// The outcomes of requests at `times` on bucket `b`, in order.
pub open spec fn run_bucket(b: BucketView, times: Seq<nat>) -> Seq<OutcomeView>
    decreases times.len(),
{
    if times.len() == 0 {
        Seq::empty()
    } else {
        let (b2, allowed) = admit_step(b, times[0]);
        seq![OutcomeView { allowed, tokens_remaining_units: b2.tokens, units_per_token: b2.unit }]
            + run_bucket(b2, times.drop_first())
    }
}

/// The outcome of one request.
#[derive(Debug, Clone, Copy)]
pub struct RequestOutcome {
    pub allowed: bool,
    /// The tokens left in the bucket, in units.
    pub tokens_remaining_units: u128,
    /// The units in one token.
    pub units_per_token: u128,
}

impl View for RequestOutcome {
    type V = OutcomeView;

    open spec fn view(&self) -> OutcomeView {
        OutcomeView {
            allowed: self.allowed,
            tokens_remaining_units: self.tokens_remaining_units as nat,
            units_per_token: self.units_per_token as nat,
        }
    }
}

/// A token bucket for one rule.
pub struct TokenBucket {
    unit: u128,
    rate: u128,
    capacity: u128,
    tokens: u128,
    last: u128,
    instant: bool,
}

impl View for TokenBucket {
    type V = BucketView;

    closed spec fn view(&self) -> BucketView {
        BucketView {
            unit: self.unit as nat,
            rate: self.rate as nat,
            capacity: self.capacity as nat,
            tokens: self.tokens as nat,
            last: self.last as nat,
            instant: self.instant,
        }
    }
}

impl TokenBucket {
    #[verifier::type_invariant]
    spec fn inv(self) -> bool {
        &&& bucket_ok(self@)
        &&& self.rate <= u32::MAX
    }

    /// A full bucket for `rule`, standing at time 0.
    pub fn new(rule: &RateLimit) -> (b: Self)
        ensures
            b@ == fresh_bucket(rule@),
    {
        if rule.period_secs == 0 {
            let capacity = rule.count as u128 + rule.burst as u128;
            return TokenBucket { unit: 1, rate: 0, capacity, tokens: capacity, last: 0, instant: true };
        }
        let unit = rule.period_secs as u128 * 1_000_000_000;
        let tokens_whole = rule.count as u128 + rule.burst as u128;
        proof {
            assert(tokens_whole * unit <= 0x2_0000_0000 * (0x1_0000_0000_0000_0000 * 1_000_000_000))
                by (nonlinear_arith)
                requires
                    tokens_whole <= 0x2_0000_0000,
                    unit <= 0x1_0000_0000_0000_0000 * 1_000_000_000,
            ;
        }
        let capacity = tokens_whole * unit;
        TokenBucket { unit, rate: rule.count as u128, capacity, tokens: capacity, last: 0, instant: false }
    }

    /// Advances the bucket to `at` (nanoseconds) and attempts to admit one
    /// request there. `at` values are expected to be non-decreasing across
    /// calls; a value earlier than the bucket's current position is treated
    /// as arriving at that current position instead of moving time
    /// backwards.
    pub fn admit_at(&mut self, at: u128) -> (r: RequestOutcome)
        ensures
            (final(self)@, r@.allowed) == admit_step(old(self)@, at as nat),
            r@.tokens_remaining_units == final(self)@.tokens,
            r@.units_per_token == final(self)@.unit,
    {
        proof {
            use_type_invariant(&*self);
        }
        let elapsed = if at > self.last {
            at - self.last
        } else {
            0
        };
        let room = self.capacity - self.tokens;
        let ghost b0 = old(self)@;
        let ghost grown: nat = b0.tokens + (elapsed as nat) * b0.rate;
        assert(b0.tokens == self.tokens as nat && b0.rate == self.rate as nat && b0.capacity
            == self.capacity as nat);
        let filled = if self.instant {
            self.capacity
        } else if self.rate == 0 {
            assert((elapsed as nat) * 0 == 0) by (nonlinear_arith);
            assert(grown == b0.tokens);
            self.tokens
        } else if elapsed > room / self.rate {
            proof {
                lemma_overflow_fills(elapsed as nat, room as nat, self.rate as nat);
            }
            assert(grown > b0.capacity);
            self.capacity
        } else {
            proof {
                lemma_within_room(elapsed as nat, room as nat, self.rate as nat);
            }
            assert(grown <= b0.capacity);
            self.tokens + elapsed * self.rate
        };
        let ghost f = refilled(b0, at as nat);
        assert(b0.instant == self.instant);
        assert(!b0.instant ==> f.tokens == min_nat(grown, b0.capacity));
        assert(filled as nat == f.tokens);
        if at > self.last {
            self.last = at;
        }
        if filled >= self.unit {
            self.tokens = filled - self.unit;
            RequestOutcome { allowed: true, tokens_remaining_units: self.tokens, units_per_token: self.unit }
        } else {
            self.tokens = filled;
            RequestOutcome { allowed: false, tokens_remaining_units: self.tokens, units_per_token: self.unit }
        }
    }
}

proof fn lemma_overflow_fills(elapsed: nat, room: nat, rate: nat)
    requires
        rate >= 1,
        elapsed > room / rate,
    ensures
        elapsed * rate > room,
{
    assert(elapsed >= room / rate + 1);
    assert(elapsed * rate >= (room / rate + 1) * rate) by (nonlinear_arith)
        requires
            elapsed >= room / rate + 1,
    ;
    vstd::arithmetic::div_mod::lemma_fundamental_div_mod(room as int, rate as int);
    vstd::arithmetic::div_mod::lemma_mod_bound(room as int, rate as int);
    assert((room / rate + 1) * rate == rate * (room / rate) + rate) by (nonlinear_arith);
}

proof fn lemma_within_room(elapsed: nat, room: nat, rate: nat)
    requires
        rate >= 1,
        elapsed <= room / rate,
    ensures
        elapsed * rate <= room,
{
    assert(elapsed * rate <= (room / rate) * rate) by (nonlinear_arith)
        requires
            elapsed <= room / rate,
    ;
    vstd::arithmetic::div_mod::lemma_fundamental_div_mod(room as int, rate as int);
    vstd::arithmetic::div_mod::lemma_mod_bound(room as int, rate as int);
    assert((room / rate) * rate == rate * (room / rate)) by (nonlinear_arith);
}

/// The outcomes, as plain values.
pub open spec fn outcome_views(v: Seq<RequestOutcome>) -> Seq<OutcomeView> {
    v.map_values(|o: RequestOutcome| o@)
}

/// Runs every time in `at_times` (nanoseconds, assumed non-decreasing)
/// through a fresh bucket for `rule` and returns the outcome for each, in
/// order.
pub fn simulate(rule: &RateLimit, at_times: &[u128]) -> (r: Vec<RequestOutcome>)
    ensures
        outcome_views(r@) == run_bucket(fresh_bucket(rule@), at_times@.map_values(|t: u128| t as nat)),
{
    let ghost times = at_times@.map_values(|t: u128| t as nat);
    let mut bucket = TokenBucket::new(rule);
    let mut outcomes: Vec<RequestOutcome> = Vec::new();
    let mut i: usize = 0;
    assert(times.subrange(0, times.len() as int) =~= times);
    while i < at_times.len()
        invariant
            i <= at_times@.len(),
            times == at_times@.map_values(|t: u128| t as nat),
            run_bucket(fresh_bucket(rule@), times) == outcome_views(outcomes@) + run_bucket(
                bucket@,
                times.subrange(i as int, times.len() as int),
            ),
        decreases at_times@.len() - i,
    {
        let ghost rest = times.subrange(i as int, times.len() as int);
        let ghost before = outcome_views(outcomes@);
        let ghost b_old = bucket@;
        let o = bucket.admit_at(at_times[i]);
        assert(rest[0] == at_times@[i as int] as nat);
        assert(run_bucket(b_old, rest) =~= seq![o@] + run_bucket(bucket@, rest.drop_first()));
        outcomes.push(o);
        assert(rest.drop_first() =~= times.subrange(i + 1, times.len() as int));
        assert(outcome_views(outcomes@) =~= before.push(o@));
        assert(before + run_bucket(b_old, rest) =~= outcome_views(outcomes@) + run_bucket(
            bucket@,
            rest.drop_first(),
        ));
        i = i + 1;
    }
    assert(times.subrange(i as int, times.len() as int) =~= Seq::<nat>::empty());
    assert(outcome_views(outcomes@) + Seq::<OutcomeView>::empty() =~= outcome_views(outcomes@));
    outcomes
}

// ---------------------------------------------------------------------------
// Laws
// ---------------------------------------------------------------------------

/// A bucket never holds more than its capacity: a sound bucket stays sound
/// whatever request it admits, and an allowed request leaves at most the
/// capacity less one token.
pub proof fn lemma_never_above_capacity(b: BucketView, at: nat)
    requires
        bucket_ok(b),
    ensures
        bucket_ok(admit_step(b, at).0),
        admit_step(b, at).1 ==> admit_step(b, at).0.tokens + b.unit <= b.capacity,
{
}

/// A fresh bucket is full and sound.
pub proof fn lemma_fresh_is_full(r: RuleView)
    ensures
        bucket_ok(fresh_bucket(r)),
        fresh_bucket(r).tokens == fresh_bucket(r).capacity,
        fresh_bucket(r).capacity == (r.count + r.burst) * fresh_bucket(r).unit,
{
    if r.period_secs >= 1 {
        assert(r.period_secs * nanos_per_sec() >= 1) by (nonlinear_arith)
            requires
                r.period_secs >= 1,
        ;
    }
}

/// A throttled request takes nothing from the bucket: it only refills.
pub proof fn lemma_throttled_takes_nothing(b: BucketView, at: nat)
    ensures
        !admit_step(b, at).1 ==> admit_step(b, at).0 == refilled(b, at),
{
}

/// A request from before where the bucket stands is treated as arriving at
/// that position.
pub proof fn lemma_past_is_present(b: BucketView, at: nat)
    requires
        bucket_ok(b),
        at <= b.last,
    ensures
        admit_step(b, at) == admit_step(b, b.last),
{
    assert(0nat * b.rate == 0) by (nonlinear_arith);
}

/// Waiting never hurts: a request that a bucket allows at time `t` it also
/// allows at any later time.
pub proof fn lemma_later_is_no_worse(b: BucketView, t: nat, u: nat)
    requires
        bucket_ok(b),
        t <= u,
        admit_step(b, t).1,
    ensures
        admit_step(b, u).1,
{
    let et: nat = if t > b.last { (t - b.last) as nat } else { 0 };
    let eu: nat = if u > b.last { (u - b.last) as nat } else { 0 };
    assert(et <= eu);
    assert(et * b.rate <= eu * b.rate) by (nonlinear_arith)
        requires
            et <= eu,
    ;
}

/// The times `n` requests all arrive at.
pub open spec fn same_time(t: nat, n: nat) -> Seq<nat> {
    Seq::new(n, |i: int| t)
}

/// From a bucket standing at or after `t`, of `n` requests at `t` the
/// `k`-th is allowed exactly when the bucket holds `k + 1` tokens.
proof fn lemma_spike_from(b: BucketView, t: nat, n: nat)
    requires
        bucket_ok(b),
        !b.instant,
        t <= b.last,
    ensures
        run_bucket(b, same_time(t, n)).len() == n,
        forall|k: int|
            0 <= k < n ==> ((#[trigger] run_bucket(b, same_time(t, n))[k]).allowed <==> (k + 1)
                * b.unit <= b.tokens),
    decreases n,
{
    if n > 0 {
        let step = admit_step(b, t);
        let b2 = step.0;
        let allowed = step.1;
        lemma_never_above_capacity(b, t);
        assert(0nat * b.rate == 0) by (nonlinear_arith);
        assert(refilled(b, t) == b);
        assert(allowed <==> b.tokens >= b.unit);
        assert(b2.last == b.last);
        let times = same_time(t, n);
        assert(times[0] == t);
        assert(times.drop_first() =~= same_time(t, (n - 1) as nat));
        lemma_spike_from(b2, t, (n - 1) as nat);
        let rest = run_bucket(b2, same_time(t, (n - 1) as nat));
        let all = run_bucket(b, times);
        assert(all == seq![
            OutcomeView { allowed, tokens_remaining_units: b2.tokens, units_per_token: b2.unit },
        ] + rest);
        assert forall|k: int| 0 <= k < n implies (#[trigger] all[k]).allowed <==> (k + 1) * b.unit
            <= b.tokens by {
            if k == 0 {
                assert(all[0].allowed == allowed);
                assert((0 + 1) * b.unit == b.unit);
            } else {
                assert(all[k] == rest[k - 1]);
                assert(k * b.unit + b.unit == (k + 1) * b.unit) by (nonlinear_arith);
                assert(rest[k - 1].allowed <==> k * b.unit <= b2.tokens);
                if allowed {
                    assert(b2.tokens == b.tokens - b.unit);
                } else {
                    assert(b2.tokens == b.tokens);
                    assert(k * b.unit >= b.unit) by (nonlinear_arith)
                        requires
                            k >= 1,
                    ;
                }
            }
        }
    }
}

/// A full bucket behaves at time `t` as the same bucket refilled to `t`.
proof fn lemma_same_runs(b: BucketView, t: nat, n: nat)
    requires
        bucket_ok(b),
    ensures
        run_bucket(b, same_time(t, n)) == run_bucket(refilled(b, t), same_time(t, n)),
{
    let b1 = refilled(b, t);
    if n > 0 {
        assert(refilled(b1, t) == b1) by {
            assert(0nat * b1.rate == 0) by (nonlinear_arith);
        }
        assert(admit_step(b, t) == admit_step(b1, t));
        assert(same_time(t, n)[0] == t);
    }
}

/// The burst allows an immediate spike: of `n` requests that reach a fresh
/// bucket at the same moment, the first `count + burst` are allowed and the
/// rest are throttled.
pub proof fn lemma_immediate_spike(r: RuleView, t: nat, n: nat)
    requires
        r.period_secs >= 1,
    ensures
        run_bucket(fresh_bucket(r), same_time(t, n)).len() == n,
        forall|k: int|
            0 <= k < n ==> ((#[trigger] run_bucket(fresh_bucket(r), same_time(t, n))[k]).allowed
                <==> k < r.count + r.burst),
{
    let b = fresh_bucket(r);
    lemma_fresh_is_full(r);
    let b1 = refilled(b, t);
    assert(b1.tokens == b.capacity);
    lemma_same_runs(b, t, n);
    lemma_spike_from(b1, t, n);
    let c = r.count + r.burst;
    assert forall|k: int| 0 <= k < n implies (#[trigger] run_bucket(b, same_time(t, n))[k]).allowed
        <==> k < c by {
        assert(run_bucket(b, same_time(t, n))[k] == run_bucket(b1, same_time(t, n))[k]);
        assert((k + 1) * b.unit <= c * b.unit <==> k < c) by (nonlinear_arith)
            requires
                b.unit >= 1,
                k >= 0,
                c >= 0,
        ;
    }
}

/// A rule with a zero period refills at an infinite rate: every request
/// finds its bucket full, is allowed exactly when the bucket holds a token
/// at all, and then leaves one token less.
pub proof fn lemma_zero_period_is_always_full(r: RuleView, times: Seq<nat>, k: int)
    requires
        r.period_secs == 0,
        0 <= k < times.len(),
    ensures
        run_bucket(fresh_bucket(r), times).len() == times.len(),
        run_bucket(fresh_bucket(r), times)[k].allowed == (r.count + r.burst >= 1),
        run_bucket(fresh_bucket(r), times)[k].allowed ==> run_bucket(fresh_bucket(r), times)[k].tokens_remaining_units
            == r.count + r.burst - 1,
{
    lemma_instant_runs(fresh_bucket(r), times, k);
}

proof fn lemma_instant_runs(b: BucketView, times: Seq<nat>, k: int)
    requires
        b.instant,
        b.unit == 1,
        0 <= k < times.len(),
    ensures
        run_bucket(b, times).len() == times.len(),
        run_bucket(b, times)[k].allowed == (b.capacity >= 1),
        run_bucket(b, times)[k].allowed ==> run_bucket(b, times)[k].tokens_remaining_units == b.capacity - 1,
    decreases times.len(),
{
    let (b2, allowed) = admit_step(b, times[0]);
    let rest = run_bucket(b2, times.drop_first());
    assert(run_bucket(b, times) == seq![
        OutcomeView { allowed, tokens_remaining_units: b2.tokens, units_per_token: b2.unit },
    ] + rest);
    if k > 0 {
        lemma_instant_runs(b2, times.drop_first(), k - 1);
    } else if times.len() > 1 {
        lemma_instant_runs(b2, times.drop_first(), 0);
    } else {
        assert(rest =~= Seq::<OutcomeView>::empty());
    }
}

/// A request first refills the bucket at the rule's rate for the time since
/// the bucket's position, up to its capacity, whatever it held, and is then
/// allowed exactly when a whole token is there, which it takes. So a bucket
/// idle long enough to refill its capacity is full again.
pub proof fn lemma_admit_refills(b: BucketView, at: nat)
    requires
        bucket_ok(b),
        !b.instant,
    ensures
        ({
            let elapsed: int = if at > b.last { at - b.last } else { 0 };
            let grown: int = b.tokens + elapsed * b.rate;
            let avail: int = if grown <= b.capacity { grown } else { b.capacity as int };
            let (b2, allowed) = admit_step(b, at);
            &&& allowed == (avail >= b.unit)
            &&& b2.tokens == if allowed { avail - b.unit } else { avail }
            &&& b2.last == if at > b.last { at } else { b.last }
            &&& b2.unit == b.unit && b2.rate == b.rate && b2.capacity == b.capacity && !b2.instant
            &&& (elapsed * b.rate >= b.capacity && b.capacity >= b.unit ==> allowed && b2.tokens == b.capacity
                - b.unit)
        }),
{
    let elapsed: int = if at > b.last { at - b.last } else { 0 };
    assert(elapsed * b.rate >= 0) by (nonlinear_arith)
        requires
            elapsed >= 0,
    ;
}

} // verus!
