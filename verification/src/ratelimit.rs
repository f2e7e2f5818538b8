//! Token-bucket rate limiting, one bucket per client address.
//!
//! A bucket holds up to `burst` tokens and refills evenly at `per_minute`
//! tokens a minute; a request takes one token or is refused with the
//! number of seconds until one is back. Addresses idle for ten minutes are
//! forgotten now and then, once many are remembered.
//!
//! Token counts are exact: a bucket counts in units of `1 / TOKEN_UNITS`
//! token, so that `elapsed_nanos × per_minute` units accrue exactly.
//! Instants are nanoseconds on a monotonic clock.
use std::collections::HashMap;

use vstd::prelude::*;

use crate::text::{chars_eq, chars_of, split_chars, split_on, string_of, trim, trim_chars};

verus! {

broadcast use vstd::std_specs::hash::group_hash_axioms;

/// The whole API: 30 requests a second per address, 60 in a burst.
pub const API_PER_MINUTE: u64 = 1800;

pub const API_BURST: u64 = 60;

/// Logging in: 12 a minute per address, 5 in a burst.
pub const LOGIN_PER_MINUTE: u64 = 12;

pub const LOGIN_BURST: u64 = 5;

/// One token, in bucket units: a minute in nanoseconds.
pub const TOKEN_UNITS: u128 = 60_000_000_000;

/// How long an address may stay quiet before it may be forgotten.
pub const IDLE_NANOS: u64 = 600_000_000_000;

/// From this many remembered addresses on, idle ones are swept out now and
/// then (every 64th request).
pub const SWEEP_AT: u64 = 256;

pub const NANOS_PER_SECOND: u128 = 1_000_000_000;

/// A client address: IPv4 or IPv6, as its number.
#[derive(PartialEq, Eq, Structural, Clone, Copy, Debug)]
pub enum Ip {
    V4(u32),
    V6(u128),
}

/// What a bucket holds for one address.
#[derive(PartialEq, Eq, Structural, Clone, Copy, Debug)]
pub struct Bucket {
    /// Tokens, in `TOKEN_UNITS` per token.
    pub tokens: u128,
    /// When the bucket was last refilled.
    pub last: u64,
}

/// A limiter as a value: its rate, its burst, the buckets of both address
/// families, and the count of requests that met a full table.
pub struct LimiterView {
    pub per_minute: u64,
    pub burst: u64,
    pub v4: Map<u32, Bucket>,
    pub v6: Map<u128, Bucket>,
    pub ticks: u64,
}

/// A bucket's capacity in units.
pub open spec fn capacity(s: LimiterView) -> int {
    s.burst * TOKEN_UNITS
}

/// Every bucket holds at most the burst.
pub open spec fn limiter_ok(s: LimiterView) -> bool {
    &&& forall|k: u32| #[trigger] s.v4.contains_key(k) ==> s.v4[k].tokens <= capacity(s)
    &&& forall|k: u128| #[trigger] s.v6.contains_key(k) ==> s.v6[k].tokens <= capacity(s)
}

pub open spec fn bucket_at(s: LimiterView, ip: Ip) -> Option<Bucket> {
    match ip {
        Ip::V4(a) => if s.v4.contains_key(a) {
            Some(s.v4[a])
        } else {
            None
        },
        Ip::V6(a) => if s.v6.contains_key(a) {
            Some(s.v6[a])
        } else {
            None
        },
    }
}

pub open spec fn with_bucket(s: LimiterView, ip: Ip, b: Bucket) -> LimiterView {
    match ip {
        Ip::V4(a) => LimiterView { v4: s.v4.insert(a, b), ..s },
        Ip::V6(a) => LimiterView { v6: s.v6.insert(a, b), ..s },
    }
}

pub open spec fn since(now: u64, last: u64) -> int {
    if now >= last {
        now - last
    } else {
        0
    }
}

/// A bucket used less than `IDLE_NANOS` ago.
pub open spec fn recent(b: Bucket, now: u64) -> bool {
    since(now, b.last) < IDLE_NANOS
}

pub open spec fn recent_v4(m: Map<u32, Bucket>, now: u64) -> Map<u32, Bucket> {
    Map::new(|k: u32| m.contains_key(k) && recent(m[k], now), |k: u32| m[k])
}

pub open spec fn recent_v6(m: Map<u128, Bucket>, now: u64) -> Map<u128, Bucket> {
    Map::new(|k: u128| m.contains_key(k) && recent(m[k], now), |k: u128| m[k])
}

pub open spec fn address_count(s: LimiterView) -> int {
    (s.v4.dom().len() + s.v6.dom().len()) as int
}

/// The housekeeping before a request: with `SWEEP_AT` or more addresses
/// remembered, the request is counted, and every 64th such request forgets the
/// idle addresses.
pub open spec fn swept(s: LimiterView, now: u64) -> LimiterView {
    if address_count(s) >= SWEEP_AT {
        let ticks = ((s.ticks + 1) % 0x1_0000_0000_0000_0000) as u64;
        if s.ticks % 64 == 0 {
            LimiterView { v4: recent_v4(s.v4, now), v6: recent_v6(s.v6, now), ticks, ..s }
        } else {
            LimiterView { ticks, ..s }
        }
    } else {
        s
    }
}

/// The tokens of a bucket at `now`: what it held plus what accrued since,
/// up to the capacity.
pub open spec fn refilled(s: LimiterView, b: Bucket, now: u64) -> int {
    let t = b.tokens + since(now, b.last) * s.per_minute;
    if t < capacity(s) {
        t
    } else {
        capacity(s)
    }
}

/// The whole seconds until a bucket holding `t` units has a token again
/// (`u64::MAX` for a limiter that never refills).
pub open spec fn wait_secs(s: LimiterView, t: int) -> int {
    if s.per_minute == 0 {
        u64::MAX as int
    } else {
        (TOKEN_UNITS - t + s.per_minute * NANOS_PER_SECOND - 1) / (s.per_minute * NANOS_PER_SECOND)
    }
}

/// One request from `ip` at `now`: the limiter afterwards, and whether the
/// request goes ahead (`Err` carries the seconds to wait). An address seen
/// for the first time starts with a full bucket.
pub open spec fn step(s: LimiterView, ip: Ip, now: u64) -> (LimiterView, Result<(), u64>) {
    let s1 = swept(s, now);
    let b = match bucket_at(s1, ip) {
        Some(b) => b,
        None => Bucket { tokens: capacity(s1) as u128, last: now },
    };
    let t = refilled(s1, b, now);
    if t >= TOKEN_UNITS {
        (with_bucket(s1, ip, Bucket { tokens: (t - TOKEN_UNITS) as u128, last: now }), Ok(()))
    } else {
        (with_bucket(s1, ip, Bucket { tokens: t as u128, last: now }), Err(wait_secs(s1, t) as u64))
    }
}

/// A token-bucket limiter.
pub struct Limiter {
    per_minute: u64,
    burst: u64,
    v4: HashMap<u32, Bucket>,
    v6: HashMap<u128, Bucket>,
    ticks: u64,
}

impl View for Limiter {
    type V = LimiterView;

    closed spec fn view(&self) -> LimiterView {
        LimiterView {
            per_minute: self.per_minute,
            burst: self.burst,
            v4: self.v4@,
            v6: self.v6@,
            ticks: self.ticks,
        }
    }
}

fn recent_only_v4(m: &HashMap<u32, Bucket>, now: u64) -> (r: HashMap<u32, Bucket>)
    ensures
        r@ == recent_v4(m@, now),
{
    let mut out: HashMap<u32, Bucket> = HashMap::new();
    for pair in it: m.iter()
        invariant
            forall|k: u32|
                #[trigger] out@.contains_key(k) ==> m@.contains_key(k) && recent(m@[k], now)
                    && out@[k] == m@[k],
            forall|i: int|
                0 <= i < it.index() && recent(*it.seq()[i].1, now) ==> #[trigger] out@.contains_key(
                    *it.seq()[i].0,
                ),
            forall|k: u32| #[trigger] m@.contains_key(k) ==> it.seq().contains((&k, &m@[k])),
            forall|i: int|
                0 <= i < it.seq().len() ==> m@.contains_key(*it.seq()[i].0) && m@[*it.seq()[i].0]
                    == *it.seq()[i].1,
        ensures
            forall|k: u32| #[trigger] m@.contains_key(k) && recent(m@[k], now) ==> out@.contains_key(k),
    {
        let (k, b) = pair;
        if now < b.last || now - b.last < IDLE_NANOS {
            out.insert(*k, *b);
        }
    }
    assert(out@ =~= recent_v4(m@, now));
    out
}

fn recent_only_v6(m: &HashMap<u128, Bucket>, now: u64) -> (r: HashMap<u128, Bucket>)
    ensures
        r@ == recent_v6(m@, now),
{
    let mut out: HashMap<u128, Bucket> = HashMap::new();
    for pair in it: m.iter()
        invariant
            forall|k: u128|
                #[trigger] out@.contains_key(k) ==> m@.contains_key(k) && recent(m@[k], now)
                    && out@[k] == m@[k],
            forall|i: int|
                0 <= i < it.index() && recent(*it.seq()[i].1, now) ==> #[trigger] out@.contains_key(
                    *it.seq()[i].0,
                ),
            forall|k: u128| #[trigger] m@.contains_key(k) ==> it.seq().contains((&k, &m@[k])),
            forall|i: int|
                0 <= i < it.seq().len() ==> m@.contains_key(*it.seq()[i].0) && m@[*it.seq()[i].0]
                    == *it.seq()[i].1,
        ensures
            forall|k: u128| #[trigger] m@.contains_key(k) && recent(m@[k], now) ==> out@.contains_key(k),
    {
        let (k, b) = pair;
        if now < b.last || now - b.last < IDLE_NANOS {
            out.insert(*k, *b);
        }
    }
    assert(out@ =~= recent_v6(m@, now));
    out
}

impl Limiter {
    /// A limiter refilling `per_minute` tokens a minute, holding at most
    /// `burst`, tracking no address yet.
    pub fn new(per_minute: u64, burst: u64) -> (l: Limiter)
        ensures
            l@.per_minute == per_minute,
            l@.burst == burst,
            l@.v4 == Map::<u32, Bucket>::empty(),
            l@.v6 == Map::<u128, Bucket>::empty(),
            l@.ticks == 0,
            limiter_ok(l@),
    {
        Limiter { per_minute, burst, v4: HashMap::new(), v6: HashMap::new(), ticks: 0 }
    }

    /// The loose limiter of the whole API.
    pub fn api() -> (l: Limiter)
        ensures
            l@.per_minute == API_PER_MINUTE,
            l@.burst == API_BURST,
            l@.v4 == Map::<u32, Bucket>::empty(),
            l@.v6 == Map::<u128, Bucket>::empty(),
            l@.ticks == 0,
            limiter_ok(l@),
    {
        Limiter::new(API_PER_MINUTE, API_BURST)
    }

    /// The tight limiter of the login.
    pub fn login() -> (l: Limiter)
        ensures
            l@.per_minute == LOGIN_PER_MINUTE,
            l@.burst == LOGIN_BURST,
            l@.v4 == Map::<u32, Bucket>::empty(),
            l@.v6 == Map::<u128, Bucket>::empty(),
            l@.ticks == 0,
            limiter_ok(l@),
    {
        Limiter::new(LOGIN_PER_MINUTE, LOGIN_BURST)
    }

    fn bucket(&self, ip: Ip) -> (b: Option<Bucket>)
        ensures
            b == bucket_at(self@, ip),
    {
        match ip {
            Ip::V4(a) => match self.v4.get(&a) {
                Some(b) => Some(*b),
                None => None,
            },
            Ip::V6(a) => match self.v6.get(&a) {
                Some(b) => Some(*b),
                None => None,
            },
        }
    }

    fn put(&mut self, ip: Ip, b: Bucket)
        ensures
            final(self)@ == with_bucket(old(self)@, ip, b),
    {
        match ip {
            Ip::V4(a) => {
                self.v4.insert(a, b);
            },
            Ip::V6(a) => {
                self.v6.insert(a, b);
            },
        }
    }

    /// Asks for one token for `ip` at `now`: `Err` carries the whole
    /// seconds until a token is back.
    pub fn check(&mut self, ip: Ip, now: u64) -> (r: Result<(), u64>)
        requires
            limiter_ok(old(self)@),
        ensures
            (final(self)@, r) == step(old(self)@, ip, now),
            limiter_ok(final(self)@),
    {
        let ghost s0 = self@;
        let count = self.v4.len() as u128 + self.v6.len() as u128;
        if count >= SWEEP_AT as u128 {
            let t = self.ticks;
            self.ticks = if t == u64::MAX {
                0
            } else {
                t + 1
            };
            if t % 64 == 0 {
                let v4 = recent_only_v4(&self.v4, now);
                let v6 = recent_only_v6(&self.v6, now);
                self.v4 = v4;
                self.v6 = v6;
            }
        }
        let ghost s1 = self@;
        assert(s1 == swept(s0, now));
        let cap = (self.burst as u128) * TOKEN_UNITS;
        let b = match self.bucket(ip) {
            Some(b) => b,
            None => Bucket { tokens: cap, last: now },
        };
        assert(b.tokens <= cap);
        let elapsed: u64 = if now >= b.last {
            now - b.last
        } else {
            0
        };
        assert((elapsed as u128) * (self.per_minute as u128) <= u128::MAX) by (nonlinear_arith)
            requires
                elapsed <= u64::MAX,
                self.per_minute <= u64::MAX,
        {
            assert((elapsed as int) * (self.per_minute as int) <= (u64::MAX as int) * (u64::MAX as int));
        }
        let gain = (elapsed as u128) * (self.per_minute as u128);
        let t = if gain >= cap - b.tokens {
            cap
        } else {
            b.tokens + gain
        };
        assert(t == refilled(s1, b, now));
        if t >= TOKEN_UNITS {
            self.put(ip, Bucket { tokens: t - TOKEN_UNITS, last: now });
            Ok(())
        } else {
            let wait = if self.per_minute == 0 {
                u64::MAX
            } else {
                let d = (self.per_minute as u128) * NANOS_PER_SECOND;
                let q = (TOKEN_UNITS - t + d - 1) / d;
                assert(q <= TOKEN_UNITS) by (nonlinear_arith)
                    requires
                        d >= 1,
                        q as int == (TOKEN_UNITS - t + d - 1) as int / d as int,
                        t < TOKEN_UNITS,
                {
                    assert(TOKEN_UNITS - t + d - 1 <= TOKEN_UNITS * d);
                }
                q as u64
            };
            self.put(ip, Bucket { tokens: t, last: now });
            Err(wait)
        }
    }
}

// ------------------------------------------------------------------ laws

/// `k` requests in a row from `ip`, all at `now`.
pub open spec fn repeat(s: LimiterView, ip: Ip, now: u64, k: nat) -> LimiterView
    decreases k,
{
    if k == 0 {
        s
    } else {
        step(repeat(s, ip, now, (k - 1) as nat), ip, now).0
    }
}

proof fn lemma_step_keeps(s: LimiterView, ip: Ip, now: u64)
    requires
        limiter_ok(s),
    ensures
        limiter_ok(step(s, ip, now).0),
        step(s, ip, now).0.per_minute == s.per_minute,
        step(s, ip, now).0.burst == s.burst,
        bucket_at(step(s, ip, now).0, ip) is Some,
        bucket_at(step(s, ip, now).0, ip)->0.last == now,
{
    let s1 = swept(s, now);
    assert(limiter_ok(s1)) by {
        if address_count(s) >= SWEEP_AT && s.ticks % 64 == 0 {
            assert forall|k: u32| #[trigger] s1.v4.contains_key(k) implies s1.v4[k].tokens <= capacity(
                s1,
            ) by {
                assert(s.v4.contains_key(k));
            }
            assert forall|k: u128| #[trigger] s1.v6.contains_key(k) implies s1.v6[k].tokens
                <= capacity(s1) by {
                assert(s.v6.contains_key(k));
            }
        }
    }
}

proof fn lemma_swept_keeps_recent(s: LimiterView, ip: Ip, now: u64)
    ensures
        bucket_at(swept(s, now), ip) is Some ==> bucket_at(swept(s, now), ip) == bucket_at(s, ip),
        (bucket_at(s, ip) matches Some(b) && recent(b, now)) ==> bucket_at(swept(s, now), ip)
            == bucket_at(s, ip),
        swept(s, now).per_minute == s.per_minute,
        swept(s, now).burst == s.burst,
{
}

proof fn lemma_repeat(s: LimiterView, ip: Ip, now: u64, k: nat)
    requires
        limiter_ok(s),
        bucket_at(s, ip) is None,
        1 <= k <= s.burst,
    ensures
        bucket_at(repeat(s, ip, now, k), ip) == Some(
            Bucket { tokens: ((s.burst - k) * TOKEN_UNITS) as u128, last: now },
        ),
        repeat(s, ip, now, k).per_minute == s.per_minute,
        repeat(s, ip, now, k).burst == s.burst,
        limiter_ok(repeat(s, ip, now, k)),
    decreases k,
{
    let prev = repeat(s, ip, now, (k - 1) as nat);
    assert(repeat(s, ip, now, k) == step(prev, ip, now).0);
    assert((s.burst - k) * TOKEN_UNITS + TOKEN_UNITS == (s.burst - (k - 1)) * TOKEN_UNITS)
        by (nonlinear_arith);
    assert(0 <= (s.burst - k) * TOKEN_UNITS <= s.burst * TOKEN_UNITS) by (nonlinear_arith)
        requires
            1 <= k <= s.burst,
    ;
    if k == 1 {
        assert(prev == s);
        lemma_swept_keeps_recent(s, ip, now);
        lemma_step_keeps(s, ip, now);
    } else {
        lemma_repeat(s, ip, now, (k - 1) as nat);
        assert(0 <= (s.burst - (k - 1)) * TOKEN_UNITS <= s.burst * TOKEN_UNITS) by (nonlinear_arith)
            requires
                1 <= k - 1 <= s.burst,
        ;
        lemma_swept_keeps_recent(prev, ip, now);
        lemma_step_keeps(prev, ip, now);
        let s1 = swept(prev, now);
        let b = Bucket { tokens: ((s.burst - (k - 1)) * TOKEN_UNITS) as u128, last: now };
        assert(bucket_at(s1, ip) == Some(b));
        assert(refilled(s1, b, now) == (s.burst - (k - 1)) * TOKEN_UNITS);
    }
}

/// The bucket of `ip` is full again at `now`: it has none yet, or it has
/// waited long enough for a whole burst to accrue.
pub open spec fn rested(s: LimiterView, ip: Ip, now: u64) -> bool {
    match bucket_at(s, ip) {
        Some(b) => b.last <= now && (now - b.last) * s.per_minute >= s.burst * TOKEN_UNITS,
        None => true,
    }
}

proof fn lemma_rested_step(s: LimiterView, ip: Ip, now: u64)
    requires
        limiter_ok(s),
        rested(s, ip, now),
        s.burst >= 1,
    ensures
        bucket_at(step(s, ip, now).0, ip) == Some(
            Bucket { tokens: ((s.burst - 1) * TOKEN_UNITS) as u128, last: now },
        ),
        step(s, ip, now).1 is Ok,
{
    let s1 = swept(s, now);
    lemma_swept_keeps_recent(s, ip, now);
    assert(s.burst * TOKEN_UNITS >= TOKEN_UNITS) by (nonlinear_arith)
        requires
            s.burst >= 1,
    ;
    assert((s.burst - 1) * TOKEN_UNITS + TOKEN_UNITS == s.burst * TOKEN_UNITS) by (nonlinear_arith);
    assert(0 <= (s.burst - 1) * TOKEN_UNITS) by (nonlinear_arith)
        requires
            s.burst >= 1,
    ;
    match bucket_at(s1, ip) {
        Some(b) => {
            assert(bucket_at(s, ip) == Some(b));
            assert(since(now, b.last) == now - b.last);
            assert(refilled(s1, b, now) == capacity(s1));
        },
        None => {},
    }
}

proof fn lemma_repeat_rested(s: LimiterView, ip: Ip, now: u64, k: nat)
    requires
        limiter_ok(s),
        rested(s, ip, now),
        1 <= k <= s.burst,
    ensures
        bucket_at(repeat(s, ip, now, k), ip) == Some(
            Bucket { tokens: ((s.burst - k) * TOKEN_UNITS) as u128, last: now },
        ),
        repeat(s, ip, now, k).per_minute == s.per_minute,
        repeat(s, ip, now, k).burst == s.burst,
        limiter_ok(repeat(s, ip, now, k)),
    decreases k,
{
    let prev = repeat(s, ip, now, (k - 1) as nat);
    assert(repeat(s, ip, now, k) == step(prev, ip, now).0);
    assert((s.burst - k) * TOKEN_UNITS + TOKEN_UNITS == (s.burst - (k - 1)) * TOKEN_UNITS)
        by (nonlinear_arith);
    assert(0 <= (s.burst - k) * TOKEN_UNITS <= s.burst * TOKEN_UNITS) by (nonlinear_arith)
        requires
            1 <= k <= s.burst,
    ;
    if k == 1 {
        assert(prev == s);
        lemma_rested_step(s, ip, now);
        lemma_step_keeps(s, ip, now);
    } else {
        lemma_repeat_rested(s, ip, now, (k - 1) as nat);
        assert(0 <= (s.burst - (k - 1)) * TOKEN_UNITS <= s.burst * TOKEN_UNITS) by (nonlinear_arith)
            requires
                1 <= k - 1 <= s.burst,
        ;
        lemma_swept_keeps_recent(prev, ip, now);
        lemma_step_keeps(prev, ip, now);
        let s1 = swept(prev, now);
        let b = Bucket { tokens: ((s.burst - (k - 1)) * TOKEN_UNITS) as u128, last: now };
        assert(bucket_at(s1, ip) == Some(b));
        assert(refilled(s1, b, now) == (s.burst - (k - 1)) * TOKEN_UNITS);
    }
}

/// Law: an address that has stayed quiet long enough for a whole burst to
/// accrue (`burst` tokens at `per_minute` a minute) has its whole burst
/// back, however it was drained before: `burst` requests at one instant all
/// go ahead. A drained bucket refills all the way to `burst`, not only to
/// one token.
pub proof fn quiet_address_regains_burst(s: LimiterView, ip: Ip, now: u64, k: nat)
    requires
        limiter_ok(s),
        rested(s, ip, now),
        k < s.burst,
    ensures
        step(repeat(s, ip, now, k), ip, now).1 is Ok,
{
    if k == 0 {
        assert(repeat(s, ip, now, k) == s);
        lemma_rested_step(s, ip, now);
    } else {
        lemma_repeat_rested(s, ip, now, k);
        let r = repeat(s, ip, now, k);
        lemma_swept_keeps_recent(r, ip, now);
        assert((s.burst - k) * TOKEN_UNITS >= TOKEN_UNITS) by (nonlinear_arith)
            requires
                k < s.burst,
        ;
        let b = Bucket { tokens: ((s.burst - k) * TOKEN_UNITS) as u128, last: now };
        assert(bucket_at(swept(r, now), ip) == Some(b));
        assert(refilled(swept(r, now), b, now) == (s.burst - k) * TOKEN_UNITS);
    }
}

/// Law: tokens come back at exactly `per_minute` a minute. A drained
/// bucket last used at `t0` lets the next request through at `later`
/// exactly when a whole token has accrued since, that is when
/// `(later - t0) × per_minute` reaches a minute's worth of nanoseconds.
pub proof fn drained_bucket_waits_for_one_token(s: LimiterView, ip: Ip, t0: u64, later: u64)
    requires
        limiter_ok(s),
        s.burst >= 1,
        bucket_at(s, ip) == Some(Bucket { tokens: 0, last: t0 }),
        t0 <= later,
        later - t0 < IDLE_NANOS,
    ensures
        step(s, ip, later).1 is Ok <==> (later - t0) * s.per_minute >= TOKEN_UNITS,
{
    lemma_swept_keeps_recent(s, ip, later);
    let b = Bucket { tokens: 0, last: t0 };
    assert(recent(b, later));
    assert(bucket_at(swept(s, later), ip) == Some(b));
    assert(since(later, t0) == later - t0);
    assert(s.burst * TOKEN_UNITS >= TOKEN_UNITS) by (nonlinear_arith)
        requires
            s.burst >= 1,
    ;
}

/// Law: after draining, waiting is what brings the burst back. From a
/// drained bucket last used at `t0`, a wait of `burst` tokens' refill time
/// lets `burst` requests at one instant go ahead.
pub proof fn drained_bucket_refills_to_burst(
    s: LimiterView,
    ip: Ip,
    t0: u64,
    later: u64,
    k: nat,
)
    requires
        limiter_ok(s),
        bucket_at(s, ip) == Some(Bucket { tokens: 0, last: t0 }),
        later >= t0,
        (later - t0) * s.per_minute >= s.burst * TOKEN_UNITS,
        k < s.burst,
    ensures
        step(repeat(s, ip, later, k), ip, later).1 is Ok,
{
    quiet_address_regains_burst(s, ip, later, k);
}

/// An address new to the limiter can make `burst` requests at once; the
/// next one is refused, told to wait until a token has accrued.
pub proof fn burst_runs_out(s: LimiterView, ip: Ip, now: u64, k: nat)
    requires
        limiter_ok(s),
        bucket_at(s, ip) is None,
        k <= s.burst,
    ensures
        k < s.burst ==> step(repeat(s, ip, now, k), ip, now).1 is Ok,
        k == s.burst ==> step(repeat(s, ip, now, k), ip, now).1 == Err::<(), u64>(
            wait_secs(s, 0) as u64,
        ),
{
    if k == 0 {
        assert(repeat(s, ip, now, k) == s);
        lemma_swept_keeps_recent(s, ip, now);
        assert(s.burst * TOKEN_UNITS >= TOKEN_UNITS || s.burst == 0) by (nonlinear_arith);
    } else {
        lemma_repeat(s, ip, now, k);
        let r = repeat(s, ip, now, k);
        lemma_swept_keeps_recent(r, ip, now);
        assert(0 <= (s.burst - k) * TOKEN_UNITS <= s.burst * TOKEN_UNITS) by (nonlinear_arith)
            requires
                1 <= k <= s.burst,
        ;
        assert(k < s.burst ==> (s.burst - k) * TOKEN_UNITS >= TOKEN_UNITS) by (nonlinear_arith);
        let b = Bucket { tokens: ((s.burst - k) * TOKEN_UNITS) as u128, last: now };
        assert(bucket_at(swept(r, now), ip) == Some(b));
        assert(refilled(swept(r, now), b, now) == (s.burst - k) * TOKEN_UNITS);
    }
}

/// An address new to the limiter goes ahead, whatever other addresses did.
pub proof fn new_address_goes_ahead(s: LimiterView, ip: Ip, now: u64)
    requires
        bucket_at(s, ip) is None,
        s.burst >= 1,
    ensures
        step(s, ip, now).1 is Ok,
{
    lemma_swept_keeps_recent(s, ip, now);
    assert(s.burst * TOKEN_UNITS >= TOKEN_UNITS) by (nonlinear_arith)
        requires
            s.burst >= 1,
    ;
}

/// A request from one address leaves every other address's bucket as it
/// was, except that the housekeeping may forget buckets idle for
/// `IDLE_NANOS`.
pub proof fn other_addresses_untouched(s: LimiterView, ip: Ip, other: Ip, now: u64)
    requires
        ip != other,
    ensures
        bucket_at(step(s, ip, now).0, other) is Some ==> bucket_at(step(s, ip, now).0, other)
            == bucket_at(s, other),
        (bucket_at(s, other) matches Some(b) && recent(b, now)) ==> bucket_at(step(s, ip, now).0, other)
            == bucket_at(s, other),
{
    lemma_swept_keeps_recent(s, other, now);
}

/// The wait a refusal names is enough: after it, the same address goes
/// ahead again.
pub proof fn retry_after_is_enough(s: LimiterView, ip: Ip, now: u64, w: u64, later: u64)
    requires
        limiter_ok(s),
        s.burst >= 1,
        s.per_minute >= 1,
        step(s, ip, now).1 == Err::<(), u64>(w),
        later >= now + w * NANOS_PER_SECOND,
    ensures
        step(step(s, ip, now).0, ip, later).1 is Ok,
{
    let s1 = swept(s, now);
    lemma_swept_keeps_recent(s, ip, now);
    let b = match bucket_at(s1, ip) {
        Some(b) => b,
        None => Bucket { tokens: capacity(s1) as u128, last: now },
    };
    let t = refilled(s1, b, now);
    assert(t < TOKEN_UNITS);
    assert(0 <= t);
    let d = s.per_minute * NANOS_PER_SECOND;
    let a = TOKEN_UNITS - t;
    let q = (a + d - 1) / d;
    assert(q * d >= a && q <= TOKEN_UNITS) by (nonlinear_arith)
        requires
            d >= 1,
            a >= 1,
            a <= TOKEN_UNITS,
            q == (a + d - 1) / d,
    {
        vstd::arithmetic::div_mod::lemma_fundamental_div_mod(a + d - 1, d);
    }
    assert(w == q);
    let s2 = step(s, ip, now).0;
    lemma_step_keeps(s, ip, now);
    assert(bucket_at(s2, ip) == Some(Bucket { tokens: t as u128, last: now }));
    lemma_swept_keeps_recent(s2, ip, later);
    assert(s.burst * TOKEN_UNITS >= TOKEN_UNITS) by (nonlinear_arith)
        requires
            s.burst >= 1,
    ;
    assert((later - now) * s.per_minute >= q * d) by (nonlinear_arith)
        requires
            later - now >= q * NANOS_PER_SECOND,
            d == s.per_minute * NANOS_PER_SECOND,
            s.per_minute >= 1,
            q >= 0,
    ;
}

// ------------------------------------------------------------------ addresses

/// Addresses of this machine or of a private network, whose requests come
/// through a proxy of ours: IPv4 loopback (`127.0.0.0/8`), private
/// (`10.0.0.0/8`, `172.16.0.0/12`, `192.168.0.0/16`), link-local
/// (`169.254.0.0/16`) and unspecified; IPv6 loopback, unique local
/// (`fc00::/7`), link-local (`fe80::/10`) and unspecified.
pub open spec fn is_private_spec(ip: Ip) -> bool {
    match ip {
        Ip::V4(x) => {
            let a = x / 0x100_0000;
            let b = (x / 0x1_0000) % 0x100;
            ||| a == 127
            ||| a == 10
            ||| (a == 172 && 16 <= b <= 31)
            ||| (a == 192 && b == 168)
            ||| (a == 169 && b == 254)
            ||| x == 0
        },
        Ip::V6(x) => {
            let first = x / 0x1_0000_0000_0000_0000_0000_0000_0000;
            ||| x == 1
            ||| 0xfc00 <= first <= 0xfdff
            ||| 0xfe80 <= first <= 0xfebf
            ||| x == 0
        },
    }
}

pub fn is_private(ip: Ip) -> (r: bool)
    ensures
        r == is_private_spec(ip),
{
    match ip {
        Ip::V4(x) => {
            let a = x / 0x100_0000;
            let b = (x / 0x1_0000) % 0x100;
            a == 127 || a == 10 || (a == 172 && 16 <= b && b <= 31) || (a == 192 && b == 168) || (a
                == 169 && b == 254) || x == 0
        },
        Ip::V6(x) => {
            let first = x / 0x1_0000_0000_0000_0000_0000_0000_0000;
            x == 1 || (0xfc00 <= first && first <= 0xfdff) || (0xfe80 <= first && first <= 0xfebf)
                || x == 0
        },
    }
}

/// The first entry of an `X-Forwarded-For` (or `X-Real-IP`) value,
/// trimmed: the client as the nearest proxy saw it.
pub fn first_forwarded(value: &str) -> (r: String)
    ensures
        r@ == trim(split_on(value@, ',')[0]),
{
    let parts = split_chars(&chars_of(value), ',');
    proof {
        crate::text::lemma_split_len(value@, ',');
        assert(parts@.map_values(|p: Vec<char>| p@)[0] == parts@[0]@);
    }
    string_of(&trim_chars(&parts[0]))
}

/// Which address a request counts for: behind a proxy of ours (the peer is
/// private) the forwarded client, when there is one; otherwise the peer,
/// since anyone can forge the header on a direct connection.
pub open spec fn client_ip_spec(forwarded: Option<Ip>, peer: Option<Ip>) -> Option<Ip> {
    match peer {
        Some(p) => if is_private_spec(p) && forwarded is Some {
            forwarded
        } else {
            Some(p)
        },
        None => None,
    }
}

/// `forwarded` is the address the first forwarded entry parses as, if any.
pub fn client_ip(forwarded: Option<Ip>, peer: Option<Ip>) -> (r: Option<Ip>)
    ensures
        r == client_ip_spec(forwarded, peer),
{
    match peer {
        Some(p) => if is_private(p) && forwarded.is_some() {
            forwarded
        } else {
            Some(p)
        },
        None => None,
    }
}

/// The path of the login, which only its own limiter counts.
pub const LOGIN_PATH: &'static str = "/api/auth/login";

pub fn is_login_path(path: &str) -> (r: bool)
    ensures
        r == (path@ == LOGIN_PATH@),
{
    chars_eq(&chars_of(path), &chars_of(LOGIN_PATH))
}

/// Whether a request goes ahead: with limiting off, for an exempt request,
/// or without a known client address it does; otherwise its address asks
/// the limiter for a token.
pub fn let_through(limiter: &mut Limiter, enabled: bool, exempt: bool, ip: Option<Ip>, now: u64) -> (r: Result<(), u64>)
    requires
        limiter_ok(old(limiter)@),
    ensures
        limiter_ok(final(limiter)@),
        !enabled || exempt || ip is None ==> r is Ok && final(limiter)@ == old(limiter)@,
        enabled && !exempt && ip is Some ==> (final(limiter)@, r) == step(old(limiter)@, ip->0, now),
{
    if !enabled || exempt {
        return Ok(());
    }
    match ip {
        Some(a) => limiter.check(a, now),
        None => Ok(()),
    }
}

} // verus!
