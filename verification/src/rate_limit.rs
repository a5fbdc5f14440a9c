//! Per-client rate limiting with token buckets.
//!
//! Each client has a bucket holding up to `burst_size` tokens that refills
//! at `requests_per_minute` tokens per minute; a request is allowed when a
//! whole token is available and consumes it. Token amounts are kept exactly
//! in units of 1/60,000,000,000 of a token, so that one nanosecond of refill
//! adds `requests_per_minute` units.

use vstd::prelude::*;
use crate::clock::{clamp_nanos, instant_now, nanos_between};
use vstd::string::StringExecFns;
use crate::auth::{trimmed, trim_chars};
use crate::paths::{split_chars, split_on};
use crate::strutil::{chars_of, decimal, parse_u32_spec, push_decimal, string_from_chars};

use crate::assoc::{first_value, keys_unique, lemma_first_value_at, lemma_first_value_push, lemma_first_value_update};

verus! {

/// Units per token: nanoseconds per minute.
pub const TOKEN_UNITS: u128 = 60_000_000_000;

/// Buckets idle for this long are dropped by `cleanup` (five minutes).
pub const IDLE_CUTOFF_NANOS: u64 = 300_000_000_000;

/// Calls `Duration::from_secs`.
#[verifier::external_body]
fn duration_from_secs(secs: u64) -> (d: std::time::Duration) {
    std::time::Duration::from_secs(secs)
}

/// Rate limiter configuration.
#[derive(Debug, Clone, Copy)]
pub struct RateLimitConfig {
    /// Maximum requests per window
    pub requests_per_minute: u32,
    /// Burst allowance
    pub burst_size: u32,
    /// Window duration
    pub window: std::time::Duration,
}

impl Default for RateLimitConfig {
    fn default() -> (c: Self)
        ensures
            c.requests_per_minute == 60,
            c.burst_size == 10,
    {
        RateLimitConfig {
            requests_per_minute: 60,
            burst_size: 10,
            window: duration_from_secs(60),
        }
    }
}

impl RateLimitConfig {
    /// Configuration from the values of the `LMS_RATE_LIMIT` and
    /// `LMS_RATE_LIMIT_BURST` settings: each is parsed as a `u32`, and an
    /// absent or unparsable value falls back to 60 and 10.
    pub fn from_env_values(rate: Option<&str>, burst: Option<&str>) -> (c: Self)
        ensures
            c.requests_per_minute == match rate {
                Some(s) => match parse_u32_spec(s@) {
                    Some(v) => v,
                    None => 60,
                },
                None => 60,
            },
            c.burst_size == match burst {
                Some(s) => match parse_u32_spec(s@) {
                    Some(v) => v,
                    None => 10,
                },
                None => 10,
            },
    {
        let requests_per_minute = match rate {
            Some(s) => match crate::strutil::parse_u32(s) {
                Some(v) => v,
                None => 60,
            },
            None => 60,
        };
        let burst_size = match burst {
            Some(s) => match crate::strutil::parse_u32(s) {
                Some(v) => v,
                None => 10,
            },
            None => 10,
        };
        RateLimitConfig { requests_per_minute, burst_size, window: duration_from_secs(60) }
    }
}

/// Abstract state of a bucket, in token units.
pub struct BucketView {
    pub tokens: nat,
    pub max_tokens: nat,
    pub refill_rate: nat,
}

/// A full bucket for a configuration.
pub open spec fn fresh_bucket(config: RateLimitConfig) -> BucketView {
    BucketView {
        tokens: config.burst_size as nat * TOKEN_UNITS as nat,
        max_tokens: config.burst_size as nat * TOKEN_UNITS as nat,
        refill_rate: config.requests_per_minute as nat,
    }
}

/// Tokens after refilling for `elapsed` nanoseconds, capped at the maximum.
pub open spec fn refilled(b: BucketView, elapsed: nat) -> nat {
    if b.tokens + elapsed * b.refill_rate > b.max_tokens {
        b.max_tokens
    } else {
        b.tokens + elapsed * b.refill_rate
    }
}

/// Refill for `elapsed` nanoseconds, then take one token if available:
/// the new bucket and whether the request is allowed.
pub open spec fn consume(b: BucketView, elapsed: nat) -> (BucketView, bool) {
    let t = refilled(b, elapsed);
    if t >= TOKEN_UNITS {
        (BucketView { tokens: (t - TOKEN_UNITS) as nat, ..b }, true)
    } else {
        (BucketView { tokens: t, ..b }, false)
    }
}

/// Nanoseconds until a whole token is available (rounded up).
pub open spec fn retry_nanos(b: BucketView) -> nat {
    if b.tokens >= TOKEN_UNITS {
        0
    } else {
        ((TOKEN_UNITS - b.tokens) as nat + b.refill_rate - 1) as nat / b.refill_rate
    }
}

/// Token bucket for a single client.
pub struct TokenBucket {
    tokens: u128,
    last_update: std::time::Instant,
    max_tokens: u128,
    refill_rate: u128,
}

impl TokenBucket {
    pub closed spec fn view(&self) -> BucketView {
        BucketView {
            tokens: self.tokens as nat,
            max_tokens: self.max_tokens as nat,
            refill_rate: self.refill_rate as nat,
        }
    }

    /// Internal consistency: tokens never exceed the maximum, which is at
    /// most `u32::MAX` tokens, and the rate is at most `u32::MAX`.
    #[verifier::type_invariant]
    spec fn wf(&self) -> bool {
        &&& self.tokens <= self.max_tokens
        &&& self.max_tokens <= u32::MAX as u128 * TOKEN_UNITS
        &&& self.refill_rate <= u32::MAX as u128
    }

    /// A full bucket, stamped now.
    pub fn new(config: &RateLimitConfig) -> (b: Self)
        ensures
            b.view() == fresh_bucket(*config),
    {
        let max_tokens = config.burst_size as u128 * TOKEN_UNITS;
        TokenBucket {
            tokens: max_tokens,
            last_update: instant_now(),
            max_tokens,
            refill_rate: config.requests_per_minute as u128,
        }
    }

    /// Refills for `elapsed` nanoseconds and takes a token if one is available.
    pub fn consume_after(&mut self, elapsed: u64) -> (allowed: bool)
        ensures
            (final(self).view(), allowed) == consume(old(self).view(), elapsed as nat),
    {
        proof {
            use_type_invariant(&*self);
        }
        assert(elapsed as u128 * self.refill_rate <= u64::MAX as u128 * u32::MAX as u128) by (nonlinear_arith)
            requires
                elapsed <= u64::MAX,
                self.refill_rate <= u32::MAX as u128,
        ;
        let gained = elapsed as u128 * self.refill_rate;
        let total = self.tokens + gained;
        self.tokens = if total > self.max_tokens { self.max_tokens } else { total };
        if self.tokens >= TOKEN_UNITS {
            self.tokens = self.tokens - TOKEN_UNITS;
            true
        } else {
            false
        }
    }

    /// Refills for the time since the last update, stamps the bucket now,
    /// and takes a token if one is available.
    pub fn try_consume(&mut self) -> (allowed: bool)
        ensures
            exists|e: u64| (final(self).view(), allowed) == #[trigger] consume(old(self).view(), e as nat),
    {
        proof {
            use_type_invariant(&*self);
        }
        let now = instant_now();
        let elapsed = clamp_nanos(nanos_between(&self.last_update, &now));
        self.last_update = now;
        let allowed = self.consume_after(elapsed);
        assert((self.view(), allowed) == consume(old(self).view(), elapsed as nat));
        allowed
    }

    /// Whole tokens left.
    pub fn tokens_remaining(&self) -> (n: u32)
        ensures
            n as nat == self.view().tokens / TOKEN_UNITS as nat,
    {
        proof {
            use_type_invariant(self);
        }
        (self.tokens / TOKEN_UNITS) as u32
    }

    /// Nanoseconds until a request can be allowed again.
    pub fn retry_after(&self) -> (n: u64)
        requires
            self.view().refill_rate > 0 || self.view().tokens >= TOKEN_UNITS,
        ensures
            n as nat == retry_nanos(self.view()),
    {
        proof {
            use_type_invariant(self);
        }
        if self.tokens >= TOKEN_UNITS {
            0
        } else {
            let needed = TOKEN_UNITS - self.tokens;
            ((needed + self.refill_rate - 1) / self.refill_rate) as u64
        }
    }

    /// Nanoseconds since the bucket was last updated (clamped to `u64`).
    fn idle_nanos(&self) -> (n: u64) {
        let now = instant_now();
        clamp_nanos(nanos_between(&self.last_update, &now))
    }
}

/// A client's address, as the 32 bits of an IPv4 address or the 128 bits
/// of an IPv6 address.
#[derive(Debug, Clone, Copy, PartialEq, Eq, Structural)]
pub struct ClientAddr {
    pub is_ipv6: bool,
    pub bits: u128,
}

/// Result of a rate limit check.
#[derive(Debug, Clone, Copy)]
pub enum RateLimitResult {
    Allowed { remaining: u32, limit: u32 },
    Limited { retry_after_nanos: u64, limit: u32 },
}

/// A bucket made for `config`.
pub open spec fn bucket_fits(b: TokenBucket, config: RateLimitConfig) -> bool {
    &&& b.view().refill_rate == config.requests_per_minute as nat
    &&& b.view().max_tokens == config.burst_size as nat * TOKEN_UNITS as nat
}

/// The bucket of the first entry for `ip`, if any.
pub open spec fn lookup(entries: Seq<(ClientAddr, BucketView)>, ip: ClientAddr) -> Option<BucketView> {
    first_value(entries, ip)
}

/// The outcome of one check on a bucket: the response for the client.
pub open spec fn check_outcome(b: BucketView, allowed: bool, limit: u32) -> RateLimitResult {
    if allowed {
        RateLimitResult::Allowed { remaining: (b.tokens / TOKEN_UNITS as nat) as u32, limit }
    } else {
        RateLimitResult::Limited { retry_after_nanos: retry_nanos(b) as u64, limit }
    }
}

/// Clients and abstract buckets of limiter entries.
spec fn bucket_entries(v: Seq<(ClientAddr, TokenBucket)>) -> Seq<(ClientAddr, BucketView)> {
    v.map_values(|e: (ClientAddr, TokenBucket)| (e.0, e.1.view()))
}

/// Rate limiter state: one bucket per client.
pub struct RateLimiter {
    buckets: Vec<(ClientAddr, TokenBucket)>,
    config: RateLimitConfig,
}

impl RateLimiter {
    /// Abstract state: clients and their buckets, in insertion order.
    pub closed spec fn entries(&self) -> Seq<(ClientAddr, BucketView)> {
        bucket_entries(self.buckets@)
    }

    /// The limiter's configuration.
    pub closed spec fn config_view(&self) -> RateLimitConfig {
        self.config
    }

    /// Every bucket fits the configuration, and no client has two buckets.
    #[verifier::type_invariant]
    spec fn wf(&self) -> bool {
        &&& forall|i: int| 0 <= i < self.buckets@.len() ==> bucket_fits(#[trigger] self.buckets@[i].1, self.config)
        &&& keys_unique(self.entries())
    }

    /// The bucket of a client, if it has one.
    pub open spec fn bucket_of(&self, ip: ClientAddr) -> Option<BucketView> {
        lookup(self.entries(), ip)
    }

    /// The bucket a check on `ip` starts from.
    pub open spec fn start_bucket(&self, ip: ClientAddr) -> BucketView {
        match self.bucket_of(ip) {
            Some(b) => b,
            None => fresh_bucket(self.config_view()),
        }
    }

    pub fn new(config: RateLimitConfig) -> (l: Self)
        ensures
            l.entries().len() == 0,
            l.config_view() == config,
    {
        let buckets: Vec<(ClientAddr, TokenBucket)> = Vec::new();
        assert(bucket_entries(buckets@) =~= Seq::<(ClientAddr, BucketView)>::empty());
        RateLimiter { buckets, config }
    }

    /// Checks a request from `ip`: creates a full bucket for a new client,
    /// refills it for the time since its last use, and takes a token.
    /// Only that client's bucket changes.
    pub fn check(&mut self, ip: ClientAddr) -> (r: RateLimitResult)
        requires
            old(self).config_view().requests_per_minute > 0
                || old(self).start_bucket(ip).tokens >= TOKEN_UNITS,
        ensures
            final(self).config_view() == old(self).config_view(),
            exists|e: u64| {
                let (b2, allowed) = #[trigger] consume(old(self).start_bucket(ip), e as nat);
                &&& final(self).bucket_of(ip) == Some(b2)
                &&& r == check_outcome(b2, allowed, old(self).config_view().requests_per_minute)
            },
            forall|other: ClientAddr| other != ip ==> #[trigger] final(self).bucket_of(other) == old(self).bucket_of(other),
    {
        proof {
            use_type_invariant(&*self);
        }
        let mut buckets: Vec<(ClientAddr, TokenBucket)> = Vec::new();
        std::mem::swap(&mut buckets, &mut self.buckets);
        let n = buckets.len();
        let mut i: usize = 0;
        while i < n && buckets[i].0 != ip
            invariant
                n == buckets@.len(),
                i <= n,
                forall|k: int| 0 <= k < i ==> buckets@[k].0 != ip,
            decreases n - i,
        {
            i = i + 1;
        }
        proof {
            lemma_first_value_at(bucket_entries(buckets@), ip, i as int);
        }
        if i == n {
            let bucket = TokenBucket::new(&self.config);
            let ghost before = bucket_entries(buckets@);
            buckets.push((ip, bucket));
            proof {
                assert(bucket_entries(buckets@) =~= before.push((ip, bucket.view())));
                lemma_lookup_push(before, ip, bucket.view());
                let es = bucket_entries(buckets@);
                assert forall|a: int, b: int| 0 <= a < b < es.len() implies #[trigger] es[a].0 != #[trigger] es[b].0 by {
                    assert(es[a] == before[a]);
                    if b < n {
                        assert(es[b] == before[b]);
                    } else {
                        assert(before[a].0 == old(self).buckets@[a].0);
                    }
                }
                assert forall|k: int| 0 <= k < buckets@.len() implies bucket_fits(#[trigger] buckets@[k].1, self.config) by {
                    if k < n {
                        assert(buckets@[k] == old(self).buckets@[k]);
                    }
                }
            }
        }
        let ghost mid = bucket_entries(buckets@);
        let ghost mid_buckets = buckets@;
        let ghost start = mid[i as int].1;
        proof {
            assert(bucket_fits(mid_buckets[i as int].1, self.config));
            assert(start == old(self).start_bucket(ip));
        }
        let (addr, mut bucket) = buckets.remove(i);
        proof {
            use_type_invariant(&bucket);
        }
        let allowed = bucket.try_consume();
        proof {
            if !allowed && self.config.requests_per_minute == 0 {
                let e = choose|e: u64| (bucket.view(), allowed) == #[trigger] consume(start, e as nat);
                assert(refilled(start, e as nat) == start.tokens);
            }
        }
        let result = if allowed {
            RateLimitResult::Allowed {
                remaining: bucket.tokens_remaining(),
                limit: self.config.requests_per_minute,
            }
        } else {
            RateLimitResult::Limited {
                retry_after_nanos: bucket.retry_after(),
                limit: self.config.requests_per_minute,
            }
        };
        let ghost b2 = bucket.view();
        buckets.insert(i, (addr, bucket));
        proof {
            assert(buckets@ =~= mid_buckets.update(i as int, (addr, bucket)));
            assert(bucket_entries(buckets@) =~= mid.update(i as int, (ip, b2)));
            lemma_lookup_update(mid, ip, i as int, b2);
            let es = bucket_entries(buckets@);
            assert forall|a: int, b: int| 0 <= a < b < es.len() implies #[trigger] es[a].0 != #[trigger] es[b].0 by {
                assert(es[a].0 == mid[a].0 && es[b].0 == mid[b].0);
            }
            assert forall|k: int| 0 <= k < buckets@.len() implies bucket_fits(#[trigger] buckets@[k].1, self.config) by {
                if k != i {
                    assert(buckets@[k] == mid_buckets[k]);
                }
            }
        }
        self.buckets = buckets;
        result
    }

    /// Keeps the buckets whose idle time, given in order, is below five minutes.
    pub fn retain_active(&mut self, idle: &[u64])
        requires
            idle@.len() == old(self).entries().len(),
        ensures
            final(self).config_view() == old(self).config_view(),
            final(self).entries() == kept_entries(old(self).entries(), idle@),
    {
        proof {
            use_type_invariant(&*self);
        }
        let mut rest: Vec<(ClientAddr, TokenBucket)> = Vec::new();
        std::mem::swap(&mut rest, &mut self.buckets);
        let ghost src = rest@.map_values(|e: (ClientAddr, TokenBucket)| (e.0, e.1.view()));
        let n = rest.len();
        let mut kept: Vec<(ClientAddr, TokenBucket)> = Vec::new();
        let mut taken: usize = 0;
        while rest.len() > 0
            invariant
                src == old(self).entries(),
                idle@.len() == n,
                n == src.len(),
                taken + rest@.len() == n,
                rest@.map_values(|e: (ClientAddr, TokenBucket)| (e.0, e.1.view())) =~= src.subrange(taken as int, n as int),
                forall|k: int| 0 <= k < rest@.len() ==> bucket_fits(#[trigger] rest@[k].1, self.config),
                forall|k: int| 0 <= k < kept@.len() ==> bucket_fits(#[trigger] kept@[k].1, self.config),
                self.config == old(self).config,
                kept@.map_values(|e: (ClientAddr, TokenBucket)| (e.0, e.1.view())) == kept_entries(src.take(taken as int), idle@.take(taken as int)),
            decreases rest@.len(),
        {
            let ghost r0 = rest@;
            let e = rest.remove(0);
            let ghost kv = kept@.map_values(|e: (ClientAddr, TokenBucket)| (e.0, e.1.view()));
            proof {
                assert(e == r0[0]);
                assert(rest@ =~= r0.subrange(1, r0.len() as int));
                assert(r0.map_values(|e: (ClientAddr, TokenBucket)| (e.0, e.1.view()))[0] == src.subrange(taken as int, n as int)[0]);
                assert(src.take(taken + 1).drop_last() =~= src.take(taken as int));
                assert(idle@.take(taken + 1).drop_last() =~= idle@.take(taken as int));
                assert(src[taken as int] == (e.0, e.1.view()));
            }
            if idle[taken] < IDLE_CUTOFF_NANOS {
                kept.push(e);
                proof {
                    assert(kept@.map_values(|e: (ClientAddr, TokenBucket)| (e.0, e.1.view())) =~= kv.push((e.0, e.1.view())));
                }
            }
            taken = taken + 1;
            proof {
                let m0 = r0.map_values(|e: (ClientAddr, TokenBucket)| (e.0, e.1.view()));
                assert(rest@.map_values(|e: (ClientAddr, TokenBucket)| (e.0, e.1.view())) =~= m0.subrange(1, m0.len() as int));
                assert(rest@.map_values(|e: (ClientAddr, TokenBucket)| (e.0, e.1.view())) =~= src.subrange(taken as int, n as int));
            }
        }
        proof {
            assert(src.take(n as int) =~= src);
            assert(idle@.take(n as int) =~= idle@);
            lemma_kept_unique(src, idle@);
        }
        self.buckets = kept;
    }

    /// Drops the buckets of clients idle for five minutes or more.
    pub fn cleanup(&mut self)
        ensures
            final(self).config_view() == old(self).config_view(),
            exists|idle: Seq<u64>| idle.len() == old(self).entries().len()
                && final(self).entries() == #[trigger] kept_entries(old(self).entries(), idle),
    {
        let mut idle: Vec<u64> = Vec::new();
        let n = self.buckets.len();
        let mut i: usize = 0;
        while i < n
            invariant
                n == self.buckets@.len(),
                i <= n,
                idle@.len() == i,
            decreases n - i,
        {
            idle.push(self.buckets[i].1.idle_nanos());
            i = i + 1;
        }
        proof {
            assert(self.entries().len() == n);
        }
        self.retain_active(idle.as_slice());
    }
}

/// Installs a limiter built from `config` when limiting is enabled (a
/// positive request rate) and none is installed yet; returns whether
/// limiting is enabled by this configuration.
pub fn init_rate_limiter(slot: &mut Option<RateLimiter>, config: RateLimitConfig) -> (enabled: bool)
    ensures
        enabled == (config.requests_per_minute > 0),
        (enabled && *old(slot) is None) ==> (*final(slot) matches Some(l)
            && l.config_view() == config && l.entries().len() == 0),
        !(enabled && *old(slot) is None) ==> *final(slot) == *old(slot),
{
    let enabled = config.requests_per_minute > 0;
    if enabled && slot.is_none() {
        *slot = Some(RateLimiter::new(config));
    }
    enabled
}

/// Whether a limiter is installed.
pub fn is_rate_limiting_enabled(slot: &Option<RateLimiter>) -> (b: bool)
    ensures
        b == slot.is_some(),
{
    slot.is_some()
}

/// Results of `n` back-to-back requests on a bucket with no time elapsed.
pub open spec fn immediate_results(b: BucketView, n: nat) -> Seq<bool>
    decreases n,
{
    if n == 0 {
        Seq::empty()
    } else {
        let (b2, ok) = consume(b, 0);
        seq![ok] + immediate_results(b2, (n - 1) as nat)
    }
}

/// Burst law: a bucket holding `k` whole tokens allows exactly its first
/// `k` back-to-back requests and refuses the rest.
pub proof fn burst_law(b: BucketView, k: nat, n: nat)
    requires
        b.tokens <= b.max_tokens,
        k * TOKEN_UNITS <= b.tokens < (k + 1) * TOKEN_UNITS,
    ensures
        immediate_results(b, n).len() == n,
        forall|i: int| 0 <= i < n ==> #[trigger] immediate_results(b, n)[i] == (i < k),
    decreases n,
{
    if n > 0 {
        let (b2, ok) = consume(b, 0);
        assert(refilled(b, 0) == b.tokens);
        let k2: nat = if k > 0 { (k - 1) as nat } else { 0 };
        burst_law(b2, k2, (n - 1) as nat);
        let rest = immediate_results(b2, (n - 1) as nat);
        assert forall|i: int| 0 <= i < n implies #[trigger] immediate_results(b, n)[i] == (i < k) by {
            if i > 0 {
                assert(immediate_results(b, n)[i] == rest[i - 1]);
            }
        }
    }
}

/// A new client's bucket allows exactly `burst_size` immediate requests.
pub proof fn fresh_bucket_burst_law(config: RateLimitConfig, n: nat)
    ensures
        forall|i: int| 0 <= i < n ==> #[trigger] immediate_results(fresh_bucket(config), n)[i]
            == (i < config.burst_size),
{
    burst_law(fresh_bucket(config), config.burst_size as nat, n);
}

/// Retry law: once a refusing bucket has waited the reported retry time,
/// a request is allowed; waiting any shorter time is not enough.
pub proof fn retry_law(b: BucketView, e: nat)
    requires
        b.refill_rate > 0,
        b.tokens < TOKEN_UNITS,
        TOKEN_UNITS <= b.max_tokens,
    ensures
        consume(b, retry_nanos(b)).1,
        e < retry_nanos(b) ==> !consume(b, e).1,
{
    let need: int = TOKEN_UNITS - b.tokens;
    let rate: int = b.refill_rate as int;
    let r: int = retry_nanos(b) as int;
    assert(r == (need + rate - 1) / rate);
    assert(r * rate >= need && (r - 1) * rate < need) by (nonlinear_arith)
        requires
            r == (need + rate - 1) / rate,
            rate > 0,
            need > 0,
    ;
    if e < r {
        assert(e * rate <= (r - 1) * rate) by (nonlinear_arith)
            requires
                e < r,
                rate > 0,
                e >= 0,
        ;
    }
}

/// The entries whose idle time is below the cutoff, in order.
pub open spec fn kept_entries(entries: Seq<(ClientAddr, BucketView)>, idle: Seq<u64>) -> Seq<(ClientAddr, BucketView)>
    decreases entries.len(),
{
    if entries.len() == 0 || idle.len() == 0 {
        Seq::empty()
    } else {
        let rest = kept_entries(entries.drop_last(), idle.drop_last());
        if idle.last() < IDLE_CUTOFF_NANOS {
            rest.push(entries.last())
        } else {
            rest
        }
    }
}

/// Every kept entry is one of the entries.
proof fn lemma_kept_from(entries: Seq<(ClientAddr, BucketView)>, idle: Seq<u64>)
    ensures
        forall|k: int| 0 <= k < kept_entries(entries, idle).len() ==> exists|j: int|
            0 <= j < entries.len() && #[trigger] kept_entries(entries, idle)[k] == entries[j],
    decreases entries.len(),
{
    if entries.len() > 0 && idle.len() > 0 {
        let prev = entries.drop_last();
        lemma_kept_from(prev, idle.drop_last());
        let rest = kept_entries(prev, idle.drop_last());
        let kept = kept_entries(entries, idle);
        assert forall|k: int| 0 <= k < kept.len() implies exists|j: int|
            0 <= j < entries.len() && #[trigger] kept[k] == entries[j] by {
            if k < rest.len() {
                let j = choose|j: int| 0 <= j < prev.len() && #[trigger] rest[k] == prev[j];
                assert(kept[k] == entries[j]);
            } else {
                assert(kept[k] == entries[entries.len() - 1]);
            }
        }
    }
}

/// Keeping some entries keeps the clients distinct.
proof fn lemma_kept_unique(entries: Seq<(ClientAddr, BucketView)>, idle: Seq<u64>)
    requires
        keys_unique(entries),
    ensures
        keys_unique(kept_entries(entries, idle)),
    decreases entries.len(),
{
    if entries.len() > 0 && idle.len() > 0 {
        let prev = entries.drop_last();
        assert(keys_unique(prev)) by {
            assert forall|a: int, b: int| 0 <= a < b < prev.len() implies #[trigger] prev[a].0 != #[trigger] prev[b].0 by {
                assert(prev[a] == entries[a] && prev[b] == entries[b]);
            }
        }
        lemma_kept_unique(prev, idle.drop_last());
        lemma_kept_from(prev, idle.drop_last());
        let rest = kept_entries(prev, idle.drop_last());
        let kept = kept_entries(entries, idle);
        let last = entries.len() - 1;
        assert forall|a: int, b: int| 0 <= a < b < kept.len() implies #[trigger] kept[a].0 != #[trigger] kept[b].0 by {
            if b < rest.len() {
                assert(kept[a] == rest[a] && kept[b] == rest[b]);
            } else {
                let j = choose|j: int| 0 <= j < prev.len() && #[trigger] rest[a] == prev[j];
                assert(kept[a] == entries[j]);
                assert(kept[b] == entries[last]);
            }
        }
    }
}

/// Appending an entry for an absent key makes it found.
proof fn lemma_lookup_push(entries: Seq<(ClientAddr, BucketView)>, ip: ClientAddr, b: BucketView)
    requires
        lookup(entries, ip) is None,
    ensures
        forall|other: ClientAddr| #[trigger] lookup(entries.push((ip, b)), other) == if other == ip {
            Some(b)
        } else {
            lookup(entries, other)
        },
    decreases entries.len(),
{
    assert forall|other: ClientAddr| #[trigger] lookup(entries.push((ip, b)), other) == if other == ip {
        Some(b)
    } else {
        lookup(entries, other)
    } by {
        lemma_first_value_push(entries, (ip, b), other);
    }
}

/// Updating the first entry for a key changes only that key's bucket.
proof fn lemma_lookup_update(entries: Seq<(ClientAddr, BucketView)>, ip: ClientAddr, i: int, b: BucketView)
    requires
        0 <= i < entries.len(),
        entries[i].0 == ip,
        forall|k: int| 0 <= k < i ==> entries[k].0 != ip,
    ensures
        forall|other: ClientAddr| #[trigger] lookup(entries.update(i, (ip, b)), other) == if other == ip {
            Some(b)
        } else {
            lookup(entries, other)
        },
{
    assert forall|other: ClientAddr| #[trigger] lookup(entries.update(i, (ip, b)), other) == if other == ip {
        Some(b)
    } else {
        lookup(entries, other)
    } by {
        lemma_first_value_update(entries, i, (ip, b), other);
    }
}

/// The address a proxy reports first in `X-Forwarded-For`: the text
/// before the first comma, trimmed.
pub open spec fn forwarded_client(header: Seq<char>) -> Seq<char> {
    trimmed(split_on(header, ',')[0])
}

/// The first address of an `X-Forwarded-For` header.
pub fn first_forwarded_address(header: &str) -> (r: String)
    ensures
        r@ == forwarded_client(header@),
{
    let cs = chars_of(header);
    let parts = split_chars(&cs, ',');
    proof {
        crate::paths::lemma_split_on(header@, ',');
    }
    assert(parts@[0]@ == split_on(header@, ',')[0]);
    let t = trim_chars(&parts[0]);
    string_from_chars(t.as_slice())
}

/// Whole seconds a limited client is told to wait: the wait truncated to
/// seconds, at least one.
pub open spec fn retry_seconds(retry_after_nanos: nat) -> nat {
    if retry_after_nanos / 1_000_000_000 >= 1 {
        retry_after_nanos / 1_000_000_000
    } else {
        1
    }
}

/// The `Retry-After` seconds of a limited request.
pub fn limited_retry_seconds(retry_after_nanos: u64) -> (s: u64)
    ensures
        s == retry_seconds(retry_after_nanos as nat),
{
    let secs = retry_after_nanos / 1_000_000_000;
    if secs >= 1 { secs } else { 1 }
}

/// The message sent to a limited client.
pub fn rate_limit_message(retry_secs: u64) -> (m: String)
    ensures
        m@ == "Rate limit exceeded. Retry after "@ + decimal(retry_secs as nat) + " seconds."@,
{
    let mut m = "Rate limit exceeded. Retry after ".to_owned();
    push_decimal(&mut m, retry_secs as u128);
    m.append(" seconds.");
    m
}

} // verus!
