//! Request and inference metrics, exported in Prometheus text format.
//!
//! Metrics exported:
//! - `lms_uptime_seconds` - server uptime
//! - `lms_requests_total` - total HTTP requests by endpoint and status
//! - `lms_request_duration_seconds` - request latency histogram
//! - `lms_models_loaded` - number of currently loaded models
//! - `lms_active_connections` - current active connections
//! - `lms_tokens_generated_total` - total tokens generated
//! - `lms_inference_duration_seconds` - inference latency histogram

use vstd::prelude::*;
use vstd::string::StringExecFns;
use crate::paths::{join_with, lemma_split_join, lemma_split_on, split_chars, split_on};
use crate::clock::{elapsed_nanos, instant_now};
use crate::strutil::{
    all_digits, byte_len, chars_of, decimal, digit_char, digits_value, lemma_byte_len_zero, push_char,
    push_decimal, string_byte_len, string_from_chars,
};

use crate::assoc::{first_value, lemma_first_value_at, lemma_first_value_push, lemma_first_value_update};

verus! {

/// ASCII hexadecimal digit.
pub open spec fn is_hex_digit(c: char) -> bool {
    ('0' <= c <= '9') || ('a' <= c <= 'f') || ('A' <= c <= 'F')
}

/// Number of occurrences of `c` in `s`.
pub open spec fn count_char(s: Seq<char>, c: char) -> nat
    decreases s.len(),
{
    if s.len() == 0 {
        0
    } else {
        count_char(s.drop_last(), c) + if s.last() == c { 1nat } else { 0nat }
    }
}

/// A path segment that looks like an identifier: UUID-shaped (36 bytes with
/// four dashes) or a hexadecimal string longer than 8 bytes.
pub open spec fn looks_like_id(seg: Seq<char>) -> bool {
    ||| byte_len(seg) == 36 && count_char(seg, '-') == 4
    ||| (forall|i: int| 0 <= i < seg.len() ==> is_hex_digit(#[trigger] seg[i])) && byte_len(seg) > 8
}

/// A segment with identifiers replaced by `:id`.
pub open spec fn normalize_segment(seg: Seq<char>) -> Seq<char> {
    if looks_like_id(seg) {
        ":id"@
    } else {
        seg
    }
}

/// A path with every identifier-like segment replaced by `:id`.
pub open spec fn normalized_path(p: Seq<char>) -> Seq<char> {
    join_with(split_on(p, '/').map_values(|s: Seq<char>| normalize_segment(s)), '/')
}

fn is_hex_char(c: char) -> (b: bool)
    ensures
        b == is_hex_digit(c),
{
    ('0' <= c && c <= '9') || ('a' <= c && c <= 'f') || ('A' <= c && c <= 'F')
}

fn segment_looks_like_id(seg: &Vec<char>) -> (b: bool)
    ensures
        b == looks_like_id(seg@),
{
    let s = string_from_chars(seg.as_slice());
    let len = string_byte_len(&s);
    let mut dashes: usize = 0;
    let mut all_hex = true;
    let mut i: usize = 0;
    while i < seg.len()
        invariant
            i <= seg@.len(),
            dashes == count_char(seg@.take(i as int), '-'),
            dashes <= i,
            all_hex == (forall|k: int| 0 <= k < i ==> is_hex_digit(#[trigger] seg@[k])),
        decreases seg@.len() - i,
    {
        proof {
            assert(seg@.take(i + 1).drop_last() =~= seg@.take(i as int));
        }
        if seg[i] == '-' {
            dashes = dashes + 1;
        }
        if !is_hex_char(seg[i]) {
            all_hex = false;
        }
        i = i + 1;
    }
    assert(seg@.take(seg@.len() as int) =~= seg@);
    (len == 36 && dashes == 4) || (all_hex && len > 8)
}

/// Replaces identifier-like path segments (UUIDs, long hex strings) with
/// `:id`, so that metrics group requests by route.
pub fn normalize_path(path: &str) -> (r: String)
    ensures
        r@ == normalized_path(path@),
{
    let chars = chars_of(path);
    let segments = split_chars(&chars, '/');
    let ghost segs = segments@.map_values(|v: Vec<char>| v@);
    let ghost mapped = segs.map_values(|s: Seq<char>| normalize_segment(s));
    proof {
        lemma_split_on(path@, '/');
    }
    let id_text = chars_of(":id");
    let mut result = String::new();
    let mut i: usize = 0;
    while i < segments.len()
        invariant
            segs == segments@.map_values(|v: Vec<char>| v@),
            mapped == segs.map_values(|s: Seq<char>| normalize_segment(s)),
            segs.len() >= 1,
            id_text@ == ":id"@,
            i <= segs.len(),
            result@ == join_with(mapped.take(i as int), '/'),
        decreases segs.len() - i,
    {
        proof {
            assert(mapped.take(i + 1).drop_last() =~= mapped.take(i as int));
            assert(mapped.take(i + 1).last() == mapped[i as int]);
        }
        if i > 0 {
            push_char(&mut result, '/');
        }
        let seg = &segments[i];
        let ghost before = result@;
        let piece: &Vec<char> = if segment_looks_like_id(seg) { &id_text } else { seg };
        let mut k: usize = 0;
        while k < piece.len()
            invariant
                k <= piece@.len(),
                result@ == before + piece@.take(k as int),
            decreases piece@.len() - k,
        {
            push_char(&mut result, piece[k]);
            assert(piece@.take(k + 1) =~= piece@.take(k as int).push(piece@[k as int]));
            k = k + 1;
        }
        proof {
            assert(piece@.take(piece@.len() as int) =~= piece@);
            assert(piece@ == mapped[i as int]);
            if i == 0 {
                assert(mapped.take(1) =~= seq![mapped[0]]);
                assert(result@ =~= mapped[0]);
            }
        }
        i = i + 1;
    }
    assert(mapped.take(segs.len() as int) =~= mapped);
    result
}

/// Normalizing is idempotent: a normalized path normalizes to itself.
pub proof fn normalize_path_idempotent(p: Seq<char>)
    ensures
        normalized_path(normalized_path(p)) == normalized_path(p),
{
    reveal_strlit(":id");
    let parts = split_on(p, '/');
    lemma_split_on(p, '/');
    let mapped = parts.map_values(|s: Seq<char>| normalize_segment(s));
    assert forall|i: int| 0 <= i < mapped.len() implies !(#[trigger] mapped[i]).contains('/') by {
        if looks_like_id(parts[i]) {
            assert(mapped[i] == ":id"@);
            if mapped[i].contains('/') {
                let k = choose|k: int| 0 <= k < mapped[i].len() && mapped[i][k] == '/';
            }
        } else {
            assert(!parts[i].contains('/'));
        }
    }
    lemma_split_join(mapped, '/');
    assert forall|i: int| 0 <= i < mapped.len() implies normalize_segment(#[trigger] mapped[i]) == mapped[i] by {
        if looks_like_id(parts[i]) {
            lemma_byte_len_zero(":id"@);
            assert(!is_hex_digit(":id"@[0]));
            assert(!looks_like_id(":id"@));
        }
    }
    assert(mapped.map_values(|s: Seq<char>| normalize_segment(s)) =~= mapped);
}

/// How many durations each histogram keeps (the most recent ones).
pub const MAX_DURATIONS: usize = 10000;

/// Count of requests for one endpoint and status.
#[derive(Debug, Clone)]
pub struct RequestCount {
    pub endpoint: String,
    pub status: u16,
    pub count: u64,
}

/// Metrics collector for the server. Durations are in nanoseconds.
pub struct Metrics {
    /// Request counts by endpoint and status, in order of first occurrence
    requests: Vec<RequestCount>,
    /// Recent request durations, oldest first
    durations: Vec<u64>,
    /// Number of loaded models
    loaded_models: u64,
    /// Active connections
    active_connections: u64,
    /// Total tokens generated
    tokens_generated: u64,
    /// Recent inference durations, oldest first
    inference_durations: Vec<u64>,
    /// Server start time
    start_time: std::time::Instant,
}

/// Abstract value of the metrics.
pub struct MetricsView {
    pub requests: Seq<(Seq<char>, u16, u64)>,
    pub durations: Seq<u64>,
    pub loaded_models: u64,
    pub active_connections: u64,
    pub tokens_generated: u64,
    pub inference_durations: Seq<u64>,
}

/// The counts keyed by endpoint and status.
pub open spec fn keyed_counts(reqs: Seq<(Seq<char>, u16, u64)>) -> Seq<((Seq<char>, u16), u64)> {
    reqs.map_values(|r: (Seq<char>, u16, u64)| ((r.0, r.1), r.2))
}

/// Count recorded for an endpoint and status (the first entry for them).
pub open spec fn count_of(reqs: Seq<(Seq<char>, u16, u64)>, endpoint: Seq<char>, status: u16) -> nat {
    match first_value(keyed_counts(reqs), (endpoint, status)) {
        Some(c) => c as nat,
        None => 0,
    }
}

/// No endpoint and status occurs twice among the counts.
pub open spec fn requests_unique(reqs: Seq<(Seq<char>, u16, u64)>) -> bool {
    forall|i: int, j: int| 0 <= i < j < reqs.len() ==> !(#[trigger] reqs[i].0 == #[trigger] reqs[j].0 && reqs[i].1 == reqs[j].1)
}

/// With no endpoint and status twice, the request lines of an export show
/// each endpoint and status once, with the number of requests recorded for
/// it, and an endpoint and status with requests has a line.
pub proof fn request_lines_law(reqs: Seq<(Seq<char>, u16, u64)>, e: Seq<char>, s: u16)
    requires
        requests_unique(reqs),
    ensures
        forall|i: int| 0 <= i < reqs.len() ==> count_of(reqs, reqs[i].0, reqs[i].1) == (#[trigger] reqs[i]).2,
        count_of(reqs, e, s) > 0 ==> exists|i: int| 0 <= i < reqs.len() && (#[trigger] reqs[i]).0 == e && reqs[i].1 == s,
{
    assert forall|i: int| 0 <= i < reqs.len() implies count_of(reqs, reqs[i].0, reqs[i].1) == (#[trigger] reqs[i]).2 by {
        assert forall|k: int| 0 <= k < i implies !(reqs[k].0 == reqs[i].0 && reqs[k].1 == reqs[i].1) by {
            assert(!(reqs[k].0 == reqs[i].0 && reqs[k].1 == reqs[i].1));
        }
        lemma_count_first(reqs, reqs[i].0, reqs[i].1, i);
    }
    if count_of(reqs, e, s) > 0 {
        if forall|i: int| 0 <= i < reqs.len() ==> !(reqs[i].0 == e && reqs[i].1 == s) {
            lemma_count_first(reqs, e, s, reqs.len() as int);
        }
    }
}

/// Keeps the most recent durations after adding `d`.
pub open spec fn keep_recent(ds: Seq<u64>, d: u64) -> Seq<u64> {
    if ds.len() >= MAX_DURATIONS {
        ds.drop_first().push(d)
    } else {
        ds.push(d)
    }
}

/// Endpoint, status and count of each request count.
spec fn request_entries(v: Seq<RequestCount>) -> Seq<(Seq<char>, u16, u64)> {
    v.map_values(|r: RequestCount| (r.endpoint@, r.status, r.count))
}

impl Metrics {
    pub closed spec fn view(&self) -> MetricsView {
        MetricsView {
            requests: request_entries(self.requests@),
            durations: self.durations@,
            loaded_models: self.loaded_models,
            active_connections: self.active_connections,
            tokens_generated: self.tokens_generated,
            inference_durations: self.inference_durations@,
        }
    }

    /// Each endpoint and status has at most one count, and at most
    /// `MAX_DURATIONS` durations are kept in each histogram.
    #[verifier::type_invariant]
    spec fn wf(&self) -> bool {
        &&& requests_unique(self.view().requests)
        &&& self.view().durations.len() <= MAX_DURATIONS
        &&& self.view().inference_durations.len() <= MAX_DURATIONS
    }

    pub fn new() -> (m: Self)
        ensures
            m.view().requests.len() == 0,
            m.view().durations.len() == 0,
            m.view().loaded_models == 0,
            m.view().active_connections == 0,
            m.view().tokens_generated == 0,
            m.view().inference_durations.len() == 0,
    {
        let requests: Vec<RequestCount> = Vec::new();
        assert(request_entries(requests@) =~= Seq::<(Seq<char>, u16, u64)>::empty());
        Metrics {
            requests,
            durations: Vec::new(),
            loaded_models: 0,
            active_connections: 0,
            tokens_generated: 0,
            inference_durations: Vec::new(),
            start_time: instant_now(),
        }
    }

    /// Records a request: the count for its endpoint and status goes up by
    /// one (others are unchanged), and its duration joins the recent ones.
    pub fn record_request(&mut self, endpoint: &str, status: u16, duration_nanos: u64)
        requires
            count_of(old(self).view().requests, endpoint@, status) < u64::MAX,
        ensures
            count_of(final(self).view().requests, endpoint@, status)
                == count_of(old(self).view().requests, endpoint@, status) + 1,
            forall|e: Seq<char>, s: u16| !(e == endpoint@ && s == status) ==>
                #[trigger] count_of(final(self).view().requests, e, s) == count_of(old(self).view().requests, e, s),
            final(self).view().durations == keep_recent(old(self).view().durations, duration_nanos),
            final(self).view().loaded_models == old(self).view().loaded_models,
            final(self).view().active_connections == old(self).view().active_connections,
            final(self).view().tokens_generated == old(self).view().tokens_generated,
            final(self).view().inference_durations == old(self).view().inference_durations,
    {
        proof {
            use_type_invariant(&*self);
        }
        let ghost reqs = old(self).view().requests;
        let mut requests: Vec<RequestCount> = Vec::new();
        std::mem::swap(&mut requests, &mut self.requests);
        let n = requests.len();
        let mut i: usize = 0;
        while i < n && !(str_eq(requests[i].endpoint.as_str(), endpoint) && requests[i].status == status)
            invariant
                n == requests@.len(),
                i <= n,
                reqs == request_entries(requests@),
                forall|k: int| 0 <= k < i ==> !(reqs[k].0 == endpoint@ && reqs[k].1 == status),
            decreases n - i,
        {
            i = i + 1;
        }
        proof {
            lemma_count_first(reqs, endpoint@, status, i as int);
        }
        if i == n {
            requests.push(RequestCount { endpoint: endpoint.to_owned(), status, count: 1 });
            proof {
                assert(request_entries(requests@) =~= reqs.push((endpoint@, status, 1u64)));
                lemma_count_push(reqs, endpoint@, status, 1u64);
                let r2 = request_entries(requests@);
                assert forall|a: int, b: int| 0 <= a < b < r2.len() implies
                    !(#[trigger] r2[a].0 == #[trigger] r2[b].0 && r2[a].1 == r2[b].1) by {
                    if b == reqs.len() {
                        assert(r2[a] == reqs[a]);
                    } else {
                        assert(r2[a] == reqs[a] && r2[b] == reqs[b]);
                    }
                }
            }
        } else {
            let mut entry = requests.remove(i);
            entry.count = entry.count + 1;
            let ghost c = entry.count;
            requests.insert(i, entry);
            proof {
                assert(request_entries(requests@) =~= reqs.update(i as int, (endpoint@, status, c)));
                lemma_count_update(reqs, endpoint@, status, i as int, c);
                let r2 = request_entries(requests@);
                assert forall|a: int, b: int| 0 <= a < b < r2.len() implies
                    !(#[trigger] r2[a].0 == #[trigger] r2[b].0 && r2[a].1 == r2[b].1) by {
                    assert(r2[a].0 == reqs[a].0 && r2[a].1 == reqs[a].1);
                    assert(r2[b].0 == reqs[b].0 && r2[b].1 == reqs[b].1);
                }
            }
        }
        self.requests = requests;
        let mut durations: Vec<u64> = Vec::new();
        std::mem::swap(&mut durations, &mut self.durations);
        if durations.len() >= MAX_DURATIONS {
            durations.remove(0);
        }
        durations.push(duration_nanos);
        proof {
            if old(self).view().durations.len() >= MAX_DURATIONS {
                assert(durations@ =~= keep_recent(old(self).view().durations, duration_nanos));
            }
        }
        self.durations = durations;
    }

    /// Records an inference: tokens are added to the running total (which
    /// wraps around at `u64::MAX`, like an atomic counter), and the duration
    /// joins the recent ones.
    pub fn record_inference(&mut self, duration_nanos: u64, tokens: u64)
        ensures
            final(self).view().tokens_generated == vstd::wrapping::u64_specs::wrapping_add(
                old(self).view().tokens_generated,
                tokens,
            ),
            final(self).view().inference_durations == keep_recent(old(self).view().inference_durations, duration_nanos),
            final(self).view().requests == old(self).view().requests,
            final(self).view().durations == old(self).view().durations,
            final(self).view().loaded_models == old(self).view().loaded_models,
            final(self).view().active_connections == old(self).view().active_connections,
    {
        proof {
            use_type_invariant(&*self);
        }
        self.tokens_generated = self.tokens_generated.wrapping_add(tokens);
        let mut ds: Vec<u64> = Vec::new();
        std::mem::swap(&mut ds, &mut self.inference_durations);
        if ds.len() >= MAX_DURATIONS {
            ds.remove(0);
        }
        ds.push(duration_nanos);
        proof {
            if old(self).view().inference_durations.len() >= MAX_DURATIONS {
                assert(ds@ =~= keep_recent(old(self).view().inference_durations, duration_nanos));
            }
        }
        self.inference_durations = ds;
        proof {
            assert(self.view().requests =~= old(self).view().requests);
        }
    }

    /// Sets the loaded-models count.
    pub fn set_loaded_models(&mut self, count: u64)
        ensures
            final(self).view() == (MetricsView { loaded_models: count, ..old(self).view() }),
    {
        proof {
            use_type_invariant(&*self);
        }
        self.loaded_models = count;
        proof {
            assert(self.view().requests =~= old(self).view().requests);
        }
    }

    /// Increments active connections (wrapping, like an atomic counter).
    pub fn inc_connections(&mut self)
        ensures
            final(self).view() == (MetricsView {
                active_connections: vstd::wrapping::u64_specs::wrapping_add(old(self).view().active_connections, 1),
                ..old(self).view()
            }),
    {
        proof {
            use_type_invariant(&*self);
        }
        self.active_connections = self.active_connections.wrapping_add(1);
        proof {
            assert(self.view().requests =~= old(self).view().requests);
        }
    }

    /// Decrements active connections (wrapping, like an atomic counter).
    pub fn dec_connections(&mut self)
        ensures
            final(self).view() == (MetricsView {
                active_connections: vstd::wrapping::u64_specs::wrapping_sub(old(self).view().active_connections, 1),
                ..old(self).view()
            }),
    {
        proof {
            use_type_invariant(&*self);
        }
        self.active_connections = self.active_connections.wrapping_sub(1);
        proof {
            assert(self.view().requests =~= old(self).view().requests);
        }
    }

    /// Prometheus text for these metrics, with the uptime given in seconds.
    pub fn export_at(&self, uptime_secs: u64) -> (r: String)
        ensures
            r@ == export_text(self.view(), uptime_secs as nat),
            requests_unique(self.view().requests),
    {
        proof {
            use_type_invariant(self);
        }
        let mut output = String::new();
        output.append("# HELP lms_uptime_seconds Server uptime in seconds\n");
        output.append("# TYPE lms_uptime_seconds gauge\n");
        output.append("lms_uptime_seconds ");
        push_decimal(&mut output, uptime_secs as u128);
        output.append("\n\n");
        output.append("# HELP lms_requests_total Total HTTP requests\n");
        output.append("# TYPE lms_requests_total counter\n");
        push_request_lines(&mut output, &self.requests);
        output.append("\n");
        output.append("# HELP lms_request_duration_seconds Request latency histogram\n");
        output.append("# TYPE lms_request_duration_seconds histogram\n");
        let request_table = request_bucket_table();
        assert(request_table@.len() == request_buckets().len());
        push_histogram(&mut output, "lms_request_duration_seconds", &request_table, &self.durations);
        output.append("\n");
        output.append("# HELP lms_models_loaded Number of currently loaded models\n");
        output.append("# TYPE lms_models_loaded gauge\n");
        output.append("lms_models_loaded ");
        push_decimal(&mut output, self.loaded_models as u128);
        output.append("\n\n");
        output.append("# HELP lms_active_connections Current active connections\n");
        output.append("# TYPE lms_active_connections gauge\n");
        output.append("lms_active_connections ");
        push_decimal(&mut output, self.active_connections as u128);
        output.append("\n\n");
        output.append("# HELP lms_tokens_generated_total Total tokens generated\n");
        output.append("# TYPE lms_tokens_generated_total counter\n");
        output.append("lms_tokens_generated_total ");
        push_decimal(&mut output, self.tokens_generated as u128);
        output.append("\n\n");
        output.append("# HELP lms_inference_duration_seconds Inference latency histogram\n");
        output.append("# TYPE lms_inference_duration_seconds histogram\n");
        let inference_table = inference_bucket_table();
        assert(inference_table@.len() == inference_buckets().len());
        push_histogram(&mut output, "lms_inference_duration_seconds", &inference_table, &self.inference_durations);
        output
    }

    /// Prometheus text for these metrics, with the uptime measured now.
    pub fn export(&self) -> (r: String)
        ensures
            exists|uptime: u64| r@ == #[trigger] export_text(self.view(), uptime as nat),
            requests_unique(self.view().requests),
    {
        let uptime = elapsed_nanos(&self.start_time) / 1_000_000_000;
        self.export_at(uptime)
    }

    pub fn loaded_models(&self) -> (n: u64)
        ensures
            n == self.view().loaded_models,
    {
        self.loaded_models
    }

    pub fn active_connections(&self) -> (n: u64)
        ensures
            n == self.view().active_connections,
    {
        self.active_connections
    }

    pub fn tokens_generated(&self) -> (n: u64)
        ensures
            n == self.view().tokens_generated,
    {
        self.tokens_generated
    }

    /// Requests recorded for an endpoint and status.
    pub fn request_count(&self, endpoint: &str, status: u16) -> (n: u64)
        ensures
            n as nat == count_of(self.view().requests, endpoint@, status),
    {
        let ghost reqs = self.view().requests;
        let n = self.requests.len();
        let mut i: usize = 0;
        while i < n && !(str_eq(self.requests[i].endpoint.as_str(), endpoint) && self.requests[i].status == status)
            invariant
                n == self.requests@.len(),
                i <= n,
                reqs == self.view().requests,
                forall|k: int| 0 <= k < i ==> !(reqs[k].0 == endpoint@ && reqs[k].1 == status),
            decreases n - i,
        {
            i = i + 1;
        }
        proof {
            lemma_count_first(reqs, endpoint@, status, i as int);
        }
        if i == n {
            0
        } else {
            self.requests[i].count
        }
    }
}

/// Histogram buckets for request latency: printed bound and bound in nanoseconds.
pub open spec fn request_buckets() -> Seq<(Seq<char>, u64)> {
    seq![
        ("0.001"@, 1_000_000u64),
        ("0.005"@, 5_000_000u64),
        ("0.01"@, 10_000_000u64),
        ("0.025"@, 25_000_000u64),
        ("0.05"@, 50_000_000u64),
        ("0.1"@, 100_000_000u64),
        ("0.25"@, 250_000_000u64),
        ("0.5"@, 500_000_000u64),
        ("1"@, 1_000_000_000u64),
        ("2.5"@, 2_500_000_000u64),
        ("5"@, 5_000_000_000u64),
        ("10"@, 10_000_000_000u64),
    ]
}

/// Histogram buckets for inference latency: printed bound and bound in nanoseconds.
pub open spec fn inference_buckets() -> Seq<(Seq<char>, u64)> {
    seq![
        ("0.1"@, 100_000_000u64),
        ("0.5"@, 500_000_000u64),
        ("1"@, 1_000_000_000u64),
        ("2.5"@, 2_500_000_000u64),
        ("5"@, 5_000_000_000u64),
        ("10"@, 10_000_000_000u64),
        ("30"@, 30_000_000_000u64),
        ("60"@, 60_000_000_000u64),
        ("120"@, 120_000_000_000u64),
    ]
}

fn request_bucket_table() -> (v: Vec<(&'static str, u64)>)
    ensures
        v@.map_values(|p: (&str, u64)| (p.0@, p.1)) == request_buckets(),
{
    let v = vec![
        ("0.001", 1_000_000u64),
        ("0.005", 5_000_000u64),
        ("0.01", 10_000_000u64),
        ("0.025", 25_000_000u64),
        ("0.05", 50_000_000u64),
        ("0.1", 100_000_000u64),
        ("0.25", 250_000_000u64),
        ("0.5", 500_000_000u64),
        ("1", 1_000_000_000u64),
        ("2.5", 2_500_000_000u64),
        ("5", 5_000_000_000u64),
        ("10", 10_000_000_000u64),
    ];
    assert(v@.map_values(|p: (&str, u64)| (p.0@, p.1)) =~= request_buckets());
    v
}

fn inference_bucket_table() -> (v: Vec<(&'static str, u64)>)
    ensures
        v@.map_values(|p: (&str, u64)| (p.0@, p.1)) == inference_buckets(),
{
    let v = vec![
        ("0.1", 100_000_000u64),
        ("0.5", 500_000_000u64),
        ("1", 1_000_000_000u64),
        ("2.5", 2_500_000_000u64),
        ("5", 5_000_000_000u64),
        ("10", 10_000_000_000u64),
        ("30", 30_000_000_000u64),
        ("60", 60_000_000_000u64),
        ("120", 120_000_000_000u64),
    ];
    assert(v@.map_values(|p: (&str, u64)| (p.0@, p.1)) =~= inference_buckets());
    v
}

/// Number of durations at or below `bound`.
pub open spec fn count_le(ds: Seq<u64>, bound: u64) -> nat
    decreases ds.len(),
{
    if ds.len() == 0 {
        0
    } else {
        count_le(ds.drop_last(), bound) + if ds.last() <= bound { 1nat } else { 0nat }
    }
}

/// Histogram law: a bucket counts the durations at or below its bound, so
/// a bucket with a larger bound never counts fewer, and no bucket counts
/// more than the `+Inf` bucket, which counts them all.
pub proof fn histogram_law(ds: Seq<u64>, b1: u64, b2: u64)
    requires
        b1 <= b2,
    ensures
        count_le(ds, b1) <= count_le(ds, b2),
        count_le(ds, b2) <= ds.len(),
        count_le(ds, u64::MAX) == ds.len(),
    decreases ds.len(),
{
    if ds.len() > 0 {
        histogram_law(ds.drop_last(), b1, b2);
    }
}

/// The value printed for bucket `i`: the number of durations at or below
/// its bound (buckets are cumulative, as Prometheus histograms are).
pub open spec fn bucket_value(ds: Seq<u64>, buckets: Seq<(Seq<char>, u64)>, i: nat) -> nat {
    count_le(ds, buckets[i as int].1)
}

/// The first `n` bucket lines of a histogram.
pub open spec fn bucket_lines(name: Seq<char>, buckets: Seq<(Seq<char>, u64)>, ds: Seq<u64>, n: nat) -> Seq<char>
    decreases n,
{
    if n == 0 {
        Seq::empty()
    } else {
        bucket_lines(name, buckets, ds, (n - 1) as nat) + name + "_bucket{le=\""@ + buckets[n - 1].0
            + "\"} "@ + decimal(bucket_value(ds, buckets, (n - 1) as nat)) + "\n"@
    }
}

/// Sum of durations.
pub open spec fn sum_nanos(ds: Seq<u64>) -> nat
    decreases ds.len(),
{
    if ds.len() == 0 {
        0
    } else {
        sum_nanos(ds.drop_last()) + ds.last() as nat
    }
}

/// The last `w` decimal digits of `n`, zero-padded.
pub open spec fn padded(n: nat, w: nat) -> Seq<char>
    decreases w,
{
    if w == 0 {
        Seq::empty()
    } else {
        padded(n / 10, (w - 1) as nat).push(crate::strutil::digit_char(n % 10))
    }
}

/// A digit string without its trailing zeros.
pub open spec fn strip_zeros(s: Seq<char>) -> Seq<char>
    decreases s.len(),
{
    if s.len() > 0 && s.last() == '0' {
        strip_zeros(s.drop_last())
    } else {
        s
    }
}

/// A nanosecond amount written in seconds: whole seconds, then the
/// fraction without trailing zeros (no point when it is zero).
pub open spec fn seconds_text(n: nat) -> Seq<char> {
    let frac = n % 1_000_000_000;
    if frac == 0 {
        decimal(n / 1_000_000_000)
    } else {
        decimal(n / 1_000_000_000) + "."@ + strip_zeros(padded(frac, 9))
    }
}

/// Ten to the power `k`.
pub open spec fn pow10(k: nat) -> nat
    decreases k,
{
    if k == 0 { 1 } else { 10 * pow10((k - 1) as nat) }
}

proof fn lemma_digit_char(d: nat)
    requires
        d < 10,
    ensures
        '0' <= digit_char(d) <= '9',
        ((digit_char(d) as u32) - ('0' as u32)) as nat == d,
{
}

/// A number written in decimal reads back as itself.
proof fn lemma_decimal_value(m: nat)
    ensures
        all_digits(decimal(m)),
        decimal(m).len() > 0,
        digits_value(decimal(m)) == m,
    decreases m,
{
    if m < 10 {
        lemma_digit_char(m);
        let d = seq![digit_char(m)];
        assert(d.drop_last() =~= Seq::<char>::empty());
        assert(digits_value(Seq::<char>::empty()) == 0);
        assert(d.last() == digit_char(m));
        assert(digits_value(d) == digits_value(d.drop_last()) * 10 + ((d.last() as u32) - ('0' as u32)) as nat);
    } else {
        lemma_decimal_value(m / 10);
        lemma_digit_char(m % 10);
        let d = decimal(m / 10).push(digit_char(m % 10));
        assert(d.drop_last() =~= decimal(m / 10));
        assert forall|i: int| 0 <= i < d.len() implies '0' <= #[trigger] d[i] <= '9' by {
            if i < d.len() - 1 {
                assert(d[i] == decimal(m / 10)[i]);
            }
        }
    }
}

/// The last `w` digits of a number below ten to the `w` read back as the number.
proof fn lemma_padded_value(f: nat, w: nat)
    requires
        f < pow10(w),
    ensures
        all_digits(padded(f, w)),
        padded(f, w).len() == w,
        digits_value(padded(f, w)) == f,
    decreases w,
{
    if w > 0 {
        assert(f / 10 < pow10((w - 1) as nat));
        lemma_padded_value(f / 10, (w - 1) as nat);
        lemma_digit_char(f % 10);
        let d = padded(f / 10, (w - 1) as nat).push(digit_char(f % 10));
        assert(d.drop_last() =~= padded(f / 10, (w - 1) as nat));
        assert forall|i: int| 0 <= i < d.len() implies '0' <= #[trigger] d[i] <= '9' by {
            if i < d.len() - 1 {
                assert(d[i] == padded(f / 10, (w - 1) as nat)[i]);
            }
        }
    }
}

/// Dropping trailing zeros divides a digit string's value by ten for each.
proof fn lemma_strip_value(s: Seq<char>)
    requires
        all_digits(s),
    ensures
        strip_zeros(s).len() <= s.len(),
        strip_zeros(s) == s.take(strip_zeros(s).len() as int),
        all_digits(strip_zeros(s)),
        strip_zeros(s).len() > 0 ==> strip_zeros(s).last() != '0',
        digits_value(s) == digits_value(strip_zeros(s)) * pow10((s.len() - strip_zeros(s).len()) as nat),
    decreases s.len(),
{
    if s.len() > 0 && s.last() == '0' {
        let dl = s.drop_last();
        assert forall|i: int| 0 <= i < dl.len() implies '0' <= #[trigger] dl[i] <= '9' by {
            assert(dl[i] == s[i]);
        }
        lemma_strip_value(dl);
        let t = strip_zeros(dl);
        let k = (dl.len() - t.len()) as nat;
        assert(t =~= s.take(t.len() as int));
        assert(digits_value(s) == digits_value(dl) * 10);
        assert(digits_value(dl) * 10 == digits_value(t) * (10 * pow10(k))) by (nonlinear_arith)
            requires
                digits_value(dl) == digits_value(t) * pow10(k);
        assert(pow10((k + 1) as nat) == 10 * pow10(k));
        assert(strip_zeros(s) == t);
        assert((s.len() - t.len()) as nat == (k + 1) as nat);
        assert(pow10((s.len() - strip_zeros(s).len()) as nat) == 10 * pow10(k));
    } else {
        assert(s.take(s.len() as int) =~= s);
        assert(strip_zeros(s) == s);
        assert(pow10((s.len() - strip_zeros(s).len()) as nat) == 1);
        assert(digits_value(s) * 1 == digits_value(s));
    }
}

/// Read as a decimal number, the seconds text of `n` nanoseconds is
/// exactly `n / 10^9`: whole seconds `ip`, and a fraction `fp` of at most
/// nine digits (none when the fraction is zero, no trailing zero).
pub proof fn seconds_text_law(n: nat)
    ensures
        exists|ip: Seq<char>, fp: Seq<char>| #![trigger digits_value(ip), digits_value(fp)] {
            &&& all_digits(ip) && ip.len() > 0
            &&& all_digits(fp) && fp.len() <= 9
            &&& (fp.len() > 0 ==> fp.last() != '0')
            &&& seconds_text(n) == if fp.len() == 0 { ip } else { ip + "."@ + fp }
            &&& digits_value(ip) * 1_000_000_000 + digits_value(fp) * pow10((9 - fp.len()) as nat) == n
        },
{
    let q = n / 1_000_000_000;
    let frac = n % 1_000_000_000;
    lemma_decimal_value(q);
    let ip = decimal(q);
    assert(pow10(9) == 1_000_000_000) by {
        reveal_with_fuel(pow10, 10);
    }
    if frac == 0 {
        let fp = Seq::<char>::empty();
        assert(digits_value(fp) == 0);
        assert(seconds_text(n) == if fp.len() == 0 { ip } else { ip + "."@ + fp });
        assert(digits_value(ip) * 1_000_000_000 + digits_value(fp) * pow10((9 - fp.len()) as nat) == n);
    } else {
        lemma_padded_value(frac, 9);
        let pd = padded(frac, 9);
        lemma_strip_value(pd);
        let fp = strip_zeros(pd);
        assert(digits_value(pd) == frac);
        assert(fp.len() > 0) by {
            if fp.len() == 0 {
                assert(fp =~= Seq::<char>::empty());
                assert(digits_value(fp) == 0);
                let k = (pd.len() - fp.len()) as nat;
                let z = digits_value(fp);
                let pk = pow10(k);
                assert(z * pk == 0) by (nonlinear_arith)
                    requires
                        z == 0;
            }
        }
        assert(seconds_text(n) == if fp.len() == 0 { ip } else { ip + "."@ + fp });
        assert(digits_value(ip) * 1_000_000_000 + digits_value(fp) * pow10((9 - fp.len()) as nat) == n);
    }
}

/// A histogram in Prometheus text format; nothing when there are no durations.
pub open spec fn histogram_text(name: Seq<char>, buckets: Seq<(Seq<char>, u64)>, ds: Seq<u64>) -> Seq<char> {
    if ds.len() == 0 {
        Seq::empty()
    } else {
        bucket_lines(name, buckets, ds, buckets.len()) + name + "_bucket{le=\"+Inf\"} "@ + decimal(ds.len())
            + "\n"@ + name + "_sum "@ + seconds_text(sum_nanos(ds)) + "\n"@ + name + "_count "@
            + decimal(ds.len()) + "\n"@
    }
}

/// One request-count line.
pub open spec fn request_line(e: (Seq<char>, u16, u64)) -> Seq<char> {
    "lms_requests_total{endpoint=\""@ + e.0 + "\",status=\""@ + decimal(e.1 as nat) + "\"} "@
        + decimal(e.2 as nat) + "\n"@
}

/// All request-count lines, in order.
pub open spec fn request_lines(reqs: Seq<(Seq<char>, u16, u64)>) -> Seq<char>
    decreases reqs.len(),
{
    if reqs.len() == 0 {
        Seq::empty()
    } else {
        request_lines(reqs.drop_last()) + request_line(reqs.last())
    }
}

/// The whole export for given metrics and uptime.
pub open spec fn export_text(m: MetricsView, uptime: nat) -> Seq<char> {
    "# HELP lms_uptime_seconds Server uptime in seconds\n"@ + "# TYPE lms_uptime_seconds gauge\n"@
        + "lms_uptime_seconds "@ + decimal(uptime) + "\n\n"@
        + "# HELP lms_requests_total Total HTTP requests\n"@ + "# TYPE lms_requests_total counter\n"@
        + request_lines(m.requests) + "\n"@
        + "# HELP lms_request_duration_seconds Request latency histogram\n"@
        + "# TYPE lms_request_duration_seconds histogram\n"@
        + histogram_text("lms_request_duration_seconds"@, request_buckets(), m.durations) + "\n"@
        + "# HELP lms_models_loaded Number of currently loaded models\n"@
        + "# TYPE lms_models_loaded gauge\n"@ + "lms_models_loaded "@ + decimal(m.loaded_models as nat) + "\n\n"@
        + "# HELP lms_active_connections Current active connections\n"@
        + "# TYPE lms_active_connections gauge\n"@ + "lms_active_connections "@
        + decimal(m.active_connections as nat) + "\n\n"@
        + "# HELP lms_tokens_generated_total Total tokens generated\n"@
        + "# TYPE lms_tokens_generated_total counter\n"@ + "lms_tokens_generated_total "@
        + decimal(m.tokens_generated as nat) + "\n\n"@
        + "# HELP lms_inference_duration_seconds Inference latency histogram\n"@
        + "# TYPE lms_inference_duration_seconds histogram\n"@
        + histogram_text("lms_inference_duration_seconds"@, inference_buckets(), m.inference_durations)
}

/// Appends the last `w` decimal digits of `n`, zero-padded.
fn push_padded(s: &mut Vec<char>, n: u64, w: usize)
    ensures
        final(s)@ == old(s)@ + padded(n as nat, w as nat),
    decreases w,
{
    if w > 0 {
        push_padded(s, n / 10, w - 1);
        s.push(crate::strutil::digit_char_exec(n % 10));
        assert(old(s)@ + padded((n / 10) as nat, (w - 1) as nat) + seq![crate::strutil::digit_char((n % 10) as nat)]
            =~= old(s)@ + padded(n as nat, w as nat));
    } else {
        assert(old(s)@ + padded(n as nat, 0) =~= old(s)@);
    }
}

proof fn lemma_strip_zeros_prefix(s: Seq<char>, k: int)
    requires
        0 <= k <= s.len(),
        forall|j: int| k <= j < s.len() ==> s[j] == '0',
    ensures
        strip_zeros(s) == strip_zeros(s.take(k)),
    decreases s.len() - k,
{
    if k < s.len() {
        assert(s.last() == s[s.len() - 1]);
        assert(s.drop_last() =~= s.take(s.len() - 1));
        lemma_strip_zeros_prefix(s.drop_last(), k);
        assert(s.drop_last().take(k) =~= s.take(k));
    } else {
        assert(s.take(k) =~= s);
    }
}

/// Appends a nanosecond amount written in seconds.
fn push_seconds(out: &mut String, n: u128)
    ensures
        final(out)@ == old(out)@ + seconds_text(n as nat),
{
    push_decimal(out, n / 1_000_000_000);
    let frac = (n % 1_000_000_000) as u64;
    let ghost int_part = out@;
    if frac != 0 {
        push_char(out, '.');
        proof {
            reveal_strlit(".");
            assert(out@ =~= int_part + "."@);
        }
        let mut digits: Vec<char> = Vec::new();
        push_padded(&mut digits, frac, 9);
        assert(digits@ =~= padded(frac as nat, 9));
        let mut len: usize = digits.len();
        while len > 0 && digits[len - 1] == '0'
            invariant
                len <= digits@.len(),
                forall|j: int| len <= j < digits@.len() ==> digits@[j] == '0',
            decreases len,
        {
            len = len - 1;
        }
        proof {
            lemma_strip_zeros_prefix(digits@, len as int);
            if len > 0 {
                assert(digits@.take(len as int).last() == digits@[len - 1]);
            }
            assert(strip_zeros(digits@.take(len as int)) == digits@.take(len as int));
        }
        let ghost before = out@;
        let mut k: usize = 0;
        while k < len
            invariant
                k <= len <= digits@.len(),
                out@ == before + digits@.take(k as int),
            decreases len - k,
        {
            push_char(out, digits[k]);
            assert(digits@.take(k + 1) =~= digits@.take(k as int).push(digits@[k as int]));
            k = k + 1;
        }
        assert(digits@.take(len as int) == strip_zeros(padded(frac as nat, 9)));
        assert(out@ =~= old(out)@ + seconds_text(n as nat));
    }
}

/// Appends a histogram of `ds` with the given buckets.
fn push_histogram(out: &mut String, name: &str, buckets: &Vec<(&'static str, u64)>, ds: &Vec<u64>)
    requires
        ds@.len() <= MAX_DURATIONS,
        buckets@.len() >= 1,
        buckets@.len() <= 12,
    ensures
        final(out)@ == old(out)@ + histogram_text(name@, buckets@.map_values(|p: (&str, u64)| (p.0@, p.1)), ds@),
{
    let ghost bs = buckets@.map_values(|p: (&str, u64)| (p.0@, p.1));
    if ds.len() == 0 {
        assert(old(out)@ + histogram_text(name@, bs, ds@) =~= old(out)@);
        return;
    }
    let nb = buckets.len();
    let mut i: usize = 0;
    let ghost before = out@;
    while i < nb
        invariant
            bs == buckets@.map_values(|p: (&str, u64)| (p.0@, p.1)),
            nb == bs.len(),
            1 <= nb <= 12,
            ds@.len() <= MAX_DURATIONS,
            i <= nb,
            out@ == before + bucket_lines(name@, bs, ds@, i as nat),
        decreases nb - i,
    {
        let bound = buckets[i].1;
        let c = count_at_most(ds, bound);
        proof {
            assert(bs[i as int].1 == bound);
        }
        out.append(name);
        out.append("_bucket{le=\"");
        out.append(buckets[i].0);
        out.append("\"} ");
        push_decimal(out, c as u128);
        out.append("\n");
        proof {
            assert(bs[i as int].0 == buckets@[i as int].0@);
            assert(out@ =~= before + bucket_lines(name@, bs, ds@, (i + 1) as nat));
        }
        i = i + 1;
    }
    out.append(name);
    out.append("_bucket{le=\"+Inf\"} ");
    push_decimal(out, ds.len() as u128);
    out.append("\n");
    out.append(name);
    out.append("_sum ");
    let total = total_nanos(ds);
    push_seconds(out, total);
    out.append("\n");
    out.append(name);
    out.append("_count ");
    push_decimal(out, ds.len() as u128);
    out.append("\n");
    assert(out@ =~= old(out)@ + histogram_text(name@, bs, ds@));
}

/// Number of durations at or below `bound`.
fn count_at_most(ds: &Vec<u64>, bound: u64) -> (c: u64)
    requires
        ds@.len() <= MAX_DURATIONS,
    ensures
        c == count_le(ds@, bound),
        c <= MAX_DURATIONS,
{
    let mut c: u64 = 0;
    let mut k: usize = 0;
    while k < ds.len()
        invariant
            k <= ds@.len() <= MAX_DURATIONS,
            c == count_le(ds@.take(k as int), bound),
            c <= k,
        decreases ds@.len() - k,
    {
        assert(ds@.take(k + 1).drop_last() =~= ds@.take(k as int));
        if ds[k] <= bound {
            c = c + 1;
        }
        k = k + 1;
    }
    assert(ds@.take(ds@.len() as int) =~= ds@);
    c
}

/// Sum of durations.
fn total_nanos(ds: &Vec<u64>) -> (t: u128)
    requires
        ds@.len() <= MAX_DURATIONS,
    ensures
        t == sum_nanos(ds@),
{
    let mut t: u128 = 0;
    let mut k: usize = 0;
    while k < ds.len()
        invariant
            k <= ds@.len() <= MAX_DURATIONS,
            t == sum_nanos(ds@.take(k as int)),
            t <= k * (u64::MAX as u128),
        decreases ds@.len() - k,
    {
        assert(ds@.take(k + 1).drop_last() =~= ds@.take(k as int));
        t = t + ds[k] as u128;
        k = k + 1;
    }
    assert(ds@.take(ds@.len() as int) =~= ds@);
    t
}

/// Installs fresh metrics unless some are installed already.
pub fn init_metrics(slot: &mut Option<Metrics>)
    ensures
        *final(slot) is Some,
        *old(slot) is Some ==> *final(slot) == *old(slot),
        *old(slot) is None ==> (*final(slot) matches Some(m) && m.view().requests.len() == 0
            && m.view().durations.len() == 0 && m.view().loaded_models == 0
            && m.view().active_connections == 0 && m.view().tokens_generated == 0
            && m.view().inference_durations.len() == 0),
{
    if slot.is_none() {
        *slot = Some(Metrics::new());
    }
}

/// The installed metrics, if any.
pub fn get_metrics(slot: &Option<Metrics>) -> (r: Option<&Metrics>)
    ensures
        r is Some == slot is Some,
        r matches Some(m) ==> *m == slot->Some_0,
{
    match slot {
        Some(m) => Some(m),
        None => None,
    }
}

/// Connection counting is reversible: a decrement undoes an increment,
/// including at the wrap-around point.
pub proof fn connections_inc_dec_law(x: u64)
    ensures
        vstd::wrapping::u64_specs::wrapping_sub(vstd::wrapping::u64_specs::wrapping_add(x, 1), 1) == x,
{
}

/// Appends one line per request count.
fn push_request_lines(out: &mut String, reqs: &Vec<RequestCount>)
    ensures
        final(out)@ == old(out)@ + request_lines(reqs@.map_values(|r: RequestCount| (r.endpoint@, r.status, r.count))),
{
    let ghost rv = reqs@.map_values(|r: RequestCount| (r.endpoint@, r.status, r.count));
    let mut i: usize = 0;
    while i < reqs.len()
        invariant
            rv == reqs@.map_values(|r: RequestCount| (r.endpoint@, r.status, r.count)),
            i <= rv.len(),
            out@ == old(out)@ + request_lines(rv.take(i as int)),
        decreases rv.len() - i,
    {
        proof {
            assert(rv.take(i + 1).drop_last() =~= rv.take(i as int));
            assert(rv.take(i + 1).last() == rv[i as int]);
        }
        out.append("lms_requests_total{endpoint=\"");
        out.append(reqs[i].endpoint.as_str());
        out.append("\",status=\"");
        push_decimal(out, reqs[i].status as u128);
        out.append("\"} ");
        push_decimal(out, reqs[i].count as u128);
        out.append("\n");
        assert(out@ =~= old(out)@ + request_lines(rv.take(i + 1)));
        i = i + 1;
    }
    assert(rv.take(rv.len() as int) =~= rv);
}

/// Whether two strings are equal.
pub fn str_eq(a: &str, b: &str) -> (r: bool)
    ensures
        r == (a@ == b@),
{
    let x = chars_of(a);
    let y = chars_of(b);
    if x.len() != y.len() {
        return false;
    }
    let mut i: usize = 0;
    while i < x.len()
        invariant
            x@ == a@,
            y@ == b@,
            x@.len() == y@.len(),
            i <= x@.len(),
            forall|k: int| 0 <= k < i ==> x@[k] == y@[k],
        decreases x@.len() - i,
    {
        if x[i] != y[i] {
            return false;
        }
        i = i + 1;
    }
    assert(x@ =~= y@);
    true
}

proof fn lemma_count_first(reqs: Seq<(Seq<char>, u16, u64)>, e: Seq<char>, s: u16, i: int)
    requires
        0 <= i <= reqs.len(),
        forall|k: int| 0 <= k < i ==> !(reqs[k].0 == e && reqs[k].1 == s),
        i < reqs.len() ==> (reqs[i].0 == e && reqs[i].1 == s),
    ensures
        i == reqs.len() ==> first_value(keyed_counts(reqs), (e, s)) is None && count_of(reqs, e, s) == 0,
        i < reqs.len() ==> count_of(reqs, e, s) == reqs[i].2,
{
    let kc = keyed_counts(reqs);
    assert forall|k: int| 0 <= k < i implies kc[k].0 != (e, s) by {
        assert(kc[k] == ((reqs[k].0, reqs[k].1), reqs[k].2));
    }
    if i < reqs.len() {
        assert(kc[i] == ((reqs[i].0, reqs[i].1), reqs[i].2));
    }
    lemma_first_value_at(kc, (e, s), i);
}

proof fn lemma_count_push(reqs: Seq<(Seq<char>, u16, u64)>, e: Seq<char>, s: u16, c: u64)
    requires
        forall|k: int| 0 <= k < reqs.len() ==> !(reqs[k].0 == e && reqs[k].1 == s),
    ensures
        forall|e2: Seq<char>, s2: u16| #[trigger] count_of(reqs.push((e, s, c)), e2, s2)
            == if e2 == e && s2 == s { c as nat } else { count_of(reqs, e2, s2) },
{
    lemma_count_first(reqs, e, s, reqs.len() as int);
    let kc = keyed_counts(reqs);
    assert(keyed_counts(reqs.push((e, s, c))) =~= kc.push(((e, s), c)));
    assert forall|e2: Seq<char>, s2: u16| #[trigger] count_of(reqs.push((e, s, c)), e2, s2)
        == if e2 == e && s2 == s { c as nat } else { count_of(reqs, e2, s2) } by {
        lemma_first_value_push(kc, ((e, s), c), (e2, s2));
    }
}

proof fn lemma_count_update(reqs: Seq<(Seq<char>, u16, u64)>, e: Seq<char>, s: u16, i: int, c: u64)
    requires
        0 <= i < reqs.len(),
        reqs[i].0 == e && reqs[i].1 == s,
        forall|k: int| 0 <= k < i ==> !(reqs[k].0 == e && reqs[k].1 == s),
    ensures
        forall|e2: Seq<char>, s2: u16| #[trigger] count_of(reqs.update(i, (e, s, c)), e2, s2)
            == if e2 == e && s2 == s { c as nat } else { count_of(reqs, e2, s2) },
{
    let kc = keyed_counts(reqs);
    assert(keyed_counts(reqs.update(i, (e, s, c))) =~= kc.update(i, ((e, s), c)));
    assert(kc[i] == ((reqs[i].0, reqs[i].1), reqs[i].2));
    assert forall|k: int| 0 <= k < i implies kc[k].0 != (e, s) by {
        assert(kc[k] == ((reqs[k].0, reqs[k].1), reqs[k].2));
    }
    assert forall|e2: Seq<char>, s2: u16| #[trigger] count_of(reqs.update(i, (e, s, c)), e2, s2)
        == if e2 == e && s2 == s { c as nat } else { count_of(reqs, e2, s2) } by {
        lemma_first_value_update(kc, i, ((e, s), c), (e2, s2));
    }
}

} // verus!
