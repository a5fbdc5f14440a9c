//! API key authentication.
//!
//! Keys come from the `LMS_API_KEY` setting (one key) and the
//! `LMS_API_KEYS` setting (comma-separated list). Requests present a key
//! with `Authorization: Bearer <key>` or `X-API-Key: <key>`. When no key is
//! configured, authentication is disabled.

use vstd::prelude::*;
use crate::metrics::str_eq;
use crate::paths::{split_chars, split_on};
use crate::strutil::{chars_of, string_from_chars};
use crate::types::ApiError;

verus! {

/// The Unicode White_Space property: tab, line feed, vertical tab, form
/// feed, carriage return, space, next line, no-break space, ogham space
/// mark, the spaces U+2000 to U+200A, line and paragraph separators,
/// narrow no-break space, medium mathematical space and ideographic space.
pub open spec fn is_white_space(c: char) -> bool {
    let n = c as u32;
    ||| 0x09 <= n <= 0x0D
    ||| n == 0x20
    ||| n == 0x85
    ||| n == 0xA0
    ||| n == 0x1680
    ||| 0x2000 <= n <= 0x200A
    ||| n == 0x2028
    ||| n == 0x2029
    ||| n == 0x202F
    ||| n == 0x205F
    ||| n == 0x3000
}

/// Whether a character is white space, as `char::is_whitespace` decides.
pub(crate) fn char_is_whitespace(c: char) -> (b: bool)
    ensures
        b == is_white_space(c),
{
    let n = c as u32;
    (0x09 <= n && n <= 0x0D) || n == 0x20 || n == 0x85 || n == 0xA0 || n == 0x1680
        || (0x2000 <= n && n <= 0x200A) || n == 0x2028 || n == 0x2029 || n == 0x202F
        || n == 0x205F || n == 0x3000
}

/// Index of the first non-whitespace character (or the length).
pub open spec fn trim_start_index(s: Seq<char>) -> nat
    decreases s.len(),
{
    if s.len() > 0 && is_white_space(s[0]) {
        1 + trim_start_index(s.drop_first())
    } else {
        0
    }
}

/// `s` without leading and trailing whitespace, as `str::trim` returns it.
pub open spec fn trimmed(s: Seq<char>) -> Seq<char>
    decreases s.len(),
{
    if s.len() > 0 && is_white_space(s[0]) {
        trimmed(s.drop_first())
    } else if s.len() > 0 && is_white_space(s.last()) {
        trimmed(s.drop_last())
    } else {
        s
    }
}

proof fn lemma_trimmed_range(s: Seq<char>, a: int, b: int)
    requires
        0 <= a <= b <= s.len(),
        forall|k: int| 0 <= k < a ==> is_white_space(#[trigger] s[k]),
        forall|k: int| b <= k < s.len() ==> is_white_space(#[trigger] s[k]),
        a == b || (!is_white_space(s[a]) && !is_white_space(s[b - 1])),
    ensures
        trimmed(s) == s.subrange(a, b),
    decreases s.len(),
{
    if a > 0 {
        assert(s.drop_first().subrange(a - 1, b - 1) =~= s.subrange(a, b));
        lemma_trimmed_range(s.drop_first(), a - 1, b - 1);
    } else if b < s.len() {
        if s.len() > 0 && is_white_space(s[0]) {
            assert(a == b);
            assert(s.drop_first().subrange(0, 0) =~= s.subrange(a, b));
            lemma_trimmed_range(s.drop_first(), 0, 0);
        } else {
            assert(s.last() == s[s.len() - 1]);
            assert(s.drop_last().subrange(a, b) =~= s.subrange(a, b));
            lemma_trimmed_range(s.drop_last(), a, b);
        }
    } else {
        if a < b {
            assert(s[0] == s[a]);
            assert(s.last() == s[b - 1]);
        }
        assert(s.subrange(a, b) =~= s);
    }
}

/// Trims leading and trailing whitespace.
pub fn trim_chars(s: &Vec<char>) -> (r: Vec<char>)
    ensures
        r@ == trimmed(s@),
{
    let n = s.len();
    let mut a: usize = 0;
    while a < n && char_is_whitespace(s[a])
        invariant
            n == s@.len(),
            a <= n,
            forall|k: int| 0 <= k < a ==> is_white_space(#[trigger] s@[k]),
        decreases n - a,
    {
        a = a + 1;
    }
    let mut b: usize = n;
    while b > a && char_is_whitespace(s[b - 1])
        invariant
            n == s@.len(),
            a <= b <= n,
            forall|k: int| b <= k < n ==> is_white_space(#[trigger] s@[k]),
        decreases b,
    {
        b = b - 1;
    }
    proof {
        lemma_trimmed_range(s@, a as int, b as int);
    }
    let mut r: Vec<char> = Vec::new();
    let mut k: usize = a;
    while k < b
        invariant
            a <= k <= b <= n,
            n == s@.len(),
            r@ == s@.subrange(a as int, k as int),
        decreases b - k,
    {
        r.push(s[k]);
        assert(r@ =~= s@.subrange(a as int, k + 1));
        k = k + 1;
    }
    r
}

/// The configured API keys.
pub struct ApiKeys {
    keys: Vec<String>,
}

/// The keys named by the two settings: the single key when non-empty, and
/// every non-empty trimmed piece of the comma-separated list.
pub open spec fn configured_keys(single: Option<Seq<char>>, multi: Option<Seq<char>>) -> Set<Seq<char>> {
    let a = match single {
        Some(k) => if k.len() > 0 { set![k] } else { Set::empty() },
        None => Set::empty(),
    };
    let b = match multi {
        Some(m) => Set::new(|k: Seq<char>| k.len() > 0 && exists|i: int| 0 <= i < split_on(m, ',').len()
            && trimmed(#[trigger] split_on(m, ',')[i]) == k),
        None => Set::empty(),
    };
    a.union(b)
}

impl ApiKeys {
    /// The set of valid keys.
    pub closed spec fn view(&self) -> Set<Seq<char>> {
        self.keys@.map_values(|k: String| k@).to_set()
    }

    /// Keys from the values of the `LMS_API_KEY` and `LMS_API_KEYS` settings.
    pub fn from_env_values(single: Option<&str>, multi: Option<&str>) -> (k: Self)
        ensures
            k.view() == configured_keys(
                match single { Some(s) => Some(s@), None => None },
                match multi { Some(s) => Some(s@), None => None },
            ),
    {
        let mut keys = ApiKeys { keys: Vec::new() };
        let ghost sv = match single { Some(s) => Some(s@), None => None::<Seq<char>> };
        let ghost mv = match multi { Some(s) => Some(s@), None => None::<Seq<char>> };
        proof {
            assert(keys.view() =~= Set::<Seq<char>>::empty());
        }
        if let Some(key) = single {
            if !key.is_empty() {
                keys.insert(key.to_owned());
            }
        }
        let ghost after_single = keys.view();
        proof {
            assert(after_single =~= configured_keys(sv, None));
        }
        if let Some(list) = multi {
            let chars = chars_of(list);
            let pieces = split_chars(&chars, ',');
            let ghost ps = pieces@.map_values(|v: Vec<char>| v@);
            let mut i: usize = 0;
            while i < pieces.len()
                invariant
                    ps == pieces@.map_values(|v: Vec<char>| v@),
                    ps == split_on(list@, ','),
                    i <= ps.len(),
                    keys.view() == after_single.union(Set::new(|k: Seq<char>| k.len() > 0
                        && exists|j: int| 0 <= j < i && trimmed(#[trigger] ps[j]) == k)),
                decreases ps.len() - i,
            {
                let t = trim_chars(&pieces[i]);
                let ghost before = keys.view();
                if t.len() > 0 {
                    let s = string_from_chars(t.as_slice());
                    keys.insert(s);
                }
                proof {
                    assert(trimmed(ps[i as int]) == t@);
                    assert(keys.view() =~= after_single.union(Set::new(|k: Seq<char>| k.len() > 0
                        && exists|j: int| 0 <= j < i + 1 && trimmed(#[trigger] ps[j]) == k))) by {
                        assert forall|k: Seq<char>| #[trigger] keys.view().contains(k) <==> after_single.union(Set::new(|k: Seq<char>| k.len() > 0
                            && exists|j: int| 0 <= j < i + 1 && trimmed(#[trigger] ps[j]) == k)).contains(k) by {
                            if k.len() > 0 && exists|j: int| 0 <= j < i + 1 && trimmed(#[trigger] ps[j]) == k {
                                let j = choose|j: int| 0 <= j < i + 1 && trimmed(#[trigger] ps[j]) == k;
                                if j < i {
                                    assert(before.contains(k));
                                }
                            }
                        }
                    }
                }
                i = i + 1;
            }
            proof {
                assert(keys.view() =~= configured_keys(sv, mv));
            }
        } else {
            proof {
                assert(keys.view() =~= configured_keys(sv, mv));
            }
        }
        keys
    }

    /// Adds a key unless it is present.
    fn insert(&mut self, key: String)
        ensures
            final(self).view() == old(self).view().insert(key@),
    {
        if !self.contains(key.as_str()) {
            let ghost bm = self.keys@.map_values(|k: String| k@);
            self.keys.push(key);
            proof {
                let nm = self.keys@.map_values(|k: String| k@);
                assert(nm =~= bm.push(key@));
                assert forall|x: Seq<char>| #[trigger] nm.contains(x) <==> (bm.contains(x) || x == key@) by {
                    if bm.contains(x) {
                        let j = choose|j: int| 0 <= j < bm.len() && #[trigger] bm[j] == x;
                        assert(nm[j] == x);
                    }
                    if x == key@ {
                        assert(nm[bm.len() as int] == x);
                    }
                    if nm.contains(x) {
                        let j = choose|j: int| 0 <= j < nm.len() && #[trigger] nm[j] == x;
                        if j < bm.len() {
                            assert(bm[j] == x);
                        }
                    }
                }
                assert(self.view() =~= old(self).view().insert(key@));
            }
        } else {
            assert(self.view() =~= old(self).view().insert(key@));
        }
    }

    /// Whether `key` is a valid key.
    pub fn contains(&self, key: &str) -> (b: bool)
        ensures
            b == self.view().contains(key@),
    {
        let ghost kv = self.keys@.map_values(|k: String| k@);
        let mut i: usize = 0;
        while i < self.keys.len()
            invariant
                kv == self.keys@.map_values(|k: String| k@),
                i <= kv.len(),
                forall|j: int| 0 <= j < i ==> kv[j] != key@,
            decreases kv.len() - i,
        {
            if str_eq(self.keys[i].as_str(), key) {
                assert(kv[i as int] == key@);
                return true;
            }
            i = i + 1;
        }
        proof {
            if self.view().contains(key@) {
                let j = choose|j: int| 0 <= j < kv.len() && kv[j] == key@;
            }
        }
        false
    }

    /// Whether any key is configured.
    pub fn is_empty(&self) -> (b: bool)
        ensures
            b == (self.view().len() == 0),
    {
        proof {
            let kv = self.keys@.map_values(|k: String| k@);
            if kv.len() > 0 {
                assert(self.view().contains(kv[0]));
                vstd::set_lib::lemma_set_empty_equivalency_len(self.view());
            } else {
                assert(self.view() =~= Set::<Seq<char>>::empty());
            }
            kv.lemma_cardinality_of_set();
        }
        self.keys.len() == 0
    }
}

/// Installs the configured keys unless keys are installed already;
/// returns whether authentication is enabled.
pub fn init_api_keys(slot: &mut Option<ApiKeys>, single: Option<&str>, multi: Option<&str>) -> (enabled: bool)
    ensures
        *final(slot) is Some,
        *old(slot) is Some ==> *final(slot) == *old(slot),
        *old(slot) is None ==> final(slot)->Some_0.view() == configured_keys(
            match single { Some(s) => Some(s@), None => None },
            match multi { Some(s) => Some(s@), None => None },
        ),
        enabled == (final(slot)->Some_0.view().len() > 0),
{
    if slot.is_none() {
        *slot = Some(ApiKeys::from_env_values(single, multi));
    }
    match slot {
        Some(keys) => !keys.is_empty(),
        None => false,
    }
}

/// Whether API key authentication is enabled: keys are installed and
/// at least one is configured.
pub fn is_auth_enabled(slot: &Option<ApiKeys>) -> (b: bool)
    ensures
        b == (slot matches Some(k) && k.view().len() > 0),
{
    match slot {
        Some(keys) => !keys.is_empty(),
        None => false,
    }
}

/// Whether `key` is one of the installed keys.
pub fn validate_api_key(slot: &Option<ApiKeys>, key: &str) -> (b: bool)
    ensures
        b == (slot matches Some(k) && k.view().contains(key@)),
{
    match slot {
        Some(keys) => keys.contains(key),
        None => false,
    }
}

/// The key a request presents, from the `Authorization` header value (when
/// it starts with `Bearer `) or else from the `X-API-Key` header value.
pub open spec fn presented_key(authorization: Option<Seq<char>>, x_api_key: Option<Seq<char>>) -> Option<Seq<char>> {
    match authorization {
        Some(a) if a.len() >= 7 && a.take(7) == "Bearer "@ => Some(a.skip(7)),
        _ => x_api_key,
    }
}

/// Extracts the API key from the header values of a request.
pub fn extract_api_key(authorization: Option<&str>, x_api_key: Option<&str>) -> (r: Option<String>)
    ensures
        (match r { Some(s) => Some(s@), None => None }) == presented_key(
            match authorization { Some(s) => Some(s@), None => None },
            match x_api_key { Some(s) => Some(s@), None => None },
        ),
{
    if let Some(auth) = authorization {
        let a = chars_of(auth);
        let prefix = chars_of("Bearer ");
        proof {
            reveal_strlit("Bearer ");
            assert(prefix@.len() == 7);
        }
        if a.len() >= 7 {
            let mut i: usize = 0;
            let mut same = true;
            while i < 7
                invariant
                    i <= 7 <= a@.len(),
                    prefix@ == "Bearer "@,
                    prefix@.len() == 7,
                    same == (forall|k: int| 0 <= k < i ==> a@[k] == prefix@[k]),
                decreases 7 - i,
            {
                if a[i] != prefix[i] {
                    same = false;
                }
                i = i + 1;
            }
            if same {
                assert(a@.take(7) =~= "Bearer "@);
                let mut rest: Vec<char> = Vec::new();
                let mut k: usize = 7;
                while k < a.len()
                    invariant
                        7 <= k <= a@.len(),
                        rest@ == a@.subrange(7, k as int),
                    decreases a@.len() - k,
                {
                    rest.push(a[k]);
                    assert(rest@ =~= a@.subrange(7, k + 1));
                    k = k + 1;
                }
                assert(rest@ =~= a@.skip(7));
                return Some(string_from_chars(rest.as_slice()));
            } else {
                assert(a@.take(7) != "Bearer "@) by {
                    let k = choose|k: int| 0 <= k < 7 && a@[k] != prefix@[k];
                    assert(a@.take(7)[k] != ("Bearer "@)[k]);
                }
            }
        }
    }
    match x_api_key {
        Some(k) => Some(k.to_owned()),
        None => None,
    }
}

/// What the authentication layer does with a request.
#[derive(Debug, Clone, Copy, PartialEq, Eq, Structural)]
pub enum AuthOutcome {
    /// Let the request through.
    Allow,
    /// A key was presented but is not valid.
    InvalidKey,
    /// No key was presented.
    MissingKey,
}

/// The authentication decision for a request: everything passes when
/// authentication is disabled, `/health` always passes, and otherwise the
/// presented key must be valid.
pub open spec fn auth_decision(
    keys: Option<Set<Seq<char>>>,
    path: Seq<char>,
    presented: Option<Seq<char>>,
) -> AuthOutcome {
    if !(keys matches Some(k) && k.len() > 0) {
        AuthOutcome::Allow
    } else if path == "/health"@ {
        AuthOutcome::Allow
    } else {
        match presented {
            Some(p) => if keys->Some_0.contains(p) { AuthOutcome::Allow } else { AuthOutcome::InvalidKey },
            None => AuthOutcome::MissingKey,
        }
    }
}

/// Decides what to do with a request, given its path and header values.
pub fn auth_outcome(
    slot: &Option<ApiKeys>,
    path: &str,
    authorization: Option<&str>,
    x_api_key: Option<&str>,
) -> (r: AuthOutcome)
    ensures
        r == auth_decision(
            match slot { Some(k) => Some(k.view()), None => None },
            path@,
            presented_key(
                match authorization { Some(s) => Some(s@), None => None },
                match x_api_key { Some(s) => Some(s@), None => None },
            ),
        ),
{
    if !is_auth_enabled(slot) {
        return AuthOutcome::Allow;
    }
    if str_eq(path, "/health") {
        return AuthOutcome::Allow;
    }
    match extract_api_key(authorization, x_api_key) {
        Some(key) => {
            if validate_api_key(slot, key.as_str()) {
                AuthOutcome::Allow
            } else {
                AuthOutcome::InvalidKey
            }
        },
        None => AuthOutcome::MissingKey,
    }
}

impl AuthOutcome {
    /// The `401` body sent for a refused request, none for an allowed one.
    pub fn rejection(&self) -> (r: Option<ApiError>)
        ensures
            *self == AuthOutcome::Allow <==> r is None,
            *self == AuthOutcome::InvalidKey ==> (r matches Some(e) && e.error.code == 401
                && e.error.message@ == "Invalid API key"@ && e.error.error_type@ == "invalid_api_key"@),
            *self == AuthOutcome::MissingKey ==> (r matches Some(e) && e.error.code == 401
                && e.error.message@ == "Missing API key. Provide via 'Authorization: Bearer <key>' or 'X-API-Key' header"@
                && e.error.error_type@ == "missing_api_key"@),
    {
        match self {
            AuthOutcome::Allow => None,
            AuthOutcome::InvalidKey => Some(ApiError::new("Invalid API key", "invalid_api_key", 401)),
            AuthOutcome::MissingKey => Some(ApiError::new(
                "Missing API key. Provide via 'Authorization: Bearer <key>' or 'X-API-Key' header",
                "missing_api_key",
                401,
            )),
        }
    }
}

/// With keys configured, a configured key presented as `Authorization:
/// Bearer <key>` or as `X-API-Key: <key>` is accepted, another key is
/// refused as invalid and no key as missing, except on `/health`, which is
/// always open; with no keys configured every request passes.
pub proof fn auth_law(keys: Set<Seq<char>>, key: Seq<char>, path: Seq<char>, presented: Option<Seq<char>>)
    ensures
        keys.len() > 0 && keys.contains(key) ==> auth_decision(Some(keys), path, presented_key(Some("Bearer "@ + key), None))
            == AuthOutcome::Allow,
        keys.len() > 0 && keys.contains(key) ==> auth_decision(Some(keys), path, presented_key(None, Some(key)))
            == AuthOutcome::Allow,
        keys.len() > 0 && !keys.contains(key) && path != "/health"@ ==> auth_decision(Some(keys), path, Some(key))
            == AuthOutcome::InvalidKey,
        keys.len() > 0 && path != "/health"@ ==> auth_decision(Some(keys), path, None) == AuthOutcome::MissingKey,
        auth_decision(Some(keys), "/health"@, presented) == AuthOutcome::Allow,
        auth_decision(None, path, presented) == AuthOutcome::Allow,
        auth_decision(Some(Set::empty()), path, presented) == AuthOutcome::Allow,
{
    reveal_strlit("Bearer ");
    let header = "Bearer "@ + key;
    assert(header.take(7) =~= "Bearer "@);
    assert(header.skip(7) =~= key);
}

} // verus!
