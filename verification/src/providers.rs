//! LLM API providers: their key configuration, and the decisions around the
//! requests that test keys and fetch usage.

use vstd::prelude::*;
use vstd::hash_map::StringHashMap;
use crate::text::{blank, int_decimal, is_blank, push_nat_decimal, str_eq};

verus! {

/// Why a provider request gave no answer.
#[derive(Debug)]
pub enum ProviderError {
    Network(String),
    Auth(String),
    Parse(String),
    Unsupported(String),
}

impl ProviderError {
    /// The human-readable message of the error.
    pub open spec fn message(&self) -> Seq<char> {
        match self {
            ProviderError::Network(e) => "Network error: "@ + e@,
            ProviderError::Auth(e) => "Auth error: "@ + e@,
            ProviderError::Parse(e) => "Parse error: "@ + e@,
            ProviderError::Unsupported(e) => "Unsupported: "@ + e@,
        }
    }

    /// Renders the error as its message, e.g. "Auth error: Invalid API key".
    pub fn to_string(&self) -> (m: String)
        ensures
            m@ == self.message(),
    {
        let (prefix, detail) = match self {
            ProviderError::Network(e) => ("Network error: ", e),
            ProviderError::Auth(e) => ("Auth error: ", e),
            ProviderError::Parse(e) => ("Parse error: ", e),
            ProviderError::Unsupported(e) => ("Unsupported: ", e),
        };
        let mut m = String::from_str(prefix);
        m.append(detail.as_str());
        m
    }
}

/// The API key of each provider, where one was given.
pub struct ProviderConfig {
    pub openrouter: Option<String>,
    pub anthropic: Option<String>,
    pub openai: Option<String>,
    pub opencode_zen: Option<String>,
    pub opencode_go: Option<String>,
}

/// The value a map holds under `k`, if any.
pub open spec fn lookup(m: Map<Seq<char>, String>, k: Seq<char>) -> Option<String> {
    if m.contains_key(k) {
        Some(m[k])
    } else {
        None
    }
}

/// The entry of one provider: present when its key is given and not blank.
pub open spec fn configured(name: Seq<char>, key: Option<String>) -> Seq<(Seq<char>, Seq<char>)> {
    match key {
        Some(k) => if is_blank(k@) {
            Seq::empty()
        } else {
            seq![(name, k@)]
        },
        None => Seq::empty(),
    }
}

/// The configured providers as (name, key) pairs, in a fixed order.
pub open spec fn entries_of(c: ProviderConfig) -> Seq<(Seq<char>, Seq<char>)> {
    configured("openrouter"@, c.openrouter) + configured("anthropic"@, c.anthropic) + configured(
        "openai"@,
        c.openai,
    ) + configured("opencode-zen"@, c.opencode_zen) + configured("opencode-go"@, c.opencode_go)
}

/// The views of (name, key) pairs.
pub open spec fn pair_views(v: Seq<(&str, &str)>) -> Seq<(Seq<char>, Seq<char>)> {
    v.map_values(|p: (&str, &str)| (p.0@, p.1@))
}

fn get_key(map: &StringHashMap<String>, name: &str) -> (r: Option<String>)
    ensures
        r == lookup(map@, name@),
{
    match map.get(name) {
        Some(v) => Some(v.clone()),
        None => None,
    }
}

fn push_configured<'a>(out: &mut Vec<(&'a str, &'a str)>, name: &'a str, key: &'a Option<String>)
    ensures
        pair_views(final(out)@) == pair_views(old(out)@) + configured(name@, *key),
{
    match key {
        Some(k) => {
            if !blank(k.as_str()) {
                let ghost before = out@;
                out.push((name, k.as_str()));
                assert(pair_views(out@) =~= pair_views(before) + configured(name@, *key));
            } else {
                assert(pair_views(out@) =~= pair_views(out@) + configured(name@, *key));
            }
        },
        None => {
            assert(pair_views(out@) =~= pair_views(out@) + configured(name@, *key));
        },
    }
}

impl ProviderConfig {
    /// Reads the provider keys out of a map from provider name to API key.
    /// The names are "openrouter", "anthropic", "openai", "opencode-zen" and
    /// "opencode-go"; other names are ignored.
    pub fn from_map(map: &StringHashMap<String>) -> (c: Self)
        ensures
            c.openrouter == lookup(map@, "openrouter"@),
            c.anthropic == lookup(map@, "anthropic"@),
            c.openai == lookup(map@, "openai"@),
            c.opencode_zen == lookup(map@, "opencode-zen"@),
            c.opencode_go == lookup(map@, "opencode-go"@),
    {
        ProviderConfig {
            openrouter: get_key(map, "openrouter"),
            anthropic: get_key(map, "anthropic"),
            openai: get_key(map, "openai"),
            opencode_zen: get_key(map, "opencode-zen"),
            opencode_go: get_key(map, "opencode-go"),
        }
    }

    /// The configured providers as (name, key) pairs: those whose key is
    /// given and not blank, in the order openrouter, anthropic, openai,
    /// opencode-zen, opencode-go.
    pub fn entries(&self) -> (v: Vec<(&str, &str)>)
        ensures
            pair_views(v@) == entries_of(*self),
    {
        let mut v: Vec<(&str, &str)> = Vec::new();
        assert(pair_views(v@) =~= Seq::<(Seq<char>, Seq<char>)>::empty());
        push_configured(&mut v, "openrouter", &self.openrouter);
        push_configured(&mut v, "anthropic", &self.anthropic);
        push_configured(&mut v, "openai", &self.openai);
        push_configured(&mut v, "opencode-zen", &self.opencode_zen);
        push_configured(&mut v, "opencode-go", &self.opencode_go);
        assert(pair_views(v@) =~= entries_of(*self));
        v
    }
}


/// An HTTP GET request to make: the URL and the headers, in order.
pub struct HttpGet {
    pub url: String,
    pub headers: Vec<(String, String)>,
}

/// The views of header pairs.
pub open spec fn header_views(v: Seq<(String, String)>) -> Seq<(Seq<char>, Seq<char>)> {
    v.map_values(|h: (String, String)| (h.0@, h.1@))
}

impl HttpGet {
    /// The request's URL and headers as character sequences.
    pub open spec fn is(&self, url: Seq<char>, headers: Seq<(Seq<char>, Seq<char>)>) -> bool {
        self.url@ == url && header_views(self.headers@) == headers
    }
}

/// How a provider's API key is checked: by a request whose status decides,
/// or with the answer known without one.
pub enum KeyCheck {
    Request(HttpGet),
    Decided(Result<(), ProviderError>),
}

/// The value of a bearer-token `Authorization` header.
pub open spec fn bearer(key: Seq<char>) -> Seq<char> {
    "Bearer "@ + key
}

fn bearer_header(key: &str) -> (h: (String, String))
    ensures
        h.0@ == "Authorization"@,
        h.1@ == bearer(key@),
{
    let mut v = String::from_str("Bearer ");
    v.append(key);
    (String::from_str("Authorization"), v)
}

fn bearer_get(url: &str, key: &str) -> (g: HttpGet)
    ensures
        g.is(url@, seq![("Authorization"@, bearer(key@))]),
{
    let mut headers: Vec<(String, String)> = Vec::new();
    headers.push(bearer_header(key));
    let g = HttpGet { url: String::from_str(url), headers };
    assert(header_views(g.headers@) =~= seq![("Authorization"@, bearer(key@))]);
    g
}

/// Decides how the key `key` of provider `name` is checked.
///
/// OpenRouter, Anthropic and OpenAI keys are checked by an authenticated
/// request to the provider's API. Opencode Zen and Opencode Go keys are
/// accepted when they are longer than ten bytes. Any other name is unsupported.
pub fn key_check(name: &str, key: &str) -> (c: KeyCheck)
    ensures
        if name@ == "openrouter"@ {
            c matches KeyCheck::Request(g) && g.is(
                "https://openrouter.ai/api/v1/auth/key"@,
                seq![("Authorization"@, bearer(key@))],
            )
        } else if name@ == "anthropic"@ {
            c matches KeyCheck::Request(g) && g.is(
                "https://api.anthropic.com/v1/models"@,
                seq![("x-api-key"@, key@), ("anthropic-version"@, "2023-06-01"@)],
            )
        } else if name@ == "openai"@ {
            c matches KeyCheck::Request(g) && g.is(
                "https://api.openai.com/v1/models"@,
                seq![("Authorization"@, bearer(key@))],
            )
        } else if name@ == "opencode-zen"@ || name@ == "opencode-go"@ {
            if key.len() > 10 {
                c matches KeyCheck::Decided(Ok(()))
            } else {
                c matches KeyCheck::Decided(Err(ProviderError::Auth(m))) && m@ == "Key too short"@
            }
        } else {
            c matches KeyCheck::Decided(Err(ProviderError::Unsupported(m))) && m@ == name@
        },
{
    if str_eq(name, "openrouter") {
        KeyCheck::Request(bearer_get("https://openrouter.ai/api/v1/auth/key", key))
    } else if str_eq(name, "anthropic") {
        let mut headers: Vec<(String, String)> = Vec::new();
        headers.push((String::from_str("x-api-key"), String::from_str(key)));
        headers.push((String::from_str("anthropic-version"), String::from_str("2023-06-01")));
        let g = HttpGet { url: String::from_str("https://api.anthropic.com/v1/models"), headers };
        assert(header_views(g.headers@) =~= seq![
            ("x-api-key"@, key@),
            ("anthropic-version"@, "2023-06-01"@),
        ]);
        KeyCheck::Request(g)
    } else if str_eq(name, "openai") {
        KeyCheck::Request(bearer_get("https://api.openai.com/v1/models", key))
    } else if str_eq(name, "opencode-zen") || str_eq(name, "opencode-go") {
        if key.len() > 10 {
            KeyCheck::Decided(Ok(()))
        } else {
            KeyCheck::Decided(Err(ProviderError::Auth(String::from_str("Key too short"))))
        }
    } else {
        KeyCheck::Decided(Err(ProviderError::Unsupported(String::from_str(name))))
    }
}

/// What the HTTP status of a key-check request says: any 2xx status accepts
/// the key, 401 rejects it as invalid, and any other status is a network error.
pub fn key_check_status(status: u16) -> (r: Result<(), ProviderError>)
    ensures
        200 <= status <= 299 ==> r is Ok,
        status == 401 ==> (r matches Err(ProviderError::Auth(m)) && m@ == "Invalid API key"@),
        !(200 <= status <= 299) && status != 401 ==> (r matches Err(ProviderError::Network(m))
            && m@ == "Status: "@ + int_decimal(status as int)),
{
    if 200 <= status && status <= 299 {
        Ok(())
    } else if status == 401 {
        Err(ProviderError::Auth(String::from_str("Invalid API key")))
    } else {
        let mut m = String::from_str("Status: ");
        push_nat_decimal(&mut m, status as u64);
        Err(ProviderError::Network(m))
    }
}

/// True when the status of OpenAI's billing answer is a client or server
/// error (4xx or 5xx), which makes the usage query fail.
pub fn usage_status_is_error(status: u16) -> (e: bool)
    ensures
        e == (400 <= status <= 599),
{
    400 <= status && status <= 599
}

/// How a provider's usage is fetched: from OpenRouter's usage endpoint, from
/// OpenAI's billing endpoint, or not at all.
pub enum UsageQuery {
    OpenRouter(HttpGet),
    OpenAi(HttpGet),
    Unsupported(ProviderError),
}

/// Decides how the usage of provider `name` is fetched with key `key`;
/// `today` is the current date, written YYYY-MM-DD, that bounds the OpenAI
/// billing period on both ends.
pub fn usage_query(name: &str, key: &str, today: &str) -> (q: UsageQuery)
    ensures
        if name@ == "openrouter"@ {
            q matches UsageQuery::OpenRouter(g) && g.is(
                "https://openrouter.ai/api/v1/usage"@,
                seq![("Authorization"@, bearer(key@))],
            )
        } else if name@ == "anthropic"@ {
            q matches UsageQuery::Unsupported(ProviderError::Unsupported(m)) && m@
                == "Anthropic usage API not yet implemented — use InfluxDB data source instead"@
        } else if name@ == "openai"@ {
            q matches UsageQuery::OpenAi(g) && g.is(
                "https://api.openai.com/v1/dashboard/billing/usage?start_date="@ + today@
                    + "&end_date="@ + today@,
                seq![("Authorization"@, bearer(key@))],
            )
        } else if name@ == "opencode-zen"@ {
            q matches UsageQuery::Unsupported(ProviderError::Unsupported(m)) && m@
                == "Opencode Zen API endpoint not yet configured — use InfluxDB data source instead"@
        } else if name@ == "opencode-go"@ {
            q matches UsageQuery::Unsupported(ProviderError::Unsupported(m)) && m@
                == "Opencode Go API endpoint not yet configured — use InfluxDB data source instead"@
        } else {
            q matches UsageQuery::Unsupported(ProviderError::Unsupported(m)) && m@ == name@
        },
{
    if str_eq(name, "openrouter") {
        UsageQuery::OpenRouter(bearer_get("https://openrouter.ai/api/v1/usage", key))
    } else if str_eq(name, "anthropic") {
        UsageQuery::Unsupported(
            ProviderError::Unsupported(
                String::from_str(
                    "Anthropic usage API not yet implemented — use InfluxDB data source instead",
                ),
            ),
        )
    } else if str_eq(name, "openai") {
        let mut url = String::from_str("https://api.openai.com/v1/dashboard/billing/usage?start_date=");
        url.append(today);
        url.append("&end_date=");
        url.append(today);
        let mut g = bearer_get("", key);
        g.url = url;
        UsageQuery::OpenAi(g)
    } else if str_eq(name, "opencode-zen") {
        UsageQuery::Unsupported(
            ProviderError::Unsupported(
                String::from_str(
                    "Opencode Zen API endpoint not yet configured — use InfluxDB data source instead",
                ),
            ),
        )
    } else if str_eq(name, "opencode-go") {
        UsageQuery::Unsupported(
            ProviderError::Unsupported(
                String::from_str(
                    "Opencode Go API endpoint not yet configured — use InfluxDB data source instead",
                ),
            ),
        )
    } else {
        UsageQuery::Unsupported(ProviderError::Unsupported(String::from_str(name)))
    }
}

/// The names of the providers whose key check passed, in order.
pub open spec fn passed_names(rs: Seq<(String, Result<(), ProviderError>)>) -> Seq<Seq<char>>
    decreases rs.len(),
{
    if rs.len() == 0 {
        Seq::empty()
    } else {
        let prev = passed_names(rs.drop_last());
        match rs.last().1 {
            Ok(_) => prev.push(rs.last().0@),
            Err(_) => prev,
        }
    }
}

/// The providers whose key check failed, with the error message, in order.
pub open spec fn failed_checks(rs: Seq<(String, Result<(), ProviderError>)>) -> Seq<
    (Seq<char>, Seq<char>),
>
    decreases rs.len(),
{
    if rs.len() == 0 {
        Seq::empty()
    } else {
        let prev = failed_checks(rs.drop_last());
        match rs.last().1 {
            Ok(_) => prev,
            Err(e) => prev.push((rs.last().0@, e.message())),
        }
    }
}

/// The views of a vector of strings.
pub open spec fn string_views(v: Seq<String>) -> Seq<Seq<char>> {
    v.map_values(|s: String| s@)
}

/// Sorts key-check results into the providers that passed and the providers
/// that failed, each failure with its error message; order is kept.
pub fn partition_key_results(results: &Vec<(String, Result<(), ProviderError>)>) -> (out: (
    Vec<String>,
    Vec<(String, String)>,
))
    ensures
        string_views(out.0@) == passed_names(results@),
        header_views(out.1@) == failed_checks(results@),
{
    let mut ok: Vec<String> = Vec::new();
    let mut failed: Vec<(String, String)> = Vec::new();
    let mut i: usize = 0;
    assert(results@.take(0) =~= Seq::<(String, Result<(), ProviderError>)>::empty());
    while i < results.len()
        invariant
            i <= results@.len(),
            string_views(ok@) == passed_names(results@.take(i as int)),
            header_views(failed@) == failed_checks(results@.take(i as int)),
        decreases results@.len() - i,
    {
        let ghost ok0 = string_views(ok@);
        let ghost failed0 = header_views(failed@);
        assert(results@.take(i + 1).drop_last() =~= results@.take(i as int));
        let entry = &results[i];
        match &entry.1 {
            Ok(_) => {
                ok.push(entry.0.clone());
                assert(string_views(ok@) =~= ok0.push(entry.0@));
            },
            Err(e) => {
                failed.push((entry.0.clone(), e.to_string()));
                assert(header_views(failed@) =~= failed0.push((entry.0@, e.message())));
            },
        }
        i = i + 1;
    }
    assert(results@.take(results@.len() as int) =~= results@);
    (ok, failed)
}

/// Every key-check result lands in exactly one list: the lists together are as
/// long as the results, each passed provider's name is among the passed names,
/// and each failed provider appears among the failures with its error's message.
pub proof fn lemma_partition_accounts_for_all(rs: Seq<(String, Result<(), ProviderError>)>)
    ensures
        passed_names(rs).len() + failed_checks(rs).len() == rs.len(),
        forall|i: int|
            0 <= i < rs.len() ==> match #[trigger] rs[i].1 {
                Ok(_) => passed_names(rs).contains(rs[i].0@),
                Err(e) => failed_checks(rs).contains((rs[i].0@, e.message())),
            },
    decreases rs.len(),
{
    if rs.len() > 0 {
        let r0 = rs.drop_last();
        lemma_partition_accounts_for_all(r0);
        let last = rs.last();
        assert forall|i: int| 0 <= i < rs.len() implies match #[trigger] rs[i].1 {
            Ok(_) => passed_names(rs).contains(rs[i].0@),
            Err(e) => failed_checks(rs).contains((rs[i].0@, e.message())),
        } by {
            if i < rs.len() - 1 {
                assert(rs[i] == r0[i]);
                match rs[i].1 {
                    Ok(_) => {
                        let k = choose|k: int| 0 <= k < passed_names(r0).len() && passed_names(r0)[k] == rs[i].0@;
                        match last.1 {
                            Ok(_) => assert(passed_names(rs)[k] == rs[i].0@),
                            Err(_) => assert(passed_names(rs)[k] == rs[i].0@),
                        }
                    },
                    Err(e) => {
                        let k = choose|k: int| 0 <= k < failed_checks(r0).len() && failed_checks(r0)[k] == (rs[i].0@, e.message());
                        match last.1 {
                            Ok(_) => assert(failed_checks(rs)[k] == (rs[i].0@, e.message())),
                            Err(_) => assert(failed_checks(rs)[k] == (rs[i].0@, e.message())),
                        }
                    },
                }
            } else {
                assert(rs[i] == last);
                match rs[i].1 {
                    Ok(_) => {
                        let p = passed_names(rs);
                        assert(p[p.len() - 1] == rs[i].0@);
                    },
                    Err(e) => {
                        let f = failed_checks(rs);
                        assert(f[f.len() - 1] == (rs[i].0@, e.message()));
                    },
                }
            }
        }
    }
}

proof fn lemma_contains_concat<A>(a: Seq<A>, b: Seq<A>, x: A)
    ensures
        (a + b).contains(x) == (a.contains(x) || b.contains(x)),
{
    if (a + b).contains(x) {
        let k = choose|k: int| 0 <= k < (a + b).len() && (a + b)[k] == x;
        if k < a.len() {
            assert(a[k] == x);
        } else {
            assert(b[k - a.len()] == x);
        }
    }
    if a.contains(x) {
        let k = choose|k: int| 0 <= k < a.len() && a[k] == x;
        assert((a + b)[k] == x);
    }
    if b.contains(x) {
        let k = choose|k: int| 0 <= k < b.len() && b[k] == x;
        assert((a + b)[k + a.len()] == x);
    }
}

proof fn lemma_configured_contains(name: Seq<char>, key: Option<String>, n: Seq<char>, k: Seq<char>)
    ensures
        configured(name, key).contains((n, k)) == (n == name && key is Some && key->0@ == k
            && !is_blank(k)),
{
    match key {
        Some(s) => {
            if !is_blank(s@) {
                assert(configured(name, key)[0] == (name, s@));
            }
        },
        None => {},
    }
}

/// The configured providers of a map of keys: a pair (name, key) is listed
/// exactly when the name is one of "openrouter", "anthropic", "openai",
/// "opencode-zen" and "opencode-go" (the names a key check understands), the
/// map holds a key under that very name, and that key is not blank.
pub proof fn lemma_entries_are_configured_providers(m: Map<Seq<char>, String>, c: ProviderConfig)
    requires
        c.openrouter == lookup(m, "openrouter"@),
        c.anthropic == lookup(m, "anthropic"@),
        c.openai == lookup(m, "openai"@),
        c.opencode_zen == lookup(m, "opencode-zen"@),
        c.opencode_go == lookup(m, "opencode-go"@),
    ensures
        forall|n: Seq<char>, k: Seq<char>|
            #[trigger] entries_of(c).contains((n, k)) <==> ((n == "openrouter"@ || n == "anthropic"@
                || n == "openai"@ || n == "opencode-zen"@ || n == "opencode-go"@) && m.contains_key(n)
                && m[n]@ == k && !is_blank(k)),
{
    assert forall|n: Seq<char>, k: Seq<char>|
        #[trigger] entries_of(c).contains((n, k)) <==> ((n == "openrouter"@ || n == "anthropic"@
            || n == "openai"@ || n == "opencode-zen"@ || n == "opencode-go"@) && m.contains_key(n)
            && m[n]@ == k && !is_blank(k)) by {
        let s1 = configured("openrouter"@, c.openrouter);
        let s2 = configured("anthropic"@, c.anthropic);
        let s3 = configured("openai"@, c.openai);
        let s4 = configured("opencode-zen"@, c.opencode_zen);
        let s5 = configured("opencode-go"@, c.opencode_go);
        let x = (n, k);
        lemma_contains_concat(s1 + s2 + s3 + s4, s5, x);
        lemma_contains_concat(s1 + s2 + s3, s4, x);
        lemma_contains_concat(s1 + s2, s3, x);
        lemma_contains_concat(s1, s2, x);
        lemma_configured_contains("openrouter"@, c.openrouter, n, k);
        lemma_configured_contains("anthropic"@, c.anthropic, n, k);
        lemma_configured_contains("openai"@, c.openai, n, k);
        lemma_configured_contains("opencode-zen"@, c.opencode_zen, n, k);
        lemma_configured_contains("opencode-go"@, c.opencode_go, n, k);
    }
}

} // verus!
