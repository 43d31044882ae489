//! Classifying model endpoints and cleaning model replies.
use vstd::prelude::*;
use crate::text::{
    chars_of, contains, contains_chars, ends_with, find, find_at, has_suffix, lemma_find_from,
    lemma_rfind_upto, rfind, rfind_in, split_chars, split_on, str_contains, str_eq, string_range,
    trim, trim_bounds, trim_start, trim_end, is_ws, occurs_at,
};

verus! {

/// A model endpoint: where it is, which model, and the key it takes.
#[derive(Debug, Clone)]
pub struct Endpoint {
    pub url: String,
    pub model: String,
    pub key: String,
}

impl Endpoint {
    pub fn new(url: &str, model: &str, key: &str) -> (r: Self)
        ensures
            r.url@ == url@,
            r.model@ == model@,
            r.key@ == key@,
    {
        Endpoint {
            url: String::from_str(url),
            model: String::from_str(model),
            key: String::from_str(key),
        }
    }
}

/// The URL points at a local Ollama: a loopback host or Ollama's default port.
pub open spec fn local_ollama(url: Seq<char>) -> bool {
    contains(url, "//localhost"@) || contains(url, "//127.0.0.1"@) || contains(url, ":11434"@)
}

pub fn is_local_ollama(url: &str) -> (b: bool)
    ensures
        b == local_ollama(url@),
{
    str_contains(url, "//localhost") || str_contains(url, "//127.0.0.1") || str_contains(url, ":11434")
}

/// A character that ends an unbracketed host: a path, a port or a query.
pub open spec fn is_host_delim(c: char) -> bool {
    c == '/' || c == ':' || c == '?'
}

/// The first index at or after `i` holding a host delimiter, or the length.
pub open spec fn delim_from(s: Seq<char>, i: int) -> int
    decreases s.len() - i,
{
    if i >= s.len() {
        s.len() as int
    } else if is_host_delim(s[i]) {
        i
    } else {
        delim_from(s, i + 1)
    }
}

/// Where the host ends in the text after `//`: just past the closing `]` of a
/// bracketed IPv6 host (one past the end when there is none), otherwise at
/// the first delimiter.
pub open spec fn host_end(after: Seq<char>) -> int {
    if after.len() > 0 && after[0] == '[' {
        match find(after, seq![']']) {
            Some(i) => i + 1,
            None => after.len() + 1int,
        }
    } else {
        delim_from(after, 0)
    }
}

/// The text after the first `//` and before any second one.
pub open spec fn after_scheme(url: Seq<char>) -> Option<Seq<char>> {
    let pieces = split_on(url, "//"@);
    if pieces.len() >= 2 {
        Some(pieces[1])
    } else {
        None
    }
}

/// The URL's host can be read without running off its end: a bracketed host
/// is closed. (Reading an unclosed one slices past the end of the string.)
pub open spec fn host_readable(url: Seq<char>) -> bool {
    match after_scheme(url) {
        Some(after) => host_end(after) <= after.len(),
        None => true,
    }
}

/// The host of a URL: the span after `//` up to the first `:`, `/`, `?` or
/// the end, with a bracketed IPv6 host kept whole; none when that is empty.
pub open spec fn url_host(url: Seq<char>) -> Option<Seq<char>> {
    match after_scheme(url) {
        Some(after) => {
            let h = after.subrange(0, host_end(after));
            if h.len() == 0 {
                None
            } else {
                Some(h)
            }
        },
        None => None,
    }
}

proof fn lemma_delim_from(s: Seq<char>, i: int)
    requires
        0 <= i <= s.len(),
    ensures
        i <= delim_from(s, i) <= s.len(),
        delim_from(s, i) < s.len() ==> is_host_delim(s[delim_from(s, i)]),
        forall|j: int| i <= j < delim_from(s, i) ==> !is_host_delim(#[trigger] s[j]),
    decreases s.len() - i,
{
    if i < s.len() && !is_host_delim(s[i]) {
        lemma_delim_from(s, i + 1);
    }
}

/// Whether the URL's host can be read (see `host_readable`).
fn host_is_readable(url: &str) -> (b: bool)
    ensures
        b == host_readable(url@),
{
    let v = chars_of(url);
    let sep = chars_of("//");
    proof {
        reveal_strlit("//");
    }
    let pieces = split_chars(v.as_slice(), sep.as_slice());
    if pieces.len() < 2 {
        return true;
    }
    let after = &pieces[1];
    assert(after@ == pieces.deep_view()[1]);
    let n = after.len();
    if n > 0 && after[0] == '[' {
        let close = vec![']'];
        assert(close@ =~= seq![']']);
        let found = find_at(after.as_slice(), close.as_slice(), 0);
        proof {
            lemma_find_from(after@, close@, 0);
        }
        found.is_some()
    } else {
        proof {
            lemma_delim_from(after@, 0);
        }
        true
    }
}

pub fn host_of(url: &str) -> (r: Option<String>)
    requires
        host_readable(url@),
    ensures
        match r {
            Some(h) => url_host(url@) == Some(h@),
            None => url_host(url@) is None,
        },
{
    let v = chars_of(url);
    let sep = chars_of("//");
    proof {
        reveal_strlit("//");
    }
    let pieces = split_chars(v.as_slice(), sep.as_slice());
    if pieces.len() < 2 {
        return None;
    }
    let after = &pieces[1];
    assert(after@ == pieces.deep_view()[1]);
    let n = after.len();
    let end: usize;
    if n > 0 && after[0] == '[' {
        let close = vec![']'];
        assert(close@ =~= seq![']']);
        let found = find_at(after.as_slice(), close.as_slice(), 0);
        proof {
            lemma_find_from(after@, close@, 0);
        }
        match found {
            Some(i) => {
                end = i + 1;
            },
            None => {
                return None;
            },
        }
    } else {
        let mut i: usize = 0;
        while i < n && !(after[i] == '/' || after[i] == ':' || after[i] == '?')
            invariant
                i <= n,
                n == after@.len(),
                delim_from(after@, 0) == delim_from(after@, i as int),
            decreases n - i,
        {
            i = i + 1;
        }
        end = i;
    }
    if end == 0 {
        return None;
    }
    let h = string_range(after.as_slice(), 0, end);
    Some(h)
}

/// The value of a run of decimal digits.
pub open spec fn digits_value(d: Seq<char>) -> int
    decreases d.len(),
{
    if d.len() == 0 {
        0
    } else {
        digits_value(d.drop_last()) * 10 + (d.last() as int - '0' as int)
    }
}

pub open spec fn all_digits(d: Seq<char>) -> bool {
    forall|i: int| 0 <= i < d.len() ==> '0' <= #[trigger] d[i] <= '9'
}

/// `u8::from_str`: an optional `+`, then one or more decimal digits whose
/// value fits in a byte.
pub open spec fn byte_named(s: Seq<char>) -> Option<u8> {
    let d = if s.len() > 0 && s[0] == '+' { s.drop_first() } else { s };
    if d.len() == 0 || !all_digits(d) || digits_value(d) > 255 {
        None
    } else {
        Some(digits_value(d) as u8)
    }
}

proof fn lemma_digits_value_monotone(d: Seq<char>, k: int)
    requires
        all_digits(d),
        0 <= k <= d.len(),
    ensures
        0 <= digits_value(d.take(k)) <= digits_value(d),
    decreases d.len(),
{
    if k < d.len() {
        assert(d.drop_last().take(k) =~= d.take(k));
        assert(all_digits(d.drop_last()));
        lemma_digits_value_monotone(d.drop_last(), k);
        assert(d.drop_last() =~= d.take(d.len() - 1));
        lemma_digits_value_monotone(d.drop_last(), d.len() - 1);
    } else {
        assert(d.take(k) =~= d);
        lemma_digits_value_nonneg(d);
    }
}

proof fn lemma_digits_value_nonneg(d: Seq<char>)
    requires
        all_digits(d),
    ensures
        digits_value(d) >= 0,
    decreases d.len(),
{
    if d.len() > 0 {
        assert(all_digits(d.drop_last()));
        lemma_digits_value_nonneg(d.drop_last());
    }
}

pub fn parse_byte(s: &[char]) -> (r: Option<u8>)
    ensures
        r == byte_named(s@),
{
    let start: usize = if s.len() > 0 && s[0] == '+' { 1 } else { 0 };
    let ghost d = if s@.len() > 0 && s@[0] == '+' { s@.drop_first() } else { s@ };
    assert(d =~= s@.subrange(start as int, s@.len() as int));
    if start == s.len() {
        return None;
    }
    let mut value: u32 = 0;
    let mut i = start;
    while i < s.len()
        invariant
            start <= i <= s@.len(),
            d == s@.subrange(start as int, s@.len() as int),
            d == (if s@.len() > 0 && s@[0] == '+' { s@.drop_first() } else { s@ }),
            d.len() > 0,
            all_digits(d.take(i - start)),
            value == digits_value(d.take(i - start)),
            value <= 255,
        decreases s.len() - i,
    {
        let c = s[i];
        if !('0' <= c && c <= '9') {
            assert(d[i - start] == c);
            return None;
        }
        let ghost prev = d.take(i - start);
        assert(d.take(i - start + 1).drop_last() =~= prev);
        assert(d.take(i - start + 1).last() == c);
        value = value * 10 + (c as u32 - '0' as u32);
        i = i + 1;
        if value > 255 {
            proof {
                assert(all_digits(d.take(i - start)));
                if all_digits(d) {
                    lemma_digits_value_monotone(d, i - start);
                }
            }
            return None;
        }
    }
    assert(d.take(i - start) =~= d);
    Some(value as u8)
}

/// The four octets of a dotted-quad IPv4 host.
pub open spec fn ipv4_octets(host: Seq<char>) -> Option<Seq<u8>> {
    let parts = split_on(host, seq!['.']);
    if parts.len() != 4 {
        None
    } else if byte_named(parts[0]) is Some && byte_named(parts[1]) is Some && byte_named(
        parts[2],
    ) is Some && byte_named(parts[3]) is Some {
        Some(
            seq![
                byte_named(parts[0]).unwrap(),
                byte_named(parts[1]).unwrap(),
                byte_named(parts[2]).unwrap(),
                byte_named(parts[3]).unwrap(),
            ],
        )
    } else {
        None
    }
}

pub fn parse_ipv4(host: &str) -> (r: Option<[u8; 4]>)
    ensures
        match r {
            Some(o) => ipv4_octets(host@) == Some(o@),
            None => ipv4_octets(host@) is None,
        },
{
    let v = chars_of(host);
    let dot = vec!['.'];
    assert(dot@ =~= seq!['.']);
    let parts = split_chars(v.as_slice(), dot.as_slice());
    if parts.len() != 4 {
        return None;
    }
    proof {
        assert(parts.deep_view()[0] == parts@[0]@);
        assert(parts.deep_view()[1] == parts@[1]@);
        assert(parts.deep_view()[2] == parts@[2]@);
        assert(parts.deep_view()[3] == parts@[3]@);
    }
    let a = match parse_byte(parts[0].as_slice()) { Some(x) => x, None => return None };
    let b = match parse_byte(parts[1].as_slice()) { Some(x) => x, None => return None };
    let c = match parse_byte(parts[2].as_slice()) { Some(x) => x, None => return None };
    let d = match parse_byte(parts[3].as_slice()) { Some(x) => x, None => return None };
    let o: [u8; 4] = [a, b, c, d];
    assert(o@ =~= seq![a, b, c, d]);
    Some(o)
}

/// Loopback, RFC 1918 private, or link-local.
pub open spec fn local_octets(o: Seq<u8>) -> bool {
    ||| o[0] == 127
    ||| o[0] == 10
    ||| (o[0] == 172 && 16 <= o[1] <= 31)
    ||| (o[0] == 192 && o[1] == 168)
    ||| (o[0] == 169 && o[1] == 254)
}

pub fn is_local_ipv4(o: &[u8; 4]) -> (b: bool)
    ensures
        b == local_octets(o@),
{
    o[0] == 127 || o[0] == 10 || (o[0] == 172 && 16 <= o[1] && o[1] <= 31) || (o[0] == 192
        && o[1] == 168) || (o[0] == 169 && o[1] == 254)
}

/// The verdict a host alone gives: `Some(v)` when the host settles it.
pub open spec fn bracket_inner(h: Seq<char>) -> Option<Seq<char>> {
    if h.len() >= 2 && h[0] == '[' && h.last() == ']' {
        Some(h.subrange(1, h.len() - 1))
    } else {
        None
    }
}

/// The host is local to this machine.
pub open spec fn local_host(h: Seq<char>) -> bool {
    if h == "localhost"@ || h == "ollama"@ {
        true
    } else if h.len() > 0 && h[0] == '[' {
        match bracket_inner(h) {
            Some(inner) => inner == "::1"@,
            None => false,
        }
    } else {
        match ipv4_octets(h) {
            Some(o) => local_octets(o),
            None => false,
        }
    }
}

/// The host is loopback only.
pub open spec fn loopback_host(h: Seq<char>) -> bool {
    if h == "localhost"@ {
        true
    } else if h.len() > 0 && h[0] == '[' {
        match bracket_inner(h) {
            Some(inner) => inner == "::1"@,
            None => false,
        }
    } else {
        match ipv4_octets(h) {
            Some(o) => o[0] == 127,
            None => false,
        }
    }
}

/// The URL names a host on this machine: loopback, RFC 1918, link-local, the
/// `ollama` host, or Ollama's default port.
pub open spec fn local_url(url: Seq<char>) -> bool {
    contains(url, ":11434"@) || (host_readable(url) && match url_host(url) {
        Some(h) => local_host(h),
        None => false,
    })
}

/// The URL's host is loopback only.
pub open spec fn loopback_url(url: Seq<char>) -> bool {
    match url_host(url) {
        Some(h) => loopback_host(h),
        None => false,
    }
}

fn bracketed_loopback(h: &str) -> (r: Option<bool>)
    ensures
        ({
            let hv = h@;
            if hv.len() > 0 && hv[0] == '[' {
                r == Some(
                    match bracket_inner(hv) {
                        Some(inner) => inner == "::1"@,
                        None => false,
                    },
                )
            } else {
                r is None
            }
        }),
{
    let v = chars_of(h);
    if v.len() == 0 || v[0] != '[' {
        return None;
    }
    if v.len() >= 2 && v[v.len() - 1] == ']' {
        let inner = string_range(v.as_slice(), 1, v.len() - 1);
        Some(str_eq(inner.as_str(), "::1"))
    } else {
        Some(false)
    }
}

pub fn is_local_url(url: &str) -> (b: bool)
    requires
        local_ollama(url@) || host_readable(url@),
    ensures
        b == local_url(url@),
{
    if str_contains(url, ":11434") {
        return true;
    }
    if !host_is_readable(url) {
        return false;
    }
    let host = match host_of(url) {
        Some(h) => h,
        None => return false,
    };
    if str_eq(host.as_str(), "localhost") || str_eq(host.as_str(), "ollama") {
        return true;
    }
    if let Some(v6) = bracketed_loopback(host.as_str()) {
        return v6;
    }
    if let Some(o) = parse_ipv4(host.as_str()) {
        return is_local_ipv4(&o);
    }
    false
}

pub fn is_loopback_url(url: &str) -> (b: bool)
    requires
        host_readable(url@),
    ensures
        b == loopback_url(url@),
{
    let host = match host_of(url) {
        Some(h) => h,
        None => return false,
    };
    if str_eq(host.as_str(), "localhost") {
        return true;
    }
    if let Some(v6) = bracketed_loopback(host.as_str()) {
        return v6;
    }
    if let Some(o) = parse_ipv4(host.as_str()) {
        return o[0] == 127;
    }
    false
}

/// Every loopback URL is a local one: `is_loopback_url` is the narrower test
/// (on the URLs whose host it can read).
pub proof fn lemma_loopback_is_local(url: Seq<char>)
    requires
        host_readable(url),
    ensures
        loopback_url(url) ==> local_url(url),
{
}

/// `s` with every trailing `'/'` removed.
pub open spec fn without_trailing_slashes(s: Seq<char>) -> Seq<char>
    decreases s.len(),
{
    if s.len() > 0 && s.last() == '/' {
        without_trailing_slashes(s.drop_last())
    } else {
        s
    }
}

/// The endpoint speaks Ollama's native API: a local Ollama URL that does not
/// name the OpenAI-compatible `/v1` path.
pub open spec fn native_url(url: Seq<char>) -> bool {
    !has_suffix(without_trailing_slashes(url), "/v1"@) && local_ollama(url)
}

pub fn wants_native(url: &str) -> (b: bool)
    ensures
        b == native_url(url@),
{
    let v = chars_of(url);
    let mut n = v.len();
    assert(v@.take(n as int) =~= v@);
    while n > 0 && v[n - 1] == '/'
        invariant
            n <= v@.len(),
            without_trailing_slashes(v@) == without_trailing_slashes(v@.take(n as int)),
        decreases n,
    {
        assert(v@.take(n as int).drop_last() =~= v@.take(n - 1));
        n = n - 1;
    }
    assert(v@.take(v@.len() as int) =~= v@);
    let head = string_range(v.as_slice(), 0, n);
    let hv = chars_of(head.as_str());
    let suffix = chars_of("/v1");
    !ends_with(hv.as_slice(), suffix.as_slice()) && is_local_ollama(url)
}

/// The base URL requests are built on: trailing slashes dropped, then one
/// `/v1` suffix.
pub open spec fn base_url(url: Seq<char>) -> Seq<char> {
    let t = without_trailing_slashes(url);
    if has_suffix(t, "/v1"@) {
        t.take(t.len() - 3)
    } else {
        t
    }
}

/// The base URL requests are built on (see `base_url`).
pub fn normalize_url(url: &str) -> (r: String)
    ensures
        r@ == base_url(url@),
{
    proof {
        reveal_strlit("/v1");
    }
    let v = chars_of(url);
    let mut n = v.len();
    assert(v@.take(n as int) =~= v@);
    while n > 0 && v[n - 1] == '/'
        invariant
            n <= v@.len(),
            without_trailing_slashes(v@) == without_trailing_slashes(v@.take(n as int)),
        decreases n,
    {
        assert(v@.take(n as int).drop_last() =~= v@.take(n - 1));
        n = n - 1;
    }
    let ghost t = v@.take(n as int);
    assert(without_trailing_slashes(t) == t);
    let suffix = chars_of("/v1");
    let head = string_range(v.as_slice(), 0, n);
    let hv = chars_of(head.as_str());
    if ends_with(hv.as_slice(), suffix.as_slice()) {
        string_range(v.as_slice(), 0, n - 3)
    } else {
        head
    }
}

/// `v` unless it is empty, then `fallback`.
pub open spec fn or_else(v: Seq<char>, fallback: Seq<char>) -> Seq<char> {
    if v.len() == 0 {
        fallback
    } else {
        v
    }
}

/// How a client talks to its two endpoints: the reason endpoint for
/// completions and the embed endpoint for embeddings, each at its base URL,
/// with its model and key, and whether it speaks Ollama's native API.
#[derive(Debug, Clone)]
pub struct ClientPlan {
    pub reason_url: String,
    pub reason_model: String,
    pub reason_key: String,
    pub reason_native: bool,
    pub embed_url: String,
    pub embed_model: String,
    pub embed_key: String,
    pub embed_native: bool,
}

/// The plan for a client on `reason` and `embed`. The embed endpoint falls
/// back to the reason endpoint's URL and key where it leaves them empty;
/// whether an endpoint is native is read from its URL before normalizing,
/// since normalizing strips the `/v1` that marks OpenAI compatibility.
pub fn plan_client(reason: &Endpoint, embed: &Endpoint) -> (r: ClientPlan)
    ensures
        r.reason_url@ == base_url(reason.url@),
        r.reason_model@ == reason.model@,
        r.reason_key@ == reason.key@,
        r.reason_native == native_url(reason.url@),
        r.embed_url@ == base_url(or_else(embed.url@, reason.url@)),
        r.embed_model@ == embed.model@,
        r.embed_key@ == or_else(embed.key@, reason.key@),
        r.embed_native == native_url(or_else(embed.url@, reason.url@)),
{
    let embed_url = if embed.url.as_str().is_empty() {
        reason.url.as_str()
    } else {
        embed.url.as_str()
    };
    let embed_key = if embed.key.as_str().is_empty() {
        reason.key.as_str()
    } else {
        embed.key.as_str()
    };
    ClientPlan {
        reason_url: normalize_url(reason.url.as_str()),
        reason_model: reason.model.clone(),
        reason_key: reason.key.clone(),
        reason_native: wants_native(reason.url.as_str()),
        embed_url: normalize_url(embed_url),
        embed_model: embed.model.clone(),
        embed_key: String::from_str(embed_key),
        embed_native: wants_native(embed_url),
    }
}

/// An OpenAI-compatible `/v1` endpoint: any non-empty URL that is not native
/// Ollama.
pub open spec fn openai_compat_url(url: Seq<char>) -> bool {
    !native_url(url) && url.len() > 0
}

pub fn is_openai_compat(url: &str) -> (b: bool)
    ensures
        b == openai_compat_url(url@),
{
    !wants_native(url) && !url.is_empty()
}

/// A reply with leaked reasoning removed: what follows the last `</think>`
/// (the whole reply when there is none), cut at any `<think>` that opens
/// after it, then trimmed.
pub open spec fn answer_of(s: Seq<char>) -> Seq<char> {
    let after = match rfind(s, "</think>"@) {
        Some(i) => s.subrange(i + 8, s.len() as int),
        None => s,
    };
    let clean = match find(after, "<think>"@) {
        Some(i) => after.subrange(0, i),
        None => after,
    };
    trim(clean)
}

pub fn strip_think(s: &str) -> (r: String)
    ensures
        r@ == answer_of(s@),
{
    proof {
        reveal_strlit("</think>");
    }
    let v = chars_of(s);
    let close = chars_of("</think>");
    let open = chars_of("<think>");
    assert(close@.len() == 8);
    let vlen = v.len();
    let after: Vec<char> = match rfind_in(v.as_slice(), close.as_slice()) {
        Some(i) => {
            proof {
                lemma_rfind_upto(v@, close@, v@.len() - close@.len());
                assert(rfind(v@, close@) == Some(i as int));
                assert(crate::text::occurs_at(v@, i as int, close@));
                assert(i + 8 <= v@.len());
            }
            chars_of(string_range(v.as_slice(), i + 8, vlen).as_str())
        },
        None => v,
    };
    let found = find_at(after.as_slice(), open.as_slice(), 0);
    proof {
        lemma_find_from(after@, open@, 0);
    }
    let end = match found {
        Some(i) => i,
        None => after.len(),
    };
    let clean = chars_of(string_range(after.as_slice(), 0, end).as_str());
    assert(end == after@.len() ==> clean@ =~= after@);
    let (a, b) = trim_bounds(clean.as_slice());
    string_range(clean.as_slice(), a, b)
}

/// Why a model call failed.
#[derive(Debug, Clone, PartialEq, Eq)]
pub enum LlmError {
    /// The transport failed, as the HTTP client reports it: whether it timed
    /// out, whether it could not connect, the HTTP status if one came back,
    /// and the client's own message.
    Http { timeout: bool, connect: bool, http_status: Option<u16>, message: String },
    /// The endpoint answered with a non-success status.
    Api { status: u16, body: String },
    EmptyEmbedding,
    EmptyCompletion,
}

/// A status that says "try again later": a server error or rate limiting.
pub open spec fn retryable_status(status: u16) -> bool {
    status >= 500 || status == 429
}

/// Whether a failure is worth retrying: a timeout, a refused connection, a
/// transport failure with no status, or a retryable status.
pub open spec fn transient(e: LlmError) -> bool {
    match e {
        LlmError::Http { timeout, connect, http_status, .. } => timeout || connect || match http_status {
            Some(s) => retryable_status(s),
            None => true,
        },
        LlmError::Api { status, .. } => retryable_status(status),
        _ => false,
    }
}

/// Whether a failure is worth retrying (see `transient`).
pub fn is_transient(err: &LlmError) -> (r: bool)
    ensures
        r == transient(*err),
{
    match err {
        LlmError::Http { timeout, connect, http_status, .. } => {
            if *timeout || *connect {
                return true;
            }
            match http_status {
                Some(s) => *s >= 500 || *s == 429,
                None => true,
            }
        },
        LlmError::Api { status, .. } => *status >= 500 || *status == 429,
        _ => false,
    }
}

/// Whether a failed batch embedding is retried one text at a time: on a
/// transient failure, or when the batch came back empty.
pub fn should_retry_single(err: &LlmError) -> (r: bool)
    ensures
        r == (transient(*err) || *err is EmptyEmbedding),
{
    is_transient(err) || matches!(err, LlmError::EmptyEmbedding)
}

/// The failure in words.
pub open spec fn error_text(e: LlmError) -> Seq<char> {
    match e {
        LlmError::Http { message, .. } => "HTTP error: "@ + message@,
        LlmError::Api { status, body } => "API error ("@ + crate::text::decimal(status as nat) + "): "@
            + body@,
        LlmError::EmptyEmbedding => "empty embedding response"@,
        LlmError::EmptyCompletion => "empty completion response"@,
    }
}

impl LlmError {
    /// The failure in words (see `error_text`).
    pub fn describe(&self) -> (r: String)
        ensures
            r@ == error_text(*self),
    {
        match self {
            LlmError::Http { message, .. } => {
                let mut s = String::from_str("HTTP error: ");
                s.append(message.as_str());
                s
            },
            LlmError::Api { status, body } => {
                let mut s = String::from_str("API error (");
                crate::text::push_decimal(&mut s, *status as u64);
                s.append("): ");
                s.append(body.as_str());
                assert(s@ =~= error_text(*self));
                s
            },
            LlmError::EmptyEmbedding => String::from_str("empty embedding response"),
            LlmError::EmptyCompletion => String::from_str("empty completion response"),
        }
    }
}

/// The chat endpoint under a reason model's base URL: Ollama's native chat
/// API, or the OpenAI-compatible completions path.
pub fn chat_url(base: &str, native: bool) -> (r: String)
    ensures
        r@ == base@ + (if native { "/api/chat"@ } else { "/v1/chat/completions"@ }),
{
    let mut u = String::from_str(base);
    if native {
        u.append("/api/chat");
    } else {
        u.append("/v1/chat/completions");
    }
    u
}

/// What a chat reply's content gives the caller: the answer with leaked
/// reasoning removed, or `EmptyCompletion` when there is no content or
/// nothing is left.
pub fn completion_of(content: Option<&str>) -> (r: Result<String, LlmError>)
    ensures
        match content {
            Some(c) => if answer_of(c@).len() > 0 {
                r matches Ok(t) && t@ == answer_of(c@)
            } else {
                r matches Err(LlmError::EmptyCompletion)
            },
            None => r matches Err(LlmError::EmptyCompletion),
        },
{
    match content {
        Some(c) => {
            let t = strip_think(c);
            if t.unicode_len() == 0 {
                Err(LlmError::EmptyCompletion)
            } else {
                Ok(t)
            }
        },
        None => Err(LlmError::EmptyCompletion),
    }
}

/// At most this many characters of a failure reason are kept.
pub const REASON_MAX_CHARS: usize = 160;

/// The text before the first line break.
pub open spec fn first_line(s: Seq<char>) -> Seq<char> {
    match find(s, seq!['\n']) {
        Some(i) => s.take(i),
        None => s,
    }
}

/// A failure reason as one line of a health report: the first line of its
/// text, trimmed, and cut to `REASON_MAX_CHARS` characters with an ellipsis
/// when longer.
pub open spec fn reason_line(full: Seq<char>) -> Seq<char> {
    let first = trim(first_line(full));
    if first.len() > REASON_MAX_CHARS {
        first.take(REASON_MAX_CHARS as int) + "…"@
    } else {
        first
    }
}

/// The reason for a failure on one bounded line (see `reason_line`).
pub fn one_line_reason(err: &LlmError) -> (r: String)
    ensures
        r@ == reason_line(error_text(*err)),
{
    let full = err.describe();
    let v = chars_of(full.as_str());
    let nl = vec!['\n'];
    assert(nl@ =~= seq!['\n']);
    let line = match find_at(v.as_slice(), nl.as_slice(), 0) {
        Some(i) => {
            proof {
                lemma_find_from(v@, nl@, 0);
            }
            string_range(v.as_slice(), 0, i)
        },
        None => crate::text::string_of(v.as_slice()),
    };
    assert(line@ =~= first_line(full@));
    let first = crate::text::trim_str(line.as_str());
    let fv = chars_of(first.as_str());
    if fv.len() > REASON_MAX_CHARS {
        let mut s = string_range(fv.as_slice(), 0, REASON_MAX_CHARS);
        s.append("…");
        s
    } else {
        first
    }
}

/// What a failed completion leaves for the health report: whether it was
/// transient, then its reason on one line.
pub open spec fn failure_line(e: LlmError) -> Seq<char> {
    (if transient(e) {
        "transient: "@
    } else {
        "permanent: "@
    }) + reason_line(error_text(e))
}

/// The record of a failed completion (see `failure_line`).
pub fn complete_failure_line(err: &LlmError) -> (r: String)
    ensures
        r@ == failure_line(*err),
{
    let mut s = if is_transient(err) {
        String::from_str("transient: ")
    } else {
        String::from_str("permanent: ")
    };
    let reason = one_line_reason(err);
    s.append(reason.as_str());
    s
}


/// `s` holds no line break.
pub open spec fn one_line(s: Seq<char>) -> bool {
    forall|i: int| 0 <= i < s.len() ==> #[trigger] s[i] != '\n'
}

proof fn lemma_first_line_one_line(s: Seq<char>)
    ensures
        one_line(first_line(s)),
{
    let nl = seq!['\n'];
    lemma_find_from(s, nl, 0);
    let end = match find(s, nl) {
        Some(i) => i,
        None => s.len() as int,
    };
    assert forall|j: int| 0 <= j < end implies #[trigger] s[j] != '\n' by {
        if s[j] == '\n' {
            assert(s.subrange(j, j + 1) =~= nl);
            assert(occurs_at(s, j, nl));
        }
    }
    assert(first_line(s) =~= s.take(end));
}

proof fn lemma_trim_start_one_line(s: Seq<char>)
    requires
        one_line(s),
    ensures
        one_line(trim_start(s)),
    decreases s.len(),
{
    if s.len() > 0 && is_ws(s[0]) {
        let t = s.drop_first();
        assert forall|i: int| 0 <= i < t.len() implies #[trigger] t[i] != '\n' by {
            assert(t[i] == s[i + 1]);
        }
        lemma_trim_start_one_line(t);
    }
}

proof fn lemma_trim_end_one_line(s: Seq<char>)
    requires
        one_line(s),
    ensures
        one_line(trim_end(s)),
    decreases s.len(),
{
    if s.len() > 0 && is_ws(s.last()) {
        let t = s.drop_last();
        assert forall|i: int| 0 <= i < t.len() implies #[trigger] t[i] != '\n' by {
            assert(t[i] == s[i]);
        }
        lemma_trim_end_one_line(t);
    }
}

/// Two single lines joined stay one line.
proof fn lemma_join_one_line(a: Seq<char>, b: Seq<char>)
    requires
        one_line(a),
        one_line(b),
    ensures
        one_line(a + b),
{
    assert forall|i: int| 0 <= i < (a + b).len() implies #[trigger] (a + b)[i] != '\n' by {
        if i < a.len() {
            assert((a + b)[i] == a[i]);
        } else {
            assert((a + b)[i] == b[i - a.len()]);
        }
    }
}

/// A failure reason is reported on one line: whatever the error's text, its
/// reason line holds no line break.
pub proof fn lemma_reason_line_is_one_line(full: Seq<char>)
    ensures
        one_line(reason_line(full)),
{
    let f = first_line(full);
    lemma_first_line_one_line(full);
    lemma_trim_start_one_line(f);
    lemma_trim_end_one_line(trim_start(f));
    let t = trim(f);
    if t.len() > REASON_MAX_CHARS {
        let head = t.take(REASON_MAX_CHARS as int);
        assert forall|i: int| 0 <= i < head.len() implies #[trigger] head[i] != '\n' by {
            assert(head[i] == t[i]);
        }
        reveal_strlit("…");
        lemma_join_one_line(head, "…"@);
    }
}

/// The record of a failed completion is one line: it never holds a line
/// break, whatever the error's text.
pub proof fn lemma_failure_line_is_one_line(e: LlmError)
    ensures
        one_line(failure_line(e)),
{
    lemma_reason_line_is_one_line(error_text(e));
    reveal_strlit("transient: ");
    reveal_strlit("permanent: ");
    let label = if transient(e) { "transient: "@ } else { "permanent: "@ };
    assert(one_line(label));
    lemma_join_one_line(label, reason_line(error_text(e)));
}

} // verus!
