//! The upstream client.
//!
//! Nothing here touches the network. A function either describes a request
//! that is to be sent ([`request`], [`proxy`]), or makes of the answer what
//! the caller is to have ([`canonical_path`], [`json`], [`relay`]). Sending
//! is the caller's part, and so is waiting: the two caches that stand in
//! front of [`canonical_path`] and [`json`] tell a caller whether to send at
//! all.

use vstd::prelude::*;
use vstd::string::*;
use vstd::utf8::encode_utf8;
use crate::cache::{Line, MemoCache};
use crate::headers::{
    law_lookup_any_case, law_put, law_without, lookup, put, without, Field, Headers,
};
use crate::server::{Request, Response};
use crate::text::{
    from_chars, holds_at, matches_at, replace_all, replaced, same_folded, str_eq, to_chars,
};

verus! {

/// Where the upstream lives and how this client names itself to it.
#[derive(Debug, Clone, PartialEq, Eq)]
pub struct Upstream {
    /// The origin that every path is appended to, such as
    /// `https://www.reddit.com`.
    pub base: String,
    /// The value of the `Host` header.
    pub host: String,
    /// The value of the `User-Agent` header.
    pub agent: String,
}

/// A request that is to be sent out.
#[derive(Debug, Clone, PartialEq, Eq)]
pub struct UpstreamRequest {
    pub method: String,
    pub url: String,
    pub headers: Headers,
    /// Whether redirects are followed to their end, or the redirect itself
    /// is handed back.
    pub follow_redirects: bool,
}

impl Upstream {
    /// Reddit, for a client of the given version.
    pub fn reddit(version: &str) -> (upstream: Upstream)
        ensures
            upstream.base@ == "https://www.reddit.com"@,
            upstream.host@ == "www.reddit.com"@,
            upstream.agent@ == "web:libreddit:"@ + version@,
    {
        let mut agent = String::from_str("web:libreddit:");
        agent.append(version);
        Upstream {
            base: String::from_str("https://www.reddit.com"),
            host: String::from_str("www.reddit.com"),
            agent,
        }
    }
}

/// The headers that every request to the upstream carries.
pub open spec fn profile(
    agent: Seq<char>,
    host: Seq<char>,
    method: Seq<char>,
    quarantine: bool,
) -> Seq<Field> {
    seq![
        ("User-Agent"@, agent),
        ("Host"@, host),
        ("Accept"@, "text/html,application/xhtml+xml,application/xml;q=0.9,image/webp,*/*;q=0.8"@),
        (
            "Accept-Encoding"@,
            if method == "GET"@ {
                "gzip"@
            } else {
                "identity"@
            },
        ),
        ("Accept-Language"@, "en-US,en;q=0.5"@),
        ("Connection"@, "keep-alive"@),
        (
            "Cookie"@,
            if quarantine {
                "_options=%7B%22pref_quarantine_optin%22%3A%20true%7D"@
            } else {
                ""@
            },
        ),
    ]
}

/// The request for `path` on the upstream: the address is the base with the
/// path appended, the headers are the fixed [`profile`]. With `quarantine`
/// the cookie opts in to quarantined content.
pub fn request(
    upstream: &Upstream,
    method: &str,
    path: String,
    redirect: bool,
    quarantine: bool,
) -> (req: UpstreamRequest)
    ensures
        req.method@ == method@,
        req.url@ == upstream.base@ + path@,
        req.headers@ == profile(upstream.agent@, upstream.host@, method@, quarantine),
        req.follow_redirects == redirect,
{
    let mut url = upstream.base.clone();
    url.append(path.as_str());
    let mut headers = Headers::new();
    headers.append("User-Agent", upstream.agent.as_str());
    headers.append("Host", upstream.host.as_str());
    headers.append(
        "Accept",
        "text/html,application/xhtml+xml,application/xml;q=0.9,image/webp,*/*;q=0.8",
    );
    headers.append(
        "Accept-Encoding",
        if str_eq(method, "GET") {
            "gzip"
        } else {
            "identity"
        },
    );
    headers.append("Accept-Language", "en-US,en;q=0.5");
    headers.append("Connection", "keep-alive");
    headers.append(
        "Cookie",
        if quarantine {
            "_options=%7B%22pref_quarantine_optin%22%3A%20true%7D"
        } else {
            ""
        },
    );
    proof {
        assert(headers@ =~= profile(upstream.agent@, upstream.host@, method@, quarantine));
    }
    UpstreamRequest { method: String::from_str(method), url, headers, follow_redirects: redirect }
}

/// A `GET` for `path` that follows redirects.
pub fn reddit_get(upstream: &Upstream, path: String, quarantine: bool) -> (req: UpstreamRequest)
    ensures
        req.method@ == "GET"@,
        req.url@ == upstream.base@ + path@,
        req.headers@ == profile(upstream.agent@, upstream.host@, "GET"@, quarantine),
        req.follow_redirects,
{
    request(upstream, "GET", path, true, quarantine)
}

/// A `HEAD` for `path` that does not follow redirects.
pub fn reddit_head(upstream: &Upstream, path: String, quarantine: bool) -> (req: UpstreamRequest)
    ensures
        req.method@ == "HEAD"@,
        req.url@ == upstream.base@ + path@,
        req.headers@ == profile(upstream.agent@, upstream.host@, "HEAD"@, quarantine),
        !req.follow_redirects,
{
    request(upstream, "HEAD", path, false, quarantine)
}

/// The request whose outcome [`canonical_path`] resolves: a `HEAD` for
/// `path` that opts in to quarantined content.
pub fn canonical_path_request(upstream: &Upstream, path: String) -> (req: UpstreamRequest)
    ensures
        req.method@ == "HEAD"@,
        req.url@ == upstream.base@ + path@,
        req.headers@ == profile(upstream.agent@, upstream.host@, "HEAD"@, true),
        !req.follow_redirects,
{
    reddit_head(upstream, path, true)
}

/// The request whose outcome [`json`] reads: a `GET` for `path`.
pub fn json_request(upstream: &Upstream, path: String, quarantine: bool) -> (req: UpstreamRequest)
    ensures
        req.method@ == "GET"@,
        req.url@ == upstream.base@ + path@,
        req.headers@ == profile(upstream.agent@, upstream.host@, "GET"@, quarantine),
        req.follow_redirects,
{
    reddit_get(upstream, path, quarantine)
}

/// The upper-case hexadecimal digit for `d`, which is below 16.
pub open spec fn hex_digit(d: int) -> char {
    if d < 10 {
        ((48 + d) as u8) as char
    } else {
        ((55 + d) as u8) as char
    }
}

/// One byte as `percent_encode` writes it with the set `CONTROLS`: as `%`
/// and two hexadecimal digits where the byte is a control or beyond ASCII,
/// else as the character it stands for.
pub open spec fn byte_encoded(b: u8) -> Seq<char> {
    if b < 0x20 || b >= 0x7F {
        seq!['%', hex_digit(b as int / 16), hex_digit(b as int % 16)]
    } else {
        seq![b as char]
    }
}

/// The bytes as `percent_encode` writes them with the set `CONTROLS`.
pub open spec fn controls_encoded(bytes: Seq<u8>) -> Seq<char>
    decreases bytes.len(),
{
    if bytes.len() == 0 {
        Seq::empty()
    } else {
        byte_encoded(bytes[0]) + controls_encoded(bytes.skip(1))
    }
}

/// Calls `percent_encoding::percent_encode` on the UTF-8 bytes of `text`
/// with the set `CONTROLS`, and collects what it yields. The crate encodes
/// the bytes `0x00` to `0x1F`, `0x7F` and every byte beyond ASCII as `%` and
/// two upper-case hexadecimal digits, and hands every other byte on.
#[verifier::external_body]
fn encode_controls(text: &str) -> (r: String)
    ensures
        r@ == controls_encoded(encode_utf8(text@)),
{
    percent_encoding::percent_encode(text.as_bytes(), percent_encoding::CONTROLS).to_string()
}

/// `s` without `prefix` at its start, as often as it stands there. An empty
/// prefix takes nothing away.
pub open spec fn without_prefix(s: Seq<char>, prefix: Seq<char>) -> Seq<char>
    decreases s.len(),
{
    if prefix.len() > 0 && holds_at(s, prefix, 0) {
        without_prefix(s.skip(prefix.len() as int), prefix)
    } else {
        s
    }
}

/// See [`without_prefix`].
pub fn strip_prefix(s: &str, prefix: &str) -> (r: String)
    ensures
        r@ == without_prefix(s@, prefix@),
{
    let chars = to_chars(s);
    let pattern = to_chars(prefix);
    let mut start: usize = 0;
    proof {
        assert(chars@.skip(0) == chars@);
    }
    while pattern.len() > 0 && matches_at(&chars, &pattern, start)
        invariant
            start <= chars.len(),
            without_prefix(chars@.skip(start as int), pattern@) == without_prefix(
                chars@,
                pattern@,
            ),
        decreases chars.len() - start,
    {
        proof {
            let rest = chars@.skip(start as int);
            assert(rest.subrange(0, pattern@.len() as int) == chars@.subrange(
                start as int,
                start + pattern@.len(),
            ));
            assert(rest.skip(pattern@.len() as int) == chars@.skip(start + pattern@.len()));
        }
        start += pattern.len();
    }
    proof {
        let rest = chars@.skip(start as int);
        if pattern@.len() > 0 && holds_at(rest, pattern@, 0) {
            assert(rest.subrange(0, pattern@.len() as int) == chars@.subrange(
                start as int,
                start + pattern@.len(),
            ));
        }
    }
    let mut out: Vec<char> = Vec::new();
    let mut i: usize = start;
    while i < chars.len()
        invariant
            start <= i <= chars.len(),
            out@ == chars@.subrange(start as int, i as int),
        decreases chars.len() - i,
    {
        out.push(chars[i]);
        proof {
            assert(chars@.subrange(start as int, i + 1) == chars@.subrange(
                start as int,
                i as int,
            ).push(chars@[i as int]));
        }
        i += 1;
    }
    proof {
        assert(chars@.subrange(start as int, chars@.len() as int) == chars@.skip(start as int));
    }
    from_chars(&out)
}

/// The error for an upstream that answers 429.
pub open spec fn rate_limited() -> Seq<char> {
    "Too many requests."@
}

/// The path that a redirect to `location` names: the location with its
/// controls and non-ASCII bytes percent-encoded, without the upstream's
/// base at its start.
pub open spec fn redirect_target(base: Seq<char>, location: Seq<char>) -> Seq<char> {
    without_prefix(controls_encoded(encode_utf8(location)), base)
}

/// The canonical path for `path`, given the status with which the upstream
/// answered a `HEAD` for it and the `Location` it named, if any.
///
/// A 429 is an error. With a status from 200 to 299 the path is canonical
/// as it is. With any status outside 300 to 399 there is no canonical path,
/// nor is there one for a redirect that names no location. Otherwise it is
/// the [`redirect_target`]: one hop, never followed further.
pub open spec fn canonical(
    base: Seq<char>,
    path: Seq<char>,
    status: u16,
    location: Option<Seq<char>>,
) -> Result<Option<Seq<char>>, Seq<char>> {
    if status == 429 {
        Err(rate_limited())
    } else if 200 <= status < 300 {
        Ok(Some(path))
    } else if !(300 <= status < 400) {
        Ok(None)
    } else {
        match location {
            None => Ok(None),
            Some(l) => Ok(Some(redirect_target(base, l))),
        }
    }
}

/// The texts that `r` holds.
pub open spec fn path_outcome(r: Result<Option<String>, String>) -> Result<
    Option<Seq<char>>,
    Seq<char>,
> {
    match r {
        Ok(Some(p)) => Ok(Some(p@)),
        Ok(None) => Ok(None),
        Err(e) => Err(e@),
    }
}

/// Resolves the canonical path for `path` from the outcome of a `HEAD`
/// request for it (see [`reddit_head`]). A failure to reach the upstream is
/// handed on as it is; for an answer see [`canonical`].
pub fn canonical_path<B>(
    upstream: &Upstream,
    path: String,
    head: Result<Response<B>, String>,
) -> (r: Result<Option<String>, String>)
    ensures
        match head {
            Err(cause) => r == Err::<Option<String>, String>(cause),
            Ok(res) => path_outcome(r) == canonical(
                upstream.base@,
                path@,
                res.status,
                lookup(res.headers@, "location"@),
            ),
        },
{
    let res = match head {
        Err(cause) => {
            return Err(cause);
        },
        Ok(res) => res,
    };
    if res.status == 429 {
        return Err(String::from_str("Too many requests."));
    }
    if 200 <= res.status && res.status < 300 {
        return Ok(Some(path));
    }
    if !(300 <= res.status && res.status < 400) {
        return Ok(None);
    }
    match res.headers.get("location") {
        None => Ok(None),
        Some(location) => {
            let encoded = encode_controls(location.as_str());
            Ok(Some(strip_prefix(encoded.as_str(), upstream.base.as_str())))
        },
    }
}

/// The placeholder for the parameter `name`: the name in braces.
pub open spec fn placeholder(name: Seq<char>) -> Seq<char> {
    seq!['{'] + name + seq!['}']
}

/// `template` after the placeholder of each parameter was replaced by the
/// parameter's value, one parameter after the other.
pub open spec fn substituted(template: Seq<char>, params: Seq<Field>) -> Seq<char>
    decreases params.len(),
{
    if params.len() == 0 {
        template
    } else {
        replaced(
            substituted(template, params.drop_last()),
            placeholder(params.last().0),
            params.last().1,
        )
    }
}

/// See [`substituted`].
pub fn substitute(template: &str, params: &Vec<(String, String)>) -> (r: Vec<char>)
    ensures
        r@ == substituted(template@, crate::headers::fields_of(params@)),
{
    let ghost all = crate::headers::fields_of(params@);
    let mut out = to_chars(template);
    let mut i: usize = 0;
    while i < params.len()
        invariant
            i <= params.len(),
            all == crate::headers::fields_of(params@),
            out@ == substituted(template@, all.take(i as int)),
        decreases params.len() - i,
    {
        let mut pattern: Vec<char> = Vec::new();
        pattern.push('{');
        let name = to_chars(params[i].0.as_str());
        let mut k: usize = 0;
        while k < name.len()
            invariant
                k <= name.len(),
                pattern@ == seq!['{'] + name@.take(k as int),
            decreases name.len() - k,
        {
            pattern.push(name[k]);
            proof {
                assert(name@.take(k + 1) == name@.take(k as int).push(name@[k as int]));
                assert(seq!['{'] + name@.take(k + 1) == (seq!['{'] + name@.take(k as int)).push(
                    name@[k as int],
                ));
            }
            k += 1;
        }
        pattern.push('}');
        let value = to_chars(params[i].1.as_str());
        proof {
            assert(name@.take(name@.len() as int) == name@);
            assert(pattern@ == placeholder(all[i as int].0));
            assert(all.take(i + 1).drop_last() == all.take(i as int));
            assert(all.take(i + 1).last() == all[i as int]);
        }
        out = replace_all(&out, &pattern, &value);
        i += 1;
    }
    proof {
        assert(all.take(all.len() as int) == all);
    }
    out
}

/// `out` with the field `name` set to what `from` holds under that name, or
/// `out` as it is where `from` holds nothing under it.
pub open spec fn carried(out: Seq<Field>, from: Seq<Field>, name: Seq<char>) -> Seq<Field> {
    match lookup(from, name) {
        Some(v) => put(out, name, v),
        None => out,
    }
}

/// The headers that are handed on to the upstream from a request that is
/// proxied: `Range`, `If-Modified-Since` and `Cache-Control`, each as far as
/// the request has it, and nothing else.
pub open spec fn forwarded(headers: Seq<Field>) -> Seq<Field> {
    carried(
        carried(carried(Seq::empty(), headers, "Range"@), headers, "If-Modified-Since"@),
        headers,
        "Cache-Control"@,
    )
}

fn carry(out: &mut Headers, from: &Headers, name: &str)
    ensures
        final(out)@ == carried(old(out)@, from@, name@),
{
    match from.get(name) {
        Some(v) => out.set(name, v.as_str()),
        None => {},
    }
}

/// The request that fetches `url` on behalf of `req`: a `GET` that follows
/// redirects and carries the [`forwarded`] headers of `req`.
pub fn stream(url: String, req: &Request) -> (out: UpstreamRequest)
    ensures
        out.method@ == "GET"@,
        out.url == url,
        out.headers@ == forwarded(req.headers@),
        out.follow_redirects,
{
    let mut headers = Headers::new();
    carry(&mut headers, &req.headers, "Range");
    carry(&mut headers, &req.headers, "If-Modified-Since");
    carry(&mut headers, &req.headers, "Cache-Control");
    UpstreamRequest { method: String::from_str("GET"), url, headers, follow_redirects: true }
}

/// The request that proxies `req` to the address that `format` describes.
///
/// In `format` the placeholder `{name}` of each parameter that the route
/// captured is replaced by the parameter's value. The query of `req` is
/// appended to the result as it is: with its leading `?`, or not at all
/// where the request has none.
pub fn proxy(req: &Request, format: &str) -> (out: UpstreamRequest)
    ensures
        out.method@ == "GET"@,
        out.url@ == substituted(format@, crate::headers::fields_of(req.params@)) + req.search@,
        out.headers@ == forwarded(req.headers@),
        out.follow_redirects,
{
    let path = substitute(format, &req.params);
    let mut url = from_chars(&path);
    url.append(req.search.as_str());
    stream(url, req)
}

/// The names of the headers that are kept from the client when an upstream
/// response is relayed.
pub open spec fn hidden() -> Seq<Seq<char>> {
    seq![
        "access-control-expose-headers"@,
        "server"@,
        "vary"@,
        "etag"@,
        "x-cdn"@,
        "x-cdn-client-region"@,
        "x-cdn-name"@,
        "x-cdn-server-region"@,
        "x-reddit-cdn"@,
        "x-reddit-video-features"@,
    ]
}

/// `headers` without the fields that bear one of `names`.
pub open spec fn without_all(headers: Seq<Field>, names: Seq<Seq<char>>) -> Seq<Field>
    decreases names.len(),
{
    if names.len() == 0 {
        headers
    } else {
        without(without_all(headers, names.drop_last()), names.last())
    }
}

/// Whether `name` is one of `names`, up to the case of ASCII letters.
pub open spec fn listed(names: Seq<Seq<char>>, name: Seq<char>) -> bool {
    exists|i: int| 0 <= i < names.len() && same_folded(#[trigger] names[i], name)
}

/// The upstream's response as it is relayed to the client: status, status
/// text and body as they came, the headers without the [`hidden`] ones.
pub fn relay<B>(response: Response<B>) -> (out: Response<B>)
    ensures
        out.status == response.status,
        out.status_text == response.status_text,
        out.body == response.body,
        out.headers@ == without_all(response.headers@, hidden()),
{
    let mut out = response;
    let ghost h0 = out.headers@;
    out.headers.delete("access-control-expose-headers");
    let ghost h1 = out.headers@;
    out.headers.delete("server");
    let ghost h2 = out.headers@;
    out.headers.delete("vary");
    let ghost h3 = out.headers@;
    out.headers.delete("etag");
    let ghost h4 = out.headers@;
    out.headers.delete("x-cdn");
    let ghost h5 = out.headers@;
    out.headers.delete("x-cdn-client-region");
    let ghost h6 = out.headers@;
    out.headers.delete("x-cdn-name");
    let ghost h7 = out.headers@;
    out.headers.delete("x-cdn-server-region");
    let ghost h8 = out.headers@;
    out.headers.delete("x-reddit-cdn");
    let ghost h9 = out.headers@;
    out.headers.delete("x-reddit-video-features");
    proof {
        let n = hidden();
        assert(n.take(0) == Seq::<Seq<char>>::empty());
        assert(h0 == without_all(h0, n.take(0)));
        assert(n.take(1).drop_last() == n.take(0));
        assert(h1 == without_all(h0, n.take(1)));
        assert(n.take(2).drop_last() == n.take(1));
        assert(h2 == without_all(h0, n.take(2)));
        assert(n.take(3).drop_last() == n.take(2));
        assert(h3 == without_all(h0, n.take(3)));
        assert(n.take(4).drop_last() == n.take(3));
        assert(h4 == without_all(h0, n.take(4)));
        assert(n.take(5).drop_last() == n.take(4));
        assert(h5 == without_all(h0, n.take(5)));
        assert(n.take(6).drop_last() == n.take(5));
        assert(h6 == without_all(h0, n.take(6)));
        assert(n.take(7).drop_last() == n.take(6));
        assert(h7 == without_all(h0, n.take(7)));
        assert(n.take(8).drop_last() == n.take(7));
        assert(h8 == without_all(h0, n.take(8)));
        assert(n.take(9).drop_last() == n.take(8));
        assert(h9 == without_all(h0, n.take(9)));
        assert(n.take(10).drop_last() == n.take(9));
        assert(n.take(10) == n);
    }
    out
}

/// Once the fields that bear one of `names` are gone, each of these names
/// reads as absent under any spelling, and every other name reads as before.
pub proof fn law_without_all(headers: Seq<Field>, names: Seq<Seq<char>>, name: Seq<char>)
    ensures
        lookup(without_all(headers, names), name) == if listed(names, name) {
            None
        } else {
            lookup(headers, name)
        },
    decreases names.len(),
{
    if names.len() > 0 {
        let front = names.drop_last();
        law_without_all(headers, front, name);
        law_without(without_all(headers, front), names.last(), name);
        if listed(front, name) {
            let i = choose|i: int| 0 <= i < front.len() && same_folded(#[trigger] front[i], name);
            assert(same_folded(names[i], name));
        }
        if same_folded(names.last(), name) {
            assert(same_folded(names[names.len() - 1], name));
        }
        if listed(names, name) {
            let i = choose|i: int| 0 <= i < names.len() && same_folded(#[trigger] names[i], name);
            if i < front.len() {
                assert(same_folded(front[i], name));
            }
        }
    }
}

/// A relayed response shows none of the [`hidden`] headers, however the
/// upstream spelled them, and every other header as the upstream sent it.
pub proof fn law_relay_hides(headers: Seq<Field>, name: Seq<char>)
    ensures
        lookup(without_all(headers, hidden()), name) == if listed(hidden(), name) {
            None
        } else {
            lookup(headers, name)
        },
{
    law_without_all(headers, hidden(), name);
}

proof fn lemma_carried(out: Seq<Field>, from: Seq<Field>, name: Seq<char>, other: Seq<char>)
    requires
        lookup(out, other) is None || lookup(out, other) == lookup(from, other),
    ensures
        lookup(carried(out, from, name), other) == if same_folded(name, other) {
            lookup(from, other)
        } else {
            lookup(out, other)
        },
{
    if same_folded(name, other) {
        law_lookup_any_case(from, name, other);
    }
    match lookup(from, name) {
        Some(v) => {
            law_put(out, name, v, other);
        },
        None => {},
    }
}

/// Of the headers of a proxied request exactly three reach the upstream:
/// `Range`, `If-Modified-Since` and `Cache-Control`, under any spelling,
/// each with the value that the request gave it. Every other name reads as
/// absent.
pub proof fn law_forward_only_listed(headers: Seq<Field>, name: Seq<char>)
    ensures
        lookup(forwarded(headers), name) == if same_folded("Range"@, name) || same_folded(
            "If-Modified-Since"@,
            name,
        ) || same_folded("Cache-Control"@, name) {
            lookup(headers, name)
        } else {
            None
        },
{
    let none = Seq::<Field>::empty();
    let first = carried(none, headers, "Range"@);
    let second = carried(first, headers, "If-Modified-Since"@);
    lemma_carried(none, headers, "Range"@, name);
    lemma_carried(first, headers, "If-Modified-Since"@, name);
    lemma_carried(second, headers, "Cache-Control"@, name);
}

/// `serde_json::Value`, of which the verifier sees only what the items
/// below say.
#[verifier::external_type_specification]
#[verifier::external_body]
pub struct ExValue(serde_json::Value);

/// What a document holds under a key, as far as this crate reads it.
#[derive(Debug, Clone, PartialEq, Eq)]
pub enum Member {
    /// A number, with its value where that is an integer within `i64`.
    Number(Option<i64>),
    /// A string.
    Text(String),
    /// Anything else, or nothing at all.
    Other,
}

/// The document that `serde_json::from_str` reads from `text`; `None` where
/// it reports an error.
pub uninterp spec fn json_parsed(text: Seq<char>) -> Option<serde_json::Value>;

/// What indexing `doc` by `key` finds, see [`Member`].
pub uninterp spec fn json_member(doc: serde_json::Value, key: Seq<char>) -> Member;

/// Calls `serde_json::from_str` for a `serde_json::Value`. The contract
/// claims only that the outcome is a function of the text: the document on
/// success, `None` on any error.
#[verifier::external_body]
fn parse_json(text: &str) -> (r: Option<serde_json::Value>)
    ensures
        r == json_parsed(text@),
{
    serde_json::from_str(text).ok()
}

/// Indexes `doc` by `key` (`Value`'s `Index<&str>`, which yields `Null` where
/// `doc` is no object or lacks the key) and reports the variant found: a
/// number with `Number::as_i64`, a string with its text, else `Other`.
#[verifier::external_body]
fn member(doc: &serde_json::Value, key: &str) -> (r: Member)
    ensures
        r == json_member(*doc, key@),
{
    match &doc[key] {
        serde_json::Value::Number(n) => Member::Number(n.as_i64()),
        serde_json::Value::String(s) => Member::Text(s.clone()),
        _ => Member::Other,
    }
}

/// What `Value::is_null` answers for `doc`.
pub uninterp spec fn json_is_null(doc: serde_json::Value) -> bool;

/// Calls `Value::default()`, which is `Value::Null`: `Value::is_null` holds
/// of it, and indexing it by any key finds `Null` again.
#[verifier::external_body]
fn null_json() -> (r: serde_json::Value)
    ensures
        json_is_null(r),
        forall|key: Seq<char>| #[trigger] json_member(r, key) == Member::Other,
{
    serde_json::Value::default()
}

/// Whether `doc` is the empty document that stands in for a body that
/// cannot be decoded: it is `null`, and indexing it finds nothing under any
/// key.
pub open spec fn blank(doc: serde_json::Value) -> bool {
    &&& json_is_null(doc)
    &&& forall|key: Seq<char>| #[trigger] json_member(doc, key) == Member::Other
}

/// The error reported when the upstream could not be reached for `cause`.
pub open spec fn send_failure(cause: Seq<char>) -> Seq<char> {
    "Couldn't send request to Reddit"@ + ": "@ + cause
}

/// The error reported for any upstream status of 500 or above.
pub open spec fn outage() -> Seq<char> {
    "Reddit is having issues, check if there's an outage"@
}

/// The error reported where the upstream's own error carries no text.
pub open spec fn unreadable_error() -> Seq<char> {
    "Error parsing reddit error"@
}

/// The error that an upstream document reports about itself: none unless
/// its `error` is an integer within `i64`; then the text of `reason`, or
/// else of `message`, or else [`unreadable_error`].
pub open spec fn reported_error(error: Member, reason: Member, message: Member) -> Option<
    Seq<char>,
> {
    if error matches Member::Number(Some(_)) {
        Some(
            match reason {
                Member::Text(t) => t@,
                _ => match message {
                    Member::Text(t) => t@,
                    _ => unreadable_error(),
                },
            },
        )
    } else {
        None
    }
}

/// [`reported_error`] of the members `error`, `reason` and `message` of
/// `doc`.
pub open spec fn document_error(doc: serde_json::Value) -> Option<Seq<char>> {
    reported_error(
        json_member(doc, "error"@),
        json_member(doc, "reason"@),
        json_member(doc, "message"@),
    )
}

/// See [`reported_error`].
pub fn upstream_error(error: &Member, reason: Member, message: Member) -> (r: Option<String>)
    ensures
        match r {
            Some(text) => reported_error(*error, reason, message) == Some(text@),
            None => reported_error(*error, reason, message) is None,
        },
{
    match error {
        Member::Number(Some(_)) => Some(
            match reason {
                Member::Text(t) => t,
                _ => match message {
                    Member::Text(t) => t,
                    _ => String::from_str("Error parsing reddit error"),
                },
            },
        ),
        _ => None,
    }
}

/// The document that `body` stands for: what it decodes to, or an empty
/// document where it does not decode. A body that is not JSON is no error.
pub fn decode(body: &str) -> (doc: serde_json::Value)
    ensures
        match json_parsed(body@) {
            Some(d) => doc == d,
            None => blank(doc),
        },
{
    match parse_json(body) {
        Some(d) => d,
        None => null_json(),
    }
}

/// Accepts a decoded document unless it reports an error about itself; see
/// [`document_error`].
pub fn check_document(doc: serde_json::Value) -> (r: Result<serde_json::Value, String>)
    ensures
        match r {
            Ok(d) => d == doc && document_error(doc) is None,
            Err(text) => document_error(doc) == Some(text@),
        },
{
    let error = member(&doc, "error");
    let reason = member(&doc, "reason");
    let message = member(&doc, "message");
    match upstream_error(&error, reason, message) {
        Some(text) => Err(text),
        None => Ok(doc),
    }
}

/// Turns the outcome of a `GET` for a JSON resource into a document or an
/// error text.
///
/// A transport failure is reported with its cause. A status of 500 or above
/// is an outage, whatever the body holds. Otherwise the body is decoded
/// leniently ([`decode`]) and the document is returned unless it reports an
/// error about itself ([`document_error`]).
pub fn json(reply: Result<Response<String>, String>) -> (r: Result<serde_json::Value, String>)
    ensures
        match reply {
            Err(cause) => r matches Err(text) && text@ == send_failure(cause@),
            Ok(res) => if res.status >= 500 {
                r matches Err(text) && text@ == outage()
            } else {
                match r {
                    Ok(doc) => {
                        &&& document_error(doc) is None
                        &&& match json_parsed(res.body@) {
                            Some(d) => doc == d,
                            None => blank(doc),
                        }
                    },
                    Err(text) => {
                        &&& json_parsed(res.body@) matches Some(d)
                        &&& document_error(d) == Some(text@)
                    },
                }
            },
        },
{
    match reply {
        Err(cause) => {
            let mut text = String::from_str("Couldn't send request to Reddit");
            text.append(": ");
            text.append(cause.as_str());
            Err(text)
        },
        Ok(res) => {
            if res.status >= 500 {
                Err(String::from_str("Reddit is having issues, check if there's an outage"))
            } else {
                let doc = decode(res.body.as_str());
                proof {
                    if json_parsed(res.body@) is None {
                        assert(document_error(doc) is None);
                    }
                }
                check_document(doc)
            }
        },
    }
}

/// The cache in front of [`canonical_path`], keyed by the path: at most 1024
/// outcomes, each good for 600 seconds.
pub fn canonical_path_cache() -> (cache: MemoCache<String, Result<Option<String>, String>>)
    ensures
        cache.wf(),
        cache.lines() == Seq::<Line<Seq<char>, Result<Option<String>, String>>>::empty(),
        cache.capacity() == 1024,
        cache.ttl() == 600,
{
    MemoCache::new(1024, 600)
}

/// The cache in front of [`json`], keyed by the path and the quarantine
/// flag: at most 100 outcomes, each good for 30 seconds.
pub fn json_cache() -> (cache: MemoCache<(String, bool), Result<serde_json::Value, String>>)
    ensures
        cache.wf(),
        cache.lines() == Seq::<
            Line<(Seq<char>, bool), Result<serde_json::Value, String>>,
        >::empty(),
        cache.capacity() == 100,
        cache.ttl() == 30,
{
    MemoCache::new(100, 30)
}

} // verus!
