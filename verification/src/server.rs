//! Requests, responses and the routing table.
//!
//! A [`Server`] binds a method and a path pattern to a handler, named by a
//! number of the caller's choice. [`Server::serve`] decides what is to be done
//! with a request: which handler is to run, with which captured parameters,
//! or that nothing matches. [`Server::respond`] turns what the handler brought
//! back into the response that leaves the server.
//!
//! Patterns are matched by the `route_recognizer` crate. In a pattern a
//! segment that starts with `:` captures one segment of the path, one that
//! starts with `*` captures the rest of it. A pattern bound twice under one
//! method belongs to the handler bound last. A pattern that holds NUL cannot
//! be bound, and a method or path that holds NUL matches nothing.

use vstd::prelude::*;
use vstd::string::*;
use crate::cookies::{cookie_parsed, expiry_date, named, set_cookie_text, Cookie, CookieView};
use crate::headers::{fields_of, law_put_all_sets, lookup, named_from, put_all, Field, Headers};
use crate::path::{law_normalize_idempotent, normalize, normalized};
use crate::text::{split, split_text, str_eq, texts, to_chars};

verus! {

/// The number by which a caller names a handler.
pub type Handler = usize;

/// `route_recognizer::Router`, of which the verifier sees only what the
/// items below say.
#[verifier::external_type_specification]
#[verifier::external_body]
#[verifier::reject_recursive_types(T)]
pub struct ExRouter<T>(route_recognizer::Router<T>);

/// The routes that were added to `router`, oldest first, each with the
/// handler it was added for.
pub uninterp spec fn router_routes(router: route_recognizer::Router<Handler>) -> Seq<
    (Seq<char>, Handler),
>;

/// What `Router::recognize` answers for `path` on a router to which `routes`
/// were added: the handler and the captured parameters, or the error text.
pub uninterp spec fn recognized(routes: Seq<(Seq<char>, Handler)>, path: Seq<char>) -> Result<
    (Handler, Seq<Field>),
    Seq<char>,
>;

/// Whether `s` holds the character NUL.
pub open spec fn holds_nul(s: Seq<char>) -> bool {
    exists|i: int| 0 <= i < s.len() && s[i] == '\0'
}

/// Whether `route` can be handed to the router: it holds no NUL, and once
/// one leading separator is set aside it is empty or starts with an ASCII
/// character.
pub open spec fn addable(route: Seq<char>) -> bool {
    let rest = if route.len() > 0 && route[0] == '/' {
        route.skip(1)
    } else {
        route
    };
    &&& !holds_nul(route)
    &&& (rest.len() == 0 || (rest[0] as u32) < 128)
}

/// `Router::new`: a router to which no route was added.
#[verifier::external_body]
fn new_router() -> (router: route_recognizer::Router<Handler>)
    ensures
        router_routes(router) == Seq::<(Seq<char>, Handler)>::empty(),
{
    route_recognizer::Router::new()
}

/// `Router::add`: the route joins those added before. The crate subtracts one
/// from each character's code and cuts the route behind its first byte, so
/// `requires` leaves out NUL and a first character beyond ASCII.
#[verifier::external_body]
fn add_route(router: &mut route_recognizer::Router<Handler>, route: &str, dest: Handler)
    requires
        addable(route@),
    ensures
        router_routes(*final(router)) == router_routes(*old(router)).push((route@, dest)),
{
    router.add(route, dest)
}

/// `Router::recognize`, with the handler copied and the parameters handed
/// out as pairs in the order in which `Params::iter` yields them. The outcome
/// is a function of the routes added and of the path. The crate subtracts
/// one from each character's code, so `requires` leaves out NUL.
#[verifier::external_body]
fn recognize(router: &route_recognizer::Router<Handler>, path: &str) -> (r: Result<
    (Handler, Vec<(String, String)>),
    String,
>)
    requires
        !holds_nul(path@),
    ensures
        match r {
            Ok((handler, params)) => recognized(router_routes(*router), path@) == Ok::<
                (Handler, Seq<Field>),
                Seq<char>,
            >((handler, fields_of(params@))),
            Err(text) => recognized(router_routes(*router), path@) == Err::<
                (Handler, Seq<Field>),
                Seq<char>,
            >(text@),
        },
{
    let found = router.recognize(path)?;
    let params = found.params().iter().map(|(k, v)| (k.to_string(), v.to_string())).collect();
    Ok((**found.handler(), params))
}

/// A request as the router and the handlers see it.
#[derive(Debug, Clone, PartialEq, Eq)]
pub struct Request {
    pub method: String,
    /// The path of the address, as it came in.
    pub pathname: String,
    /// The query of the address with its leading `?`, or empty.
    pub search: String,
    pub headers: Headers,
    /// The parameters that the matched pattern captured, by name.
    pub params: Vec<(String, String)>,
}

/// A response: status line, header list and a body of the caller's choice.
#[derive(Debug, Clone, PartialEq, Eq)]
pub struct Response<B> {
    pub status: u16,
    pub status_text: String,
    pub headers: Headers,
    pub body: B,
}

/// The key under which a pattern is bound, and under which a path is looked
/// up: a separator, the method, then the pattern or path.
pub open spec fn route_key(method: Seq<char>, path: Seq<char>) -> Seq<char> {
    seq!['/'] + method + path
}

/// Whether `s` holds a separator.
pub open spec fn holds_separator(s: Seq<char>) -> bool {
    exists|i: int| 0 <= i < s.len() && s[i] == '/'
}

/// Keys tell requests apart: where the methods hold no separator and the
/// paths start with one, two keys are equal exactly if both the methods and
/// the paths are.
pub proof fn law_route_key_injective(
    method: Seq<char>,
    path: Seq<char>,
    other_method: Seq<char>,
    other_path: Seq<char>,
)
    requires
        !holds_separator(method),
        !holds_separator(other_method),
        path.len() > 0 && path[0] == '/',
        other_path.len() > 0 && other_path[0] == '/',
    ensures
        route_key(method, path) == route_key(other_method, other_path) <==> method == other_method
            && path == other_path,
{
    let a = route_key(method, path);
    let b = route_key(other_method, other_path);
    if a == b {
        let m = method.len() as int;
        let n = other_method.len() as int;
        if m < n {
            assert(a[1 + m] == path[0]);
            assert(b[1 + m] == other_method[m]);
        } else if n < m {
            assert(b[1 + n] == other_path[0]);
            assert(a[1 + n] == method[n]);
        } else {
            assert(method =~= other_method) by {
                assert forall|i: int| 0 <= i < m implies method[i] == other_method[i] by {
                    assert(a[1 + i] == method[i]);
                    assert(b[1 + i] == other_method[i]);
                }
            }
            assert(path =~= other_path) by {
                assert(path.len() == other_path.len()) by {
                    assert(a.len() == 1 + m + path.len());
                    assert(b.len() == 1 + n + other_path.len());
                }
                assert forall|i: int| 0 <= i < path.len() implies path[i] == other_path[i] by {
                    assert(a[1 + m + i] == path[i]);
                    assert(b[1 + n + i] == other_path[i]);
                }
            }
        }
    }
}

/// See [`route_key`].
pub fn make_route_key(method: &str, path: &str) -> (key: String)
    ensures
        key@ == route_key(method@, path@),
{
    let mut key = String::new();
    key.push('/');
    key.append(method);
    key.append(path);
    proof {
        assert(key@ =~= route_key(method@, path@));
    }
    key
}

/// See [`holds_nul`].
pub fn has_nul(s: &str) -> (r: bool)
    ensures
        r == holds_nul(s@),
{
    let chars = to_chars(s);
    let mut i: usize = 0;
    while i < chars.len()
        invariant
            i <= chars.len(),
            chars@ == s@,
            forall|j: int| 0 <= j < i ==> s@[j] != '\0',
        decreases chars.len() - i,
    {
        if chars[i] == '\0' {
            return true;
        }
        i += 1;
    }
    false
}

/// Whether a handler can be bound to `pattern`: it holds no NUL, which the
/// router cannot take.
pub open spec fn bindable(pattern: Seq<char>) -> bool {
    !holds_nul(pattern)
}

/// The table `routes` after `dest` was bound to `pattern` under `method`:
/// the binding stands at the end, behind those made before. A pattern that
/// cannot be bound leaves the table as it is.
pub open spec fn bound(
    routes: Seq<(Seq<char>, Handler)>,
    method: Seq<char>,
    pattern: Seq<char>,
    dest: Handler,
) -> Seq<(Seq<char>, Handler)> {
    if bindable(pattern) {
        routes.push((route_key(method, pattern), dest))
    } else {
        routes
    }
}

/// A pattern that is about to be bound in a server's table.
pub struct Route<'a> {
    pub router: &'a mut route_recognizer::Router<Handler>,
    pub path: String,
}

impl Route<'_> {
    fn method(&mut self, method: &str, dest: Handler) -> (r: &mut Self)
        requires
            !holds_nul(method@),
            method@.len() > 0,
            (method@[0] as u32) < 128,
        ensures
            router_routes(*r.router) == bound(
                router_routes(*old(self).router),
                method@,
                old(self).path@,
                dest,
            ),
            r.path == old(self).path,
            *final(r.router) == *final(old(self).router),
            *final(self) == *final(r),
    {
        if has_nul(self.path.as_str()) {
            return self;
        }
        let key = make_route_key(method, self.path.as_str());
        proof {
            let k = key@;
            assert(k.skip(1)[0] == method@[0]);
            if holds_nul(k) {
                let i = choose|i: int| 0 <= i < k.len() && k[i] == '\0';
                if i >= 1 + method@.len() {
                    assert(self.path@[i - 1 - method@.len()] == '\0');
                } else if i >= 1 {
                    assert(method@[i - 1] == '\0');
                }
            }
        }
        add_route(&mut *self.router, key.as_str(), dest);
        self
    }

    /// Binds `dest` to `GET` requests for this pattern; see [`bound`]. Of
    /// two handlers bound to one pattern the later is the one that is
    /// served.
    pub fn get(&mut self, dest: Handler) -> (r: &mut Self)
        ensures
            router_routes(*r.router) == bound(
                router_routes(*old(self).router),
                "GET"@,
                old(self).path@,
                dest,
            ),
            r.path == old(self).path,
            *final(r.router) == *final(old(self).router),
            *final(self) == *final(r),
    {
        proof {
            reveal_strlit("GET");
            lemma_letters_hold_no_nul("GET"@);
        }
        self.method("GET", dest)
    }

    /// Binds `dest` to `POST` requests for this pattern; see [`bound`].
    pub fn post(&mut self, dest: Handler) -> (r: &mut Self)
        ensures
            router_routes(*r.router) == bound(
                router_routes(*old(self).router),
                "POST"@,
                old(self).path@,
                dest,
            ),
            r.path == old(self).path,
            *final(r.router) == *final(old(self).router),
            *final(self) == *final(r),
    {
        proof {
            reveal_strlit("POST");
            lemma_letters_hold_no_nul("POST"@);
        }
        self.method("POST", dest)
    }
}

/// A text made of upper-case letters holds no NUL.
proof fn lemma_letters_hold_no_nul(s: Seq<char>)
    requires
        forall|i: int| 0 <= i < s.len() ==> 'A' <= #[trigger] s[i] <= 'Z',
    ensures
        !holds_nul(s),
{
}

/// The routing table and the headers that every response is to carry.
pub struct Server {
    pub default_headers: Headers,
    pub router: route_recognizer::Router<Handler>,
}

/// What is to be done with a request.
#[derive(Debug, Clone, PartialEq, Eq)]
pub enum Served {
    /// Run the handler on the request, which now carries the captured
    /// parameters.
    Run { handler: Handler, request: Request },
    /// Nothing matches: answer with this response.
    Reply(Response<String>),
}

/// The body of the response to a request whose method or path holds NUL.
pub open spec fn nul_refusal() -> Seq<char> {
    "The requested path holds a NUL character"@
}

/// What the table `routes` answers for a request: the path is brought into
/// normal form and looked up under the key of method and path. A method or
/// path that holds NUL matches no route.
pub open spec fn routed(routes: Seq<(Seq<char>, Handler)>, method: Seq<char>, path: Seq<char>) -> Result<
    (Handler, Seq<Field>),
    Seq<char>,
> {
    let key = route_key(method, normalized(path));
    if holds_nul(key) {
        Err(nul_refusal())
    } else {
        recognized(routes, key)
    }
}

/// A path is routed as its normal form is; so two paths with one normal
/// form are routed alike, whatever the table holds.
pub proof fn law_routed_by_normal_form(
    routes: Seq<(Seq<char>, Handler)>,
    method: Seq<char>,
    path: Seq<char>,
    other: Seq<char>,
)
    ensures
        routed(routes, method, normalized(path)) == routed(routes, method, path),
        normalized(path) == normalized(other) ==> routed(routes, method, path) == routed(
            routes,
            method,
            other,
        ),
{
    law_normalize_idempotent(path);
}

/// Whether each field of `defaults` whose name does not come again later in
/// `defaults` can be read from `headers` with exactly its own value.
pub open spec fn carries(headers: Seq<Field>, defaults: Seq<Field>) -> bool {
    forall|i: int|
        0 <= i < defaults.len() && !named_from(defaults, defaults[i].0, i + 1) ==> lookup(
            headers,
            #[trigger] defaults[i].0,
        ) == Some(defaults[i].1)
}

/// Setting all of `defaults` on any headers makes them carry the defaults.
pub proof fn law_defaults_carried(base: Seq<Field>, defaults: Seq<Field>)
    ensures
        carries(put_all(base, defaults), defaults),
{
    assert forall|i: int|
        0 <= i < defaults.len() && !named_from(defaults, defaults[i].0, i + 1) implies lookup(
        put_all(base, defaults),
        #[trigger] defaults[i].0,
    ) == Some(defaults[i].1) by {
        law_put_all_sets(base, defaults, i);
    }
}

/// The headers that every response of the site carries: no referrer is
/// sent on, no content type is guessed, no framing is allowed, and content
/// is taken from the site itself alone.
pub open spec fn security_headers() -> Seq<Field> {
    seq![
        ("Referrer-Policy"@, "no-referrer"@),
        ("X-Content-Type-Options"@, "nosniff"@),
        ("X-Frame-Options"@, "DENY"@),
        (
            "Content-Security-Policy"@,
            "default-src 'none'; font-src 'self'; script-src 'self' blob:; manifest-src 'self'; media-src 'self' data: blob: about:; style-src 'self' 'unsafe-inline'; base-uri 'none'; img-src 'self' data:; form-action 'self'; frame-ancestors 'none'; connect-src 'self'; worker-src blob:;"@,
        ),
    ]
}

/// See [`security_headers`].
pub fn default_headers() -> (h: Headers)
    ensures
        h@ == security_headers(),
{
    let mut h = Headers::new();
    h.append("Referrer-Policy", "no-referrer");
    h.append("X-Content-Type-Options", "nosniff");
    h.append("X-Frame-Options", "DENY");
    h.append(
        "Content-Security-Policy",
        "default-src 'none'; font-src 'self'; script-src 'self' blob:; manifest-src 'self'; media-src 'self' data: blob: about:; style-src 'self' 'unsafe-inline'; base-uri 'none'; img-src 'self' data:; form-action 'self'; frame-ancestors 'none'; connect-src 'self'; worker-src blob:;",
    );
    proof {
        assert(h@ =~= security_headers());
    }
    h
}

/// The response for a failure: the given status and message, under the
/// request's own headers with all of `default_headers` set on them. Where a
/// name stands in both, the default wins.
pub fn new_boilerplate(
    default_headers: &Headers,
    req_headers: Headers,
    status: u16,
    body: String,
) -> (res: Response<String>)
    ensures
        res.status == status,
        res.status_text@ == Seq::<char>::empty(),
        res.headers@ == put_all(req_headers@, default_headers@),
        carries(res.headers@, default_headers@),
        res.body == body,
{
    let mut headers = req_headers;
    headers.set_all(default_headers);
    proof {
        law_defaults_carried(req_headers@, default_headers@);
    }
    Response { status, status_text: String::new(), headers, body }
}

impl Server {
    /// The routes bound so far, oldest first, each as its key (see
    /// [`route_key`]) and its handler.
    pub open spec fn routes(&self) -> Seq<(Seq<char>, Handler)> {
        router_routes(self.router)
    }

    /// A server without routes and without default headers.
    pub fn new() -> (server: Server)
        ensures
            server.routes() == Seq::<(Seq<char>, Handler)>::empty(),
            server.default_headers@ == Seq::<Field>::empty(),
    {
        Server { default_headers: Headers::new(), router: new_router() }
    }

    /// Starts binding handlers to the pattern `path`. The routes that are
    /// bound through the result are this server's once it is let go.
    pub fn at(&mut self, path: &str) -> (route: Route<'_>)
        ensures
            route.path@ == path@,
            router_routes(*route.router) == old(self).routes(),
            final(self).routes() == router_routes(*final(route.router)),
            final(self).default_headers == old(self).default_headers,
    {
        Route { path: path.to_owned(), router: &mut self.router }
    }

    /// Decides what is to be done with `req`.
    ///
    /// The path is brought into normal form and looked up under the
    /// request's method, see [`routed`]. Where a route matches, its handler
    /// is to run on the request, to which the captured parameters are
    /// attached. Where none does, the answer is a 404 whose body is the
    /// router's message and whose headers are the request's with the default
    /// headers set on them.
    pub fn serve(&self, req: Request) -> (r: Served)
        ensures
            match r {
                Served::Run { handler, request } => {
                    &&& routed(self.routes(), req.method@, req.pathname@) == Ok::<
                        (Handler, Seq<Field>),
                        Seq<char>,
                    >((handler, fields_of(request.params@)))
                    &&& request.method == req.method
                    &&& request.pathname == req.pathname
                    &&& request.search == req.search
                    &&& request.headers == req.headers
                },
                Served::Reply(res) => {
                    &&& routed(self.routes(), req.method@, req.pathname@) == Err::<
                        (Handler, Seq<Field>),
                        Seq<char>,
                    >(res.body@)
                    &&& res.status == 404
                    &&& res.status_text@ == Seq::<char>::empty()
                    &&& res.headers@ == put_all(req.headers@, self.default_headers@)
                    &&& carries(res.headers@, self.default_headers@)
                },
            },
    {
        let found = self.look_up(req.method.as_str(), req.pathname.as_str());
        self.settle(req, found)
    }

    /// Looks a method and a path up in the table; see [`routed`].
    pub fn look_up(&self, method: &str, path: &str) -> (found: Result<
        (Handler, Vec<(String, String)>),
        String,
    >)
        ensures
            match found {
                Ok((handler, params)) => routed(self.routes(), method@, path@) == Ok::<
                    (Handler, Seq<Field>),
                    Seq<char>,
                >((handler, fields_of(params@))),
                Err(text) => routed(self.routes(), method@, path@) == Err::<
                    (Handler, Seq<Field>),
                    Seq<char>,
                >(text@),
            },
    {
        let normal = normalize(path);
        let key = make_route_key(method, normal.as_str());
        if has_nul(key.as_str()) {
            Err(String::from_str("The requested path holds a NUL character"))
        } else {
            recognize(&self.router, key.as_str())
        }
    }

    /// Decides what is to be done with `req`, given what the table answered
    /// for it: run the handler that was found on the request with the
    /// captured parameters attached, or reply with a 404 whose body is the
    /// table's message and whose headers are the request's with the default
    /// headers set on them.
    pub fn settle(
        &self,
        req: Request,
        found: Result<(Handler, Vec<(String, String)>), String>,
    ) -> (r: Served)
        ensures
            match found {
                Ok((handler, params)) => r == (Served::Run {
                    handler,
                    request: Request {
                        method: req.method,
                        pathname: req.pathname,
                        search: req.search,
                        headers: req.headers,
                        params,
                    },
                }),
                Err(text) => {
                    &&& r matches Served::Reply(res)
                    &&& res.status == 404
                    &&& res.status_text@ == Seq::<char>::empty()
                    &&& res.headers@ == put_all(req.headers@, self.default_headers@)
                    &&& carries(res.headers@, self.default_headers@)
                    &&& res.body == text
                },
            },
    {
        match found {
            Ok((handler, params)) => {
                let mut request = req;
                request.set_params(params);
                Served::Run { handler, request }
            },
            Err(text) => Served::Reply(
                new_boilerplate(&self.default_headers, req.headers, 404, text),
            ),
        }
    }

    /// Turns what a handler brought back into what leaves the server.
    ///
    /// A response gets the default headers set on it; where the handler set
    /// one of them itself, the default wins. An error becomes a 500 whose
    /// body is the error's text and whose headers are `req_headers` with the
    /// default headers set on them.
    pub fn respond<B>(&self, req_headers: Headers, outcome: Result<Response<B>, String>) -> (r:
        Result<Response<B>, Response<String>>)
        ensures
            match outcome {
                Ok(res) => {
                    &&& r matches Ok(out)
                    &&& out.status == res.status
                    &&& out.status_text == res.status_text
                    &&& out.body == res.body
                    &&& out.headers@ == put_all(res.headers@, self.default_headers@)
                    &&& carries(out.headers@, self.default_headers@)
                },
                Err(text) => {
                    &&& r matches Err(out)
                    &&& out.status == 500
                    &&& out.status_text@ == Seq::<char>::empty()
                    &&& out.body == text
                    &&& out.headers@ == put_all(req_headers@, self.default_headers@)
                    &&& carries(out.headers@, self.default_headers@)
                },
            },
    {
        match outcome {
            Ok(res) => {
                let mut out = res;
                out.headers.set_all(&self.default_headers);
                proof {
                    law_defaults_carried(res.headers@, self.default_headers@);
                }
                Ok(out)
            },
            Err(text) => Err(new_boilerplate(&self.default_headers, req_headers, 500, text)),
        }
    }
}

/// The parts of a request's address that handlers read.
#[derive(Debug, Clone, PartialEq, Eq)]
pub struct Uri {
    pub pathname: String,
    /// The query with its leading `?`; never empty.
    pub search: String,
}

/// The query that stands in for an empty one.
pub open spec fn blank_search() -> Seq<char> {
    "?_"@
}

/// The value of the first parameter named exactly `name`.
pub open spec fn param_of(params: Seq<Field>, name: Seq<char>) -> Option<Seq<char>>
    decreases params.len(),
{
    if params.len() == 0 {
        None
    } else if params[0].0 == name {
        Some(params[0].1)
    } else {
        param_of(params.skip(1), name)
    }
}

/// What handlers read from a request, and how the router attaches the
/// captured parameters to it.
pub trait RequestExt {
    fn uri(&self) -> Uri;

    fn params(&self) -> Vec<(String, String)>;

    fn param(&self, name: &str) -> Option<String>;

    fn set_params(&mut self, params: Vec<(String, String)>);

    fn cookies(&self) -> Vec<Cookie>;

    fn cookie(&self, name: &str) -> Option<Cookie>;
}

/// The cookie that stands in `piece`, or the cookie with an empty name
/// where `piece` cannot be read as a cookie.
pub open spec fn cookie_of(piece: Seq<char>) -> CookieView {
    match cookie_parsed(piece) {
        Some(c) => c,
        None => named(Seq::empty()),
    }
}

/// The cookies of a header list: one for each piece of the `Cookie` header
/// between the separators `; `, and none where there is no such header.
pub open spec fn cookies_of(headers: Seq<Field>) -> Seq<CookieView> {
    match lookup(headers, "Cookie"@) {
        Some(v) => split(v, "; "@).map_values(|piece: Seq<char>| cookie_of(piece)),
        None => Seq::empty(),
    }
}

/// The views of the cookies of a vector.
pub open spec fn cookie_views(cookies: Seq<Cookie>) -> Seq<CookieView> {
    cookies.map_values(|c: Cookie| c@)
}

/// The first cookie named exactly `name`.
pub open spec fn first_named(cookies: Seq<CookieView>, name: Seq<char>) -> Option<CookieView>
    decreases cookies.len(),
{
    if cookies.len() == 0 {
        None
    } else if cookies[0].name == name {
        Some(cookies[0])
    } else {
        first_named(cookies.skip(1), name)
    }
}

/// See [`cookies_of`].
pub fn read_cookies(headers: &Headers) -> (cookies: Vec<Cookie>)
    ensures
        cookie_views(cookies@) == cookies_of(headers@),
{
    let mut cookies: Vec<Cookie> = Vec::new();
    match headers.get("Cookie") {
        None => {
            proof {
                assert(cookie_views(cookies@) =~= Seq::<CookieView>::empty());
            }
        },
        Some(value) => {
            let pieces = split_text(value.as_str(), "; ");
            let ghost expected = split(value@, "; "@).map_values(|piece: Seq<char>| cookie_of(piece));
            let mut i: usize = 0;
            proof {
                assert(cookie_views(cookies@) =~= expected.take(0));
            }
            while i < pieces.len()
                invariant
                    i <= pieces.len(),
                    texts(pieces@) == split(value@, "; "@),
                    expected == split(value@, "; "@).map_values(
                        |piece: Seq<char>| cookie_of(piece),
                    ),
                    cookie_views(cookies@) == expected.take(i as int),
                decreases pieces.len() - i,
            {
                let ghost before = cookies@;
                assert(texts(pieces@)[i as int] == pieces@[i as int]@);
                let cookie = match Cookie::parse(pieces[i].as_str()) {
                    Some(c) => c,
                    None => Cookie::named(String::new()),
                };
                cookies.push(cookie);
                proof {
                    assert(cookie@ == expected[i as int]);
                    assert(cookie_views(cookies@) =~= cookie_views(before).push(cookie@));
                    assert(expected.take(i + 1) == expected.take(i as int).push(expected[i as int]));
                }
                i += 1;
            }
            proof {
                assert(expected.take(expected.len() as int) == expected);
            }
        },
    }
    cookies
}

/// See [`first_named`].
pub fn find_cookie(cookies: Vec<Cookie>, name: &str) -> (r: Option<Cookie>)
    ensures
        match r {
            Some(c) => first_named(cookie_views(cookies@), name@) == Some(c@),
            None => first_named(cookie_views(cookies@), name@) is None,
        },
{
    let ghost all = cookie_views(cookies@);
    let mut rest = cookies;
    let mut i: usize = 0;
    let n = rest.len();
    proof {
        assert(all.skip(0) == all);
    }
    while i < n
        invariant
            i <= n,
            rest@.len() == n - i,
            all == cookie_views(cookies@),
            all.len() == n,
            cookie_views(rest@) == all.skip(i as int),
            first_named(all, name@) == first_named(all.skip(i as int), name@),
        decreases n - i,
    {
        let ghost before = rest@;
        let first = rest.remove(0);
        proof {
            assert(cookie_views(before)[0] == first@);
            assert(cookie_views(rest@) =~= cookie_views(before).skip(1));
            assert(all.skip(i as int).skip(1) =~= all.skip(i + 1));
            assert(all.skip(i as int)[0] == first@);
        }
        if str_eq(first.name.as_str(), name) {
            return Some(first);
        }
        i += 1;
    }
    None
}

impl RequestExt for Request {
    /// The address of the request. An empty query is given as `?_`.
    fn uri(&self) -> (uri: Uri)
        ensures
            uri.pathname == self.pathname,
            uri.search@ == if self.search@.len() == 0 {
                blank_search()
            } else {
                self.search@
            },
    {
        let search = if self.search.as_str().unicode_len() == 0 {
            String::from_str("?_")
        } else {
            self.search.clone()
        };
        Uri { pathname: self.pathname.clone(), search }
    }

    /// The captured parameters, by name.
    fn params(&self) -> (params: Vec<(String, String)>)
        ensures
            fields_of(params@) == fields_of(self.params@),
    {
        let mut out: Vec<(String, String)> = Vec::new();
        let mut i: usize = 0;
        while i < self.params.len()
            invariant
                i <= self.params.len(),
                fields_of(out@) == fields_of(self.params@).take(i as int),
            decreases self.params.len() - i,
        {
            let ghost before = out@;
            out.push((self.params[i].0.clone(), self.params[i].1.clone()));
            proof {
                assert(fields_of(out@) =~= fields_of(before).push(fields_of(self.params@)[i as int]));
                assert(fields_of(self.params@).take(i + 1) == fields_of(self.params@).take(
                    i as int,
                ).push(fields_of(self.params@)[i as int]));
            }
            i += 1;
        }
        proof {
            assert(fields_of(self.params@).take(self.params@.len() as int) == fields_of(
                self.params@,
            ));
        }
        out
    }

    /// The value captured under `name`, if any.
    fn param(&self, name: &str) -> (value: Option<String>)
        ensures
            match value {
                Some(v) => param_of(fields_of(self.params@), name@) == Some(v@),
                None => param_of(fields_of(self.params@), name@) is None,
            },
    {
        let ghost all = fields_of(self.params@);
        let mut i: usize = 0;
        proof {
            assert(all.skip(0) == all);
        }
        while i < self.params.len()
            invariant
                i <= self.params.len(),
                all == fields_of(self.params@),
                param_of(all, name@) == param_of(all.skip(i as int), name@),
            decreases self.params.len() - i,
        {
            proof {
                assert(all.skip(i as int)[0] == all[i as int]);
                assert(all.skip(i as int).skip(1) == all.skip(i + 1));
            }
            if crate::text::str_eq(self.params[i].0.as_str(), name) {
                return Some(self.params[i].1.clone());
            }
            i += 1;
        }
        None
    }

    /// Replaces the captured parameters.
    fn set_params(&mut self, params: Vec<(String, String)>)
        ensures
            final(self).params == params,
            final(self).method == old(self).method,
            final(self).pathname == old(self).pathname,
            final(self).search == old(self).search,
            final(self).headers == old(self).headers,
    {
        self.params = params;
    }

    /// The cookies that the request carries; see [`cookies_of`].
    fn cookies(&self) -> (cookies: Vec<Cookie>)
        ensures
            cookie_views(cookies@) == cookies_of(self.headers@),
    {
        read_cookies(&self.headers)
    }

    /// The first cookie of the request that is named `name`.
    fn cookie(&self, name: &str) -> (r: Option<Cookie>)
        ensures
            match r {
                Some(c) => first_named(cookies_of(self.headers@), name@) == Some(c@),
                None => first_named(cookies_of(self.headers@), name@) is None,
            },
    {
        find_cookie(self.cookies(), name)
    }
}

/// How cookies are read from a response and set on it.
pub trait ResponseExt {
    fn cookies(&self) -> Vec<Cookie>;

    fn insert_cookie(&mut self, cookie: Cookie);

    fn remove_cookie(&mut self, name: String);
}

/// The cookie that tells a client to drop its cookie `name`: no value, the
/// root as path, and no time to live, so that it expires at once.
pub open spec fn removal(name: Seq<char>) -> CookieView {
    CookieView {
        name,
        value: Seq::empty(),
        path: Some("/"@),
        http_only: None,
        max_age: Some(0),
        expires: None,
    }
}

impl<B> ResponseExt for Response<B> {
    /// The cookies of the `Cookie` header of the response; see
    /// [`cookies_of`].
    fn cookies(&self) -> (cookies: Vec<Cookie>)
        ensures
            cookie_views(cookies@) == cookies_of(self.headers@),
    {
        read_cookies(&self.headers)
    }

    /// Adds a `Set-Cookie` header for `cookie` and leaves everything else
    /// as it is.
    fn insert_cookie(&mut self, cookie: Cookie)
        ensures
            final(self).headers@ == old(self).headers@.push(
                ("Set-Cookie"@, set_cookie_text(cookie@, expiry_date(cookie@))),
            ),
            final(self).status == old(self).status,
            final(self).status_text == old(self).status_text,
            final(self).body == old(self).body,
    {
        let line = cookie.to_string();
        self.headers.append("Set-Cookie", line.as_str());
    }

    /// Adds a `Set-Cookie` header that makes the client drop its cookie
    /// `name`; see [`removal`].
    fn remove_cookie(&mut self, name: String)
        ensures
            final(self).headers@ == old(self).headers@.push(
                ("Set-Cookie"@, set_cookie_text(removal(name@), Seq::empty())),
            ),
            final(self).status == old(self).status,
            final(self).status_text == old(self).status_text,
            final(self).body == old(self).body,
    {
        let mut cookie = Cookie::named(name);
        cookie.path = Some(String::from_str("/"));
        cookie.max_age = Some(0);
        self.insert_cookie(cookie);
    }
}

} // verus!
