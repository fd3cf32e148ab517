use libreddit::headers::Headers;
use libreddit::server::{new_boilerplate, Request, RequestExt, Response, Served, Server};

fn request(method: &str, pathname: &str) -> Request {
    Request {
        method: method.to_string(),
        pathname: pathname.to_string(),
        search: String::new(),
        headers: Headers::new(),
        params: Vec::new(),
    }
}

fn pair(name: &str, value: &str) -> (String, String) {
    (name.to_string(), value.to_string())
}

fn security_headers() -> Headers {
    let mut h = Headers::new();
    h.append("Referrer-Policy", "no-referrer");
    h.append("X-Content-Type-Options", "nosniff");
    h.append("X-Frame-Options", "DENY");
    h
}

fn handler_for(app: &Server, method: &str, pathname: &str) -> Option<usize> {
    match app.serve(request(method, pathname)) {
        Served::Run { handler, .. } => Some(handler),
        Served::Reply(_) => None,
    }
}

#[test]
fn a_literal_pattern_matches_its_own_method_and_path_only() {
    let mut app = Server::new();
    app.at("/settings/restore").get(1);
    assert_eq!(handler_for(&app, "GET", "/settings/restore"), Some(1));
    assert_eq!(handler_for(&app, "POST", "/settings/restore"), None);
    assert_eq!(handler_for(&app, "GE", "/settings/restore"), None);
    assert_eq!(handler_for(&app, "GETT", "/settings/restore"), None);
    assert_eq!(handler_for(&app, "GET", "/settings/restor"), None);
    assert_eq!(handler_for(&app, "GET", "/settings/restore/x"), None);
    assert_eq!(handler_for(&app, "GET", "/settings"), None);
    assert_eq!(handler_for(&app, "GET", "/Settings/restore"), None);
    assert_eq!(handler_for(&app, "get", "/settings/restore"), None);
}

#[test]
fn a_key_is_the_method_followed_by_the_path() {
    let mut app = Server::new();
    app.at("/settings").get(1);
    assert_eq!(handler_for(&app, "GE", "T/settings"), Some(1));
    assert_eq!(handler_for(&app, "", "GET/settings"), Some(1));
}

#[test]
fn literal_patterns_are_told_apart() {
    let mut app = Server::new();
    app.at("/about").get(1);
    app.at("/search").get(2);
    app.at("/style.css").get(3);
    app.at("/").get(4);
    assert_eq!(handler_for(&app, "GET", "/about"), Some(1));
    assert_eq!(handler_for(&app, "GET", "/search"), Some(2));
    assert_eq!(handler_for(&app, "GET", "/style.css"), Some(3));
    assert_eq!(handler_for(&app, "GET", "/"), Some(4));
    assert_eq!(handler_for(&app, "GET", "/style"), None);
    assert_eq!(handler_for(&app, "GET", "/abou"), None);
}

#[test]
fn named_segments_are_captured() {
    let mut app = Server::new();
    app.at("/r/:sub/:sort").get(7);
    match app.serve(request("GET", "/r/aww/top")) {
        Served::Run { handler, request } => {
            assert_eq!(handler, 7);
            assert_eq!(request.params, vec![pair("sort", "top"), pair("sub", "aww")]);
            assert_eq!(request.param("sub"), Some("aww".to_string()));
            assert_eq!(request.param("sort"), Some("top".to_string()));
            assert_eq!(request.param("Sub"), None);
            assert_eq!(request.params(), vec![pair("sort", "top"), pair("sub", "aww")]);
        }
        other => panic!("no route matched: {:?}", other),
    }
}

#[test]
fn a_named_segment_takes_one_segment() {
    let mut app = Server::new();
    app.at("/r/:sub").get(1);
    assert_eq!(handler_for(&app, "GET", "/r/aww"), Some(1));
    assert_eq!(handler_for(&app, "GET", "/r/aww/top"), None);
    assert_eq!(handler_for(&app, "GET", "/r"), None);
}

#[test]
fn wildcard_captures_the_rest() {
    let mut app = Server::new();
    app.at("/img/*path").get(3);
    match app.serve(request("GET", "/img/a/b/c")) {
        Served::Run { handler, request } => {
            assert_eq!(handler, 3);
            assert_eq!(request.params, vec![pair("path", "a/b/c")]);
        }
        other => panic!("no route matched: {:?}", other),
    }
}

#[test]
fn the_more_literal_pattern_wins() {
    let mut app = Server::new();
    app.at("/:id").get(1);
    app.at("/about").get(2);
    app.at("/*").get(3);
    assert_eq!(handler_for(&app, "GET", "/about"), Some(2));
    assert_eq!(handler_for(&app, "GET", "/abc12"), Some(1));
    assert_eq!(handler_for(&app, "GET", "/a/b"), Some(3));
}

#[test]
fn get_and_post_are_bound_apart() {
    let mut app = Server::new();
    app.at("/settings").get(1).post(2);
    assert_eq!(handler_for(&app, "GET", "/settings"), Some(1));
    assert_eq!(handler_for(&app, "POST", "/settings"), Some(2));
    assert_eq!(handler_for(&app, "PUT", "/settings"), None);
}

#[test]
fn a_pattern_bound_twice_belongs_to_the_later_handler() {
    let mut app = Server::new();
    app.at("/r/:sub").get(1);
    app.at("/r/:sub").get(2);
    assert_eq!(handler_for(&app, "GET", "/r/aww"), Some(2));
}

#[test]
fn paths_are_routed_by_their_normal_form() {
    let mut app = Server::new();
    app.at("/r/:sub").get(5);
    app.at("/").get(6);
    let plain = app.serve(request("GET", "/r/aww"));
    for other in ["/r//aww/", "/r/aww/", "//r/aww", "/r%2Faww", "%2Fr%2F%2Faww%2F"] {
        match (&plain, app.serve(request("GET", other))) {
            (
                Served::Run { handler: h1, request: r1 },
                Served::Run { handler: h2, request: r2 },
            ) => {
                assert_eq!(*h1, h2);
                assert_eq!(r1.params, r2.params);
                assert_eq!(r2.pathname, other);
            }
            (_, got) => panic!("{:?} was not routed: {:?}", other, got),
        }
    }
    assert_eq!(handler_for(&app, "GET", ""), Some(6));
    assert_eq!(handler_for(&app, "GET", "//"), Some(6));
}

#[test]
fn an_unmatched_path_is_a_404_with_the_default_headers() {
    let mut app = Server::new();
    app.default_headers = security_headers();
    app.at("/about").get(1);
    let mut req = request("GET", "/nothing/here");
    req.headers.append("Accept", "text/html");
    req.headers.append("x-frame-options", "ALLOW");
    match app.serve(req) {
        Served::Reply(res) => {
            assert_eq!(res.status, 404);
            assert_eq!(res.status_text, "");
            assert_eq!(res.headers.get("Referrer-Policy"), Some("no-referrer".to_string()));
            assert_eq!(res.headers.get("X-Content-Type-Options"), Some("nosniff".to_string()));
            assert_eq!(res.headers.get("X-Frame-Options"), Some("DENY".to_string()));
            assert_eq!(res.headers.get("Accept"), Some("text/html".to_string()));
            assert_eq!(res.headers.len(), 4);
            assert_eq!(res.body, "Couldn't process GET/nothing/here");
        }
        other => panic!("a route matched: {:?}", other),
    }
}

#[test]
fn a_path_that_ends_too_early_is_a_404() {
    let mut app = Server::new();
    app.at("/about/us").get(1);
    match app.serve(request("GET", "/about")) {
        Served::Reply(res) => {
            assert_eq!(res.status, 404);
            assert_eq!(
                res.body,
                "The string was exhausted before reaching an acceptance state"
            );
        }
        other => panic!("a route matched: {:?}", other),
    }
}

#[test]
fn nul_matches_no_route() {
    let mut app = Server::new();
    app.default_headers = security_headers();
    app.at("/*").get(1);
    app.at("/:id").get(2);
    for (method, path) in [("GET", "/a\0b"), ("G\0T", "/a"), ("GET", "\0")] {
        match app.serve(request(method, path)) {
            Served::Reply(res) => {
                assert_eq!(res.status, 404);
                assert_eq!(res.body, "The requested path holds a NUL character");
                assert_eq!(res.headers.get("x-frame-options"), Some("DENY".to_string()));
            }
            other => panic!("a route matched: {:?}", other),
        }
    }
}

#[test]
fn a_response_gets_the_defaults_and_the_defaults_win() {
    let mut app = Server::new();
    app.default_headers = security_headers();
    let mut headers = Headers::new();
    headers.append("Content-Type", "text/html");
    headers.append("X-Frame-Options", "SAMEORIGIN");
    let res = Response { status: 200, status_text: "OK".to_string(), headers, body: 17u8 };
    let out = app.respond(Headers::new(), Ok(res)).expect("a response stays a response");
    assert_eq!(out.status, 200);
    assert_eq!(out.status_text, "OK");
    assert_eq!(out.body, 17u8);
    assert_eq!(out.headers.get("content-type"), Some("text/html".to_string()));
    assert_eq!(out.headers.get("X-Frame-Options"), Some("DENY".to_string()));
    assert_eq!(out.headers.get("Referrer-Policy"), Some("no-referrer".to_string()));
    assert_eq!(out.headers.len(), 4);
}

#[test]
fn a_failed_handler_is_a_500_with_its_message() {
    let mut app = Server::new();
    app.default_headers = security_headers();
    let mut req_headers = Headers::new();
    req_headers.append("Accept-Encoding", "gzip");
    let outcome: Result<Response<()>, String> = Err("Too many requests.".to_string());
    let out = app.respond(req_headers, outcome).expect_err("an error becomes an error page");
    assert_eq!(out.status, 500);
    assert_eq!(out.body, "Too many requests.");
    assert_eq!(out.headers.get("Accept-Encoding"), Some("gzip".to_string()));
    assert_eq!(out.headers.get("X-Content-Type-Options"), Some("nosniff".to_string()));
    assert_eq!(out.headers.len(), 4);
}

#[test]
fn the_boilerplate_keeps_status_and_body() {
    let res = new_boilerplate(&security_headers(), Headers::new(), 418, "teapot".to_string());
    assert_eq!(res.status, 418);
    assert_eq!(res.body, "teapot");
    assert_eq!(res.status_text, "");
    assert_eq!(res.headers, security_headers());
}

#[test]
fn an_empty_query_reads_as_a_blank_one() {
    let mut req = request("GET", "/r/aww");
    assert_eq!(req.uri().search, "?_");
    assert_eq!(req.uri().pathname, "/r/aww");
    req.search = "?sort=top".to_string();
    assert_eq!(req.uri().search, "?sort=top");
}

#[test]
fn set_params_replaces_the_parameters() {
    let mut req = request("GET", "/");
    req.set_params(vec![pair("a", "1"), pair("b", "2")]);
    assert_eq!(req.param("b"), Some("2".to_string()));
    req.set_params(vec![pair("c", "3")]);
    assert_eq!(req.param("b"), None);
    assert_eq!(req.param("c"), Some("3".to_string()));
    assert_eq!(req.method, "GET");
}

#[test]
fn a_new_server_has_no_routes() {
    let app = Server::new();
    assert_eq!(app.default_headers, Headers::new());
    assert_eq!(handler_for(&app, "GET", "/"), None);
}

#[test]
fn patterns_and_paths_beyond_ascii_are_taken() {
    let mut app = Server::new();
    app.at("/:id/caf\u{e9}").get(1);
    app.at("/caf\u{e9}/menu").get(2);
    app.at("\u{e9}t\u{e9}").get(3);
    app.at("/\u{1f600}").post(4);
    app.at("/caf\u{e9}/:id").get(5);
    assert_eq!(handler_for(&app, "GET", "/\u{fc}ber/caf\u{e9}"), Some(1));
    assert_eq!(handler_for(&app, "GET", "/caf\u{e9}/menu"), Some(2));
    assert_eq!(handler_for(&app, "GET", "/caf\u{e9}/men\u{fc}"), None);
    assert_eq!(handler_for(&app, "GET", "\u{e9}t\u{e9}"), Some(3));
    assert_eq!(handler_for(&app, "GET", "/\u{e9}t\u{e9}"), None);
    assert_eq!(handler_for(&app, "POST", "/\u{1f600}"), Some(4));
    assert_eq!(handler_for(&app, "\u{e9}", "/caf\u{e9}/menu"), None);
    assert_eq!(handler_for(&app, "", ""), None);
}

#[test]
fn captured_values_are_the_text_of_the_path() {
    let mut app = Server::new();
    app.at("/u/:name/*rest").get(1);
    match app.serve(request("GET", "/u/j\u{f6}rg/a%20b/c.d")) {
        Served::Run { handler, request } => {
            assert_eq!(handler, 1);
            assert_eq!(request.params, vec![pair("name", "j\u{f6}rg"), pair("rest", "a%20b/c.d")]);
        }
        other => panic!("no route matched: {:?}", other),
    }
}

#[test]
fn a_found_handler_is_to_run_with_its_parameters() {
    let mut app = Server::new();
    app.default_headers = security_headers();
    let mut req = request("POST", "/r//aww/");
    req.search = "?a=1".to_string();
    req.headers.append("Accept", "*/*");
    req.params = vec![pair("stale", "1")];
    let expected = Request { params: vec![pair("sub", "aww")], ..req.clone() };
    assert_eq!(
        app.settle(req, Ok((9, vec![pair("sub", "aww")]))),
        Served::Run { handler: 9, request: expected }
    );
}

#[test]
fn a_message_of_the_table_becomes_a_404() {
    let mut app = Server::new();
    app.default_headers = security_headers();
    let mut req = request("GET", "/none");
    req.headers.append("Accept", "*/*");
    let mut headers = Headers::new();
    headers.append("Accept", "*/*");
    headers.append("Referrer-Policy", "no-referrer");
    headers.append("X-Content-Type-Options", "nosniff");
    headers.append("X-Frame-Options", "DENY");
    assert_eq!(
        app.settle(req, Err("no such page".to_string())),
        Served::Reply(Response {
            status: 404,
            status_text: String::new(),
            headers,
            body: "no such page".to_string(),
        })
    );
}

#[test]
fn looking_up_gives_handler_and_parameters_or_a_message() {
    let mut app = Server::new();
    app.at("/r/:sub").get(4);
    assert_eq!(app.look_up("GET", "/r//aww/"), Ok((4, vec![pair("sub", "aww")])));
    assert_eq!(app.look_up("GET", "/x"), Err("Couldn't process GET/x".to_string()));
    assert_eq!(
        app.look_up("GET", "/\0"),
        Err("The requested path holds a NUL character".to_string())
    );
}

#[test]
fn a_pattern_that_holds_nul_is_not_bound() {
    let mut app = Server::new();
    app.at("/a\0b").get(1).post(2);
    app.at("/ok").get(3);
    assert_eq!(handler_for(&app, "GET", "/a\0b"), None);
    assert_eq!(handler_for(&app, "POST", "/a\0b"), None);
    assert_eq!(handler_for(&app, "GET", "/ok"), Some(3));
}

#[test]
fn the_default_headers_are_the_four_security_headers() {
    let headers = libreddit::server::default_headers();
    assert_eq!(headers.len(), 4);
    assert_eq!(headers.get("Referrer-Policy"), Some("no-referrer".to_string()));
    assert_eq!(headers.get("X-Content-Type-Options"), Some("nosniff".to_string()));
    assert_eq!(headers.get("X-Frame-Options"), Some("DENY".to_string()));
    let policy = headers.get("Content-Security-Policy").expect("a policy");
    assert!(policy.starts_with("default-src 'none'; font-src 'self';"));
    assert!(policy.ends_with("connect-src 'self'; worker-src blob:;"));
}
