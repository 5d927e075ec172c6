use indexmap::IndexMap;
use syntecnia_serve::dispatch::{
    after_auth, after_rate, after_slot, needs_window, proceed_with, Dispatched, GiveOutcome, Matched,
    RateOutcome, Request, StaticCase, Step,
};
use syntecnia_serve::host::Mount;
use syntecnia_serve::json::dumps;
use syntecnia_serve::respond::ResponseBody;
use syntecnia_serve::routing::{RateLimit, RouteSpec};
use syntecnia_serve::runtime::{ServeRuntime, DEFAULT_MAX_STREAMS};
use syntecnia_serve::static_files::StaticResp;
use syntecnia_serve::url::parse_path_query;
use syntecnia_serve::value::{Paged, ServerValue, SynData, SynValue};

fn route(method: &str, path: &str, handler: usize) -> RouteSpec {
    RouteSpec {
        method: method.to_string(),
        path: path.to_string(),
        param_names: Vec::new(),
        requires_auth: false,
        streaming: false,
        rate_limit: None,
        rate_zone: None,
        handler,
        stream_handler: None,
    }
}

fn mount() -> Mount {
    Mount { prefix: "/".to_string(), dir: 0, base: Vec::new() }
}

fn runtime(routes: Vec<RouteSpec>, mounts: Vec<Mount>) -> ServeRuntime {
    ServeRuntime::new(
        8080,
        "0.0.0.0".to_string(),
        routes,
        Some(77),
        None,
        DEFAULT_MAX_STREAMS,
        mounts,
        None,
        None,
        None,
        Vec::new(),
        false,
        false,
    )
}

fn request(method: &str, target: &str, headers: &[(&str, &str)], body: &str) -> Request {
    let (path, query) = parse_path_query(target);
    Request {
        method: method.to_string(),
        path,
        query,
        headers: headers.iter().map(|(k, v)| (k.to_string(), v.to_string())).collect(),
        body: body.to_string(),
        body_file: None,
        client_ip: "10.0.0.1".to_string(),
    }
}

fn text(s: &str) -> SynValue {
    SynValue::text(s.to_string())
}

fn server(v: ServerValue) -> SynValue {
    SynValue { data: SynData::Server(Box::new(v)), shown: "<server>".to_string() }
}

fn prose(s: &str) -> SynValue {
    server(ServerValue::Node(vec![("kind".to_string(), text("prose")), ("text".to_string(), text(s))]))
}

fn response(step: Step) -> (u16, String, Vec<(String, String)>) {
    match step {
        Step::Done(Dispatched::Response { status, body, headers }) => {
            let text = match body {
                ResponseBody::Json(j) => dumps(&j),
                ResponseBody::Raw(r) => String::from_utf8(r.body).unwrap(),
            };
            (status, text, headers)
        }
        _ => panic!("no response"),
    }
}

fn pair(k: &str, v: &str) -> (String, String) {
    (k.to_string(), v.to_string())
}

#[test]
fn routed_request_is_run() {
    let rt = runtime(vec![route("GET", "/u/:name", 5)], vec![]);
    match rt.dispatch(request("GET", "/u/ana?x=1", &[("A", "b")], "")) {
        Step::Run { handler, ctx, rest } => {
            assert_eq!(handler, 5);
            assert_eq!(ctx.params.get("name").map(String::as_str), Some("ana"));
            assert_eq!(ctx.query.get("x").map(String::as_str), Some("1"));
            assert_eq!((ctx.method.as_str(), ctx.path.as_str()), ("GET", "/u/ana"));
            assert_eq!(ctx.headers, vec![pair("A", "b")]);
            assert_eq!(ctx.client_ip, "10.0.0.1");
            assert!(ctx.json.is_none() && ctx.user.is_none());
            assert!(rest.rate_headers.is_empty() && rest.explicit_fmt.is_none());
        }
        _ => panic!("not run"),
    }
}

#[test]
fn unknown_path_is_404() {
    let rt = runtime(vec![route("GET", "/a", 1)], vec![]);
    let (status, body, headers) = response(rt.dispatch(request("GET", "/nope", &[], "")));
    assert_eq!(status, 404);
    assert_eq!(body, "{\"error\": \"no route for GET /nope\", \"status\": 404}");
    assert!(headers.is_empty());
}

#[test]
fn other_method_is_405() {
    let rt = runtime(vec![route("PUT", "/a", 1), route("GET", "/:x", 2)], vec![]);
    let (status, body, headers) = response(rt.dispatch(request("POST", "/a", &[], "")));
    assert_eq!(status, 405);
    assert_eq!(body, "{\"error\": \"method not allowed\", \"status\": 405}");
    assert_eq!(headers, vec![pair("Allow", "GET, PUT")]);
}

#[test]
fn json_bodies() {
    let rt = runtime(vec![route("POST", "/", 1)], vec![]);
    match rt.dispatch(request("POST", "/", &[], "{\"a\": 1}")) {
        Step::Run { ctx, .. } => assert_eq!(ctx.json, serde_json::from_str("{\"a\": 1}").ok()),
        _ => panic!("not run"),
    }
    match rt.dispatch(request("POST", "/", &[("Content-Type", "text/plain")], "{oops")) {
        Step::Run { ctx, .. } => {
            assert!(ctx.json.is_none());
            assert_eq!(ctx.body, "{oops");
        }
        _ => panic!("not run"),
    }
    let step = rt.dispatch(request("POST", "/", &[("content-type", "Application/JSON")], "{oops"));
    let (status, body, _) = response(step);
    assert_eq!((status, body.as_str()), (400, "{\"error\": \"malformed JSON body\", \"status\": 400}"));
}

fn matched(auth: bool, auth_handler: Option<usize>, streaming: bool) -> Matched {
    Matched {
        params: IndexMap::new(),
        explicit_fmt: None,
        requires_auth: auth,
        streaming,
        rate_limit: None,
        rate_zone: None,
        handler: 1,
        stream_handler: Some(2),
        auth_handler,
    }
}

#[test]
fn body_that_was_read_as_json() {
    let req = || request("POST", "/", &[("content-type", "json")], "[]");
    assert!(matches!(
        proceed_with(req(), matched(false, None, false), vec![], Some(serde_json::Value::Null)),
        Step::Run { handler: 1, .. }
    ));
    let (status, _, _) = response(proceed_with(req(), matched(false, None, false), vec![], None));
    assert_eq!(status, 400);
    let empty = request("POST", "/", &[("content-type", "json")], "");
    assert!(matches!(
        proceed_with(empty, matched(false, None, true), vec![], None),
        Step::AcquireStream { stream_handler: Some(2), .. }
    ));
    let (status, body, headers) =
        response(proceed_with(req(), matched(true, None, false), vec![pair("h", "v")], Some(serde_json::Value::Null)));
    assert_eq!((status, body.as_str()), (401, "{\"error\": \"unauthorized\", \"status\": 401}"));
    assert_eq!(headers, vec![pair("h", "v")]);
}

#[test]
fn guarded_route_asks_for_the_user() {
    let mut r = route("GET", "/", 1);
    r.requires_auth = true;
    let rt = runtime(vec![r], vec![]);
    let step = || rt.dispatch(request("GET", "/", &[("Authorization", "bearer  tok en ")], ""));
    let (ctx, rest) = match step() {
        Step::Auth { handler, token, ctx, rest } => {
            assert_eq!((handler, token.as_str()), (77, "tok en"));
            (ctx, rest)
        }
        _ => panic!("user not asked for"),
    };
    match after_auth(ctx, rest, Some(text("ana"))) {
        Step::Run { ctx, .. } => assert_eq!(ctx.user.unwrap().shown, "ana"),
        _ => panic!("not run"),
    }
    for user in [None, Some(SynValue { data: SynData::Nothing, shown: String::new() })] {
        if let Step::Auth { ctx, rest, .. } = step() {
            assert_eq!(response(after_auth(ctx, rest, user)).0, 401);
        }
    }
}

#[test]
fn rate_limited_route() {
    let mut r = route("GET", "/", 1);
    r.rate_limit = Some(RateLimit { capacity: 10, window_bits: 60f64.to_bits() });
    r.rate_zone = Some("zone".to_string());
    let rt = runtime(vec![r], vec![]);
    let ask = || match rt.dispatch(request("GET", "/", &[], "")) {
        Step::RateCheck { key, rate, req, matched } => {
            assert_eq!((key.as_str(), rate.capacity), ("zone|10.0.0.1", 10));
            (rate, req, matched)
        }
        _ => panic!("limiter not asked"),
    };
    let (rate, req, m) = ask();
    let outcome = RateOutcome { allowed: true, remaining: 9, retry_after: 0, reset: 5 };
    match after_rate(rate, req, m, outcome) {
        Step::Run { rest, .. } => assert_eq!(
            rest.rate_headers,
            vec![pair("RateLimit-Limit", "10"), pair("RateLimit-Remaining", "9"), pair("RateLimit-Reset", "6")]
        ),
        _ => panic!("not run"),
    }
    let (rate, req, m) = ask();
    let outcome = RateOutcome { allowed: false, remaining: 3, retry_after: 7, reset: 59 };
    let (status, body, headers) = response(after_rate(rate, req, m, outcome));
    assert_eq!((status, body.as_str()), (429, "{\"error\": \"rate limit exceeded\", \"status\": 429}"));
    assert_eq!(
        headers,
        vec![
            pair("RateLimit-Limit", "10"),
            pair("RateLimit-Remaining", "0"),
            pair("RateLimit-Reset", "60"),
            pair("Retry-After", "8")
        ]
    );
}

#[test]
fn rate_key_without_a_zone() {
    let mut r = route("GET", "/", 1);
    r.rate_limit = Some(RateLimit { capacity: 1, window_bits: 0 });
    let rt = runtime(vec![r], vec![]);
    assert!(matches!(
        rt.dispatch(request("GET", "/", &[], "")),
        Step::RateCheck { key, .. } if key == "None|10.0.0.1"
    ));
}

#[test]
fn streams_need_a_place() {
    let mut r = route("GET", "/events", 1);
    r.streaming = true;
    r.stream_handler = Some(4);
    let rt = runtime(vec![r], vec![]);
    let ask = || match rt.dispatch(request("GET", "/events", &[], "")) {
        Step::AcquireStream { stream_handler, ctx } => (stream_handler, ctx),
        _ => panic!("no place asked for"),
    };
    let (h, ctx) = ask();
    assert!(matches!(
        after_slot(h, ctx, true),
        Step::Done(Dispatched::Stream { stream_handler: Some(4), .. })
    ));
    let (h, ctx) = ask();
    let (status, body, headers) = response(after_slot(h, ctx, false));
    assert_eq!((status, body.as_str()), (503, "{\"error\": \"too many concurrent streams\", \"status\": 503}"));
    assert_eq!(headers, vec![pair("Retry-After", "5")]);
}

fn run(rt: &ServeRuntime, target: &str, headers: &[(&str, &str)], outcome: GiveOutcome) -> Step {
    match rt.dispatch(request("GET", target, headers, "")) {
        Step::Run { ctx, rest, .. } => rt.after_run(ctx, rest, outcome),
        _ => panic!("not run"),
    }
}

#[test]
fn outcomes_of_handlers() {
    let mut rt = runtime(vec![route("GET", "/", 1)], vec![]);
    let (status, body, _) = response(run(&rt, "/", &[], GiveOutcome::Give(Some(text("hi")))));
    assert_eq!((status, body.as_str()), (200, "\"hi\""));
    let (status, body, _) = response(run(&rt, "/", &[], GiveOutcome::Give(None)));
    assert_eq!((status, body.as_str()), (200, "null"));
    let invalid = |field: Option<&str>| GiveOutcome::Validation {
        message: "too short".to_string(),
        field: field.map(str::to_string),
    };
    let (status, body, _) = response(run(&rt, "/", &[], invalid(Some("name"))));
    assert_eq!(
        (status, body.as_str()),
        (400, "{\"error\": \"too short\", \"status\": 400, \"field\": \"name\"}")
    );
    let (_, body, _) = response(run(&rt, "/", &[], invalid(None)));
    assert_eq!(body, "{\"error\": \"too short\", \"status\": 400, \"field\": null}");
    let boom = || GiveOutcome::Error("boom at line 3".to_string());
    let (status, body, _) = response(run(&rt, "/", &[], boom()));
    assert_eq!((status, body.as_str()), (500, "{\"error\": \"boom at line 3\", \"status\": 500}"));
    rt.secure = true;
    let (_, body, _) = response(run(&rt, "/", &[], boom()));
    assert_eq!(body, "{\"error\": \"internal server error\", \"status\": 500}");
}

#[test]
fn fetched_page_completes_the_response() {
    let rt = runtime(vec![route("GET", "/", 1)], vec![]);
    let give = || server(ServerValue::Paged(Paged { fetch: 8, all: None }));
    assert!(needs_window(&give()));
    assert!(!needs_window(&text("x")));
    let step = || run(&rt, "/?limit=1&offset=4", &[], GiveOutcome::Give(Some(give())));
    match step() {
        Step::Fetch { fetch, limit, offset, page } => {
            assert_eq!((fetch, limit, offset), (8, 1, 4));
            let (status, body, _) = response(rt.after_fetch(page, Ok((vec![SynValue::integer(3)], 6))));
            assert_eq!(status, 200);
            assert_eq!(body, "{\"items\": [3], \"count\": 1, \"total\": 6, \"cursor\": 5}");
        }
        _ => panic!("nothing fetched"),
    }
    if let Step::Fetch { page, .. } = step() {
        let (status, body, _) = response(rt.after_fetch(page, Err("db down".to_string())));
        assert_eq!((status, body.as_str()), (500, "{\"error\": \"db down\", \"status\": 500}"));
    }
}

#[test]
fn content_is_negotiated() {
    let rt = runtime(vec![route("GET", "/post/:slug", 1)], vec![]);
    let give = || GiveOutcome::Give(Some(server(ServerValue::Content(prose("hola")))));
    let (_, body, _) = response(run(&rt, "/post/a", &[("Accept", "text/markdown")], give()));
    assert_eq!(body, "hola\n");
    let (_, body, _) = response(run(&rt, "/post/a", &[], give()));
    assert!(body.starts_with("<!DOCTYPE html>"));
    match rt.dispatch(request("GET", "/post/a.json", &[("Accept", "text/html")], "")) {
        Step::Run { ctx, rest, .. } => {
            assert_eq!(ctx.params.get("slug").map(String::as_str), Some("a"));
            assert_eq!(ctx.path, "/post/a.json");
            assert_eq!(rest.explicit_fmt.as_deref(), Some("json"));
            let (_, body, _) = response(rt.after_run(ctx, rest, give()));
            assert_eq!(body, "{\"type\": \"prose\", \"text\": \"hola\"}");
        }
        _ => panic!("not run"),
    }
}

#[test]
fn suffix_belongs_to_literals_and_catchalls() {
    let rt = runtime(vec![route("GET", "/feed.json", 1), route("GET", "/f/*p", 2)], vec![]);
    match rt.dispatch(request("GET", "/feed.json", &[], "")) {
        Step::Run { handler: 1, rest, .. } => assert!(rest.explicit_fmt.is_none()),
        _ => panic!("not run"),
    }
    match rt.dispatch(request("GET", "/f/a.md", &[], "")) {
        Step::Run { handler: 2, ctx, rest } => {
            assert!(rest.explicit_fmt.is_none());
            assert_eq!(ctx.params.get("p").map(String::as_str), Some("a.md"));
        }
        _ => panic!("not run"),
    }
}

fn file() -> StaticResp {
    StaticResp {
        status: 200,
        body: b"file".to_vec(),
        content_type: "text/plain".to_string(),
        extra: vec![pair("ETag", "\"t\"")],
    }
}

#[test]
fn file_goes_before_a_format_suffix() {
    let rt = runtime(vec![route("GET", "/:slug", 1)], vec![mount()]);
    let ask = || match rt.dispatch(request("GET", "/a.md", &[], "")) {
        Step::Static { host: None, req, case } => (req, case),
        _ => panic!("no file looked for"),
    };
    let (req, case) = ask();
    assert!(matches!(case, StaticCase::Suffix(_)));
    let (status, body, headers) = response(rt.after_static(None, req, case, Some(file())));
    assert_eq!((status, body.as_str()), (200, "file"));
    assert_eq!(headers, vec![pair("ETag", "\"t\"")]);
    let (req, case) = ask();
    match rt.after_static(None, req, case, None) {
        Step::Run { rest, ctx, .. } => {
            assert_eq!(rest.explicit_fmt.as_deref(), Some("md"));
            assert_eq!(ctx.params.get("slug").map(String::as_str), Some("a"));
        }
        _ => panic!("not run"),
    }
    assert!(matches!(rt.dispatch(request("GET", "/a", &[], "")), Step::Run { .. }));
}

#[test]
fn files_answer_where_no_route_does() {
    let rt = runtime(vec![], vec![mount()]);
    let ask = |path: &str| match rt.dispatch(request("GET", path, &[], "")) {
        Step::Static { host, req, case: StaticCase::Fallback } => (host, req),
        _ => panic!("no file looked for"),
    };
    let (host, req) = ask("/x.css");
    assert_eq!(response(rt.after_static(host, req, StaticCase::Fallback, Some(file()))).1, "file");
    let (host, req) = ask("/x.css");
    assert_eq!(response(rt.after_static(host, req, StaticCase::Fallback, None)).0, 404);
    let (host, req) = ask("/robots.txt");
    let (status, body, _) = response(rt.after_static(host, req, StaticCase::Fallback, None));
    assert_eq!((status, body.as_str()), (200, "User-agent: *\nAllow: /\n"));
    assert_eq!(response(rt.dispatch(request("POST", "/x.css", &[], ""))).0, 404);
}

#[test]
fn hosts_are_chosen_by_name() {
    let mut rt = runtime(vec![route("GET", "/", 1)], vec![]);
    rt.add_vhost("*.example.com".to_string(), vec![route("GET", "/", 2)], vec![], None);
    rt.add_vhost("shop.example.com".to_string(), vec![route("GET", "/", 3)], vec![], None);
    let handler = |host: &str| match rt.dispatch(request("GET", "/", &[("HOST", host)], "")) {
        Step::Run { handler, .. } => handler,
        _ => panic!("not run"),
    };
    assert_eq!(handler("shop.EXAMPLE.com:8080"), 3);
    assert_eq!(handler("blog.example.com"), 2);
    assert_eq!(handler(" example.com "), 2);
    assert_eq!(handler("other.org"), 1);
    assert_eq!(handler(""), 1);
    assert_eq!(rt.select_host("shop.example.com").routes[0].handler, 3);
    assert_eq!(rt.route_count(), 1);
}

#[test]
fn description_for_agents() {
    let rt = ServeRuntime::new(
        1,
        "h".to_string(),
        vec![
            route("POST", "/b", 1),
            route("GET", "/b", 2),
            route("GET", "/a", 3),
            route("GET", "/a", 4),
        ],
        None,
        Some(10),
        5,
        vec![],
        Some("*".to_string()),
        Some("sell cats".to_string()),
        Some("Cats".to_string()),
        vec!["first".to_string(), "second".to_string()],
        false,
        true,
    );
    assert_eq!(
        rt.llms_txt(),
        "# Cats\n\n> sell cats\n\n## Endpoints\n- GET /a\n- GET /b\n- POST /b\n\n## API\n- first\n- second\n"
    );
    assert_eq!(rt.cors_origin(), Some("*"));
    let (status, body, _) = response(rt.dispatch(request("GET", "/llms.txt", &[], "")));
    assert_eq!((status, body), (200, rt.llms_txt()));
    assert_eq!(rt.methods_for_path("/b"), vec!["GET", "POST"]);
}

#[test]
fn description_without_details() {
    let mut rt = runtime(vec![], vec![]);
    assert_eq!(rt.llms_txt(), "# Syntecnia service\n");
    rt.intent = Some("x".to_string());
    assert_eq!(rt.llms_txt(), "# x\n");
    rt.private = true;
    assert_eq!(response(rt.dispatch(request("GET", "/llms.txt", &[], ""))).0, 404);
    let (_, body, _) = response(rt.dispatch(request("GET", "/robots.txt", &[], "")));
    assert_eq!(body, "User-agent: *\nDisallow: /\n");
    assert_eq!(response(rt.dispatch(request("POST", "/robots.txt", &[], ""))).0, 404);
}

#[test]
fn every_request_is_answered() {
    let mut r = route("GET", "/list/:name", 1);
    r.requires_auth = true;
    r.rate_limit = Some(RateLimit { capacity: 2, window_bits: 1f64.to_bits() });
    let rt = runtime(vec![r], vec![mount()]);
    let mut step = rt.dispatch(request("GET", "/list/a.json?limit=2", &[], ""));
    let mut seen: Vec<&str> = Vec::new();
    let (status, body, headers) = loop {
        step = match step {
            Step::Static { host, req, case } => {
                seen.push("file");
                rt.after_static(host, req, case, None)
            }
            Step::RateCheck { rate, req, matched, .. } => {
                seen.push("rate");
                let outcome = RateOutcome { allowed: true, remaining: 1, retry_after: 0, reset: 0 };
                after_rate(rate, req, matched, outcome)
            }
            Step::Auth { ctx, rest, .. } => {
                seen.push("user");
                after_auth(ctx, rest, Some(text("ana")))
            }
            Step::Run { ctx, rest, .. } => {
                seen.push("run");
                let rows = server(ServerValue::Paged(Paged { fetch: 3, all: None }));
                rt.after_run(ctx, rest, GiveOutcome::Give(Some(rows)))
            }
            Step::Fetch { fetch, limit, offset, page } => {
                seen.push("fetch");
                assert_eq!((fetch, limit, offset), (3, 2, 0));
                rt.after_fetch(page, Ok((vec![text("x"), text("y")], 2)))
            }
            done => break response(done),
        };
    };
    assert_eq!(seen, vec!["file", "rate", "user", "run", "fetch"]);
    assert_eq!(status, 200);
    assert_eq!(body, "{\"items\": [\"x\", \"y\"], \"count\": 2, \"total\": 2, \"cursor\": null}");
    assert_eq!(headers[2], pair("RateLimit-Reset", "1"));
}
