use indexmap::IndexMap;
use syntecnia_serve::builtins::{register_serve_builtins, ServeBuiltin};
use syntecnia_serve::json::{dumps, Float, Json};
use syntecnia_serve::respond::{
    build_response, envelope_from_page, page_window, page_window_fits, paginate, paginate_lazy, shape,
    Built, ResponseBody, Shaped, DEFAULT_LIMIT, MAX_LIMIT,
};
use syntecnia_serve::value::{
    num_i64, NewValue, Number, Paged, ServerValue, SynData, SynValue,
};

fn text(s: &str) -> SynValue {
    SynValue::text(s.to_string())
}

fn list(items: Vec<SynValue>) -> SynValue {
    SynValue { data: SynData::List(items), shown: "[list]".to_string() }
}

fn map(entries: Vec<(&str, SynValue)>) -> SynValue {
    SynValue {
        data: SynData::Mapping(entries.into_iter().map(|(k, v)| (k.to_string(), v)).collect()),
        shown: "{map}".to_string(),
    }
}

fn server(v: ServerValue) -> SynValue {
    SynValue { data: SynData::Server(Box::new(v)), shown: "<server>".to_string() }
}

fn query(pairs: &[(&str, &str)]) -> IndexMap<String, String> {
    pairs.iter().map(|(k, v)| (k.to_string(), v.to_string())).collect()
}

fn numbers(n: i64) -> Vec<SynValue> {
    (0..n).map(SynValue::integer).collect()
}

fn ready(b: Built) -> (u16, String) {
    match b {
        Built::Ready { status, body: ResponseBody::Json(j) } => (status, dumps(&j)),
        _ => panic!("no JSON response"),
    }
}

#[test]
fn page_windows() {
    assert_eq!(page_window(&query(&[])), (DEFAULT_LIMIT, 0));
    assert_eq!(page_window(&query(&[("limit", "5"), ("offset", "7")])), (5, 7));
    assert_eq!(page_window(&query(&[("limit", "0")])), (100, 0));
    assert_eq!(page_window(&query(&[("limit", "-3")])), (100, 0));
    assert_eq!(page_window(&query(&[("limit", "9999")])), (MAX_LIMIT, 0));
    assert_eq!(page_window(&query(&[("limit", "x"), ("cursor", "-1")])), (100, 0));
    assert_eq!(page_window(&query(&[("offset", "3"), ("cursor", "8")])), (100, 8));
    assert_eq!(page_window(&query(&[("offset", "3"), ("cursor", "x")])), (100, 0));
    assert_eq!(page_window(&query(&[("limit", "+2")])), (2, 0));
}

#[test]
fn windows_that_do_not_fit() {
    let far = i64::MAX.to_string();
    assert!(!page_window_fits(&query(&[("offset", far.as_str())])));
    assert!(page_window_fits(&query(&[("offset", "9223372036854775707")])));
    assert!(!page_window_fits(&query(&[("offset", "9223372036854775708")])));
}

#[test]
fn pages_of_a_list() {
    let items = numbers(5);
    assert_eq!(
        dumps(&paginate(&items, &query(&[("limit", "2")]))),
        "{\"items\": [0, 1], \"count\": 2, \"total\": 5, \"cursor\": 2}"
    );
    assert_eq!(
        dumps(&paginate(&items, &query(&[("limit", "2"), ("cursor", "4")]))),
        "{\"items\": [4], \"count\": 1, \"total\": 5, \"cursor\": null}"
    );
    assert_eq!(
        dumps(&paginate(&items, &query(&[("offset", "50")]))),
        "{\"items\": [], \"count\": 0, \"total\": 5, \"cursor\": null}"
    );
    assert_eq!(
        dumps(&envelope_from_page(Vec::new(), 0, 3, 1, 1)),
        "{\"items\": [], \"count\": 0, \"total\": 3, \"cursor\": 2}"
    );
}

#[test]
fn following_cursors_gives_the_whole_list() {
    for (n, limit, calls) in [(7i64, 3i64, 3), (6, 3, 2), (1, 1, 1), (0, 3, 1), (5, 1000, 1), (3, 1, 3)] {
        let items = numbers(n);
        let size = limit.to_string();
        let mut seen: Vec<i64> = Vec::new();
        let mut made = 0;
        let mut cursor: Option<i64> = None;
        loop {
            let at = cursor.map(|c| c.to_string());
            let q = match &at {
                Some(c) => query(&[("limit", size.as_str()), ("cursor", c.as_str())]),
                None => query(&[("limit", size.as_str())]),
            };
            made += 1;
            let fields = match paginate(&items, &q) {
                Json::Object(f) => f,
                _ => panic!("no object"),
            };
            let on_page: Vec<i64> = match &fields[0].1 {
                Json::Array(a) => a.iter().filter_map(|j| if let Json::Int(i) = j { Some(*i) } else { None }).collect(),
                _ => panic!("no items"),
            };
            assert!(matches!(fields[1].1, Json::Int(c) if c == on_page.len() as i64 && c <= limit));
            assert!(matches!(fields[2].1, Json::Int(t) if t == n));
            seen.extend(on_page);
            match fields[3].1 {
                Json::Int(c) => cursor = Some(c),
                _ => break,
            }
        }
        assert_eq!(seen, (0..n).collect::<Vec<i64>>());
        assert_eq!(made, calls);
    }
}

#[test]
fn fetched_pages() {
    let q = query(&[("limit", "2"), ("offset", "2")]);
    let j = paginate_lazy(Ok((numbers(2), 9)), &q).unwrap();
    assert_eq!(dumps(&j), "{\"items\": [0, 1], \"count\": 2, \"total\": 9, \"cursor\": 4}");
    assert!(matches!(paginate_lazy(Err("down".to_string()), &q), Err(e) if e == "down"));
}

#[test]
fn shapes_of_values() {
    let q = query(&[("limit", "1")]);
    assert!(matches!(shape(None, &q), Shaped::Ready(Json::Null)));
    assert!(matches!(shape(Some(&text("a")), &q), Shaped::Ready(Json::Str(s)) if s == "a"));
    let paged = server(ServerValue::Paged(Paged { fetch: 6, all: None }));
    assert!(matches!(shape(Some(&paged), &q), Shaped::Fetch { fetch: 6, limit: 1, offset: 0 }));
}

#[test]
fn responses_to_values() {
    let q = query(&[]);
    assert_eq!(ready(build_response(None, &q)), (200, "null".to_string()));
    assert_eq!(ready(build_response(Some(&map(vec![])), &q)), (200, "{}".to_string()));
    let env = server(ServerValue::Envelope { status: 65_536 + 201, value: list(numbers(1)) });
    assert_eq!(
        ready(build_response(Some(&env), &q)),
        (201, "{\"items\": [0], \"count\": 1, \"total\": 1, \"cursor\": null}".to_string())
    );
    let raw = server(ServerValue::Raw {
        body: "hé".to_string(),
        content_type: "text/x".to_string(),
        status: 418,
    });
    match build_response(Some(&raw), &q) {
        Built::Ready { status: 418, body: ResponseBody::Raw(r) } => {
            assert_eq!(r.body, "hé".as_bytes());
            assert_eq!((r.content_type.as_str(), r.status), ("text/x", 418));
        }
        _ => panic!("no raw response"),
    }
    let paged = server(ServerValue::Paged(Paged { fetch: 2, all: None }));
    let env = server(ServerValue::Envelope { status: 206, value: paged });
    assert!(matches!(
        build_response(Some(&env), &query(&[("cursor", "10")])),
        Built::Fetch { status: 206, fetch: 2, limit: 100, offset: 10 }
    ));
}

#[test]
fn numbers_as_integers() {
    let n = |n: Number| SynValue { data: SynData::Number(n), shown: String::new() };
    assert_eq!(num_i64(&SynValue::integer(-4)), -4);
    assert_eq!(num_i64(&n(Number::Float(Float::Finite { repr: "2.9".to_string(), whole: 2 }))), 2);
    assert_eq!(num_i64(&n(Number::Float(Float::Nan))), 0);
    assert_eq!(num_i64(&n(Number::Float(Float::Infinity))), i64::MAX);
    assert_eq!(num_i64(&n(Number::Float(Float::NegInfinity))), i64::MIN);
    assert_eq!(num_i64(&n(Number::Big("99999999999999999999".to_string()))), 0);
    assert_eq!(num_i64(&n(Number::Big("-12".to_string()))), -12);
    assert_eq!(num_i64(&text("5")), 0);
}

#[test]
fn builtins_are_registered() {
    let table = register_serve_builtins();
    let names: Vec<&str> = table.iter().map(|r| r.name).collect();
    assert_eq!(
        names,
        vec![
            "ok", "created", "not_found", "fail", "html", "respond", "page", "heading", "prose", "list",
            "ordered_list", "link", "image", "section", "code", "raw", "content"
        ]
    );
    let open: Vec<&str> = table.iter().filter(|r| r.arity == -1).map(|r| r.name).collect();
    assert_eq!(open, vec!["fail", "respond", "page", "code"]);
    assert_eq!(table[7].arity, 2);
}

fn envelope(v: NewValue) -> (i64, NewValue) {
    match v {
        NewValue::Envelope { status, value } => (status, *value),
        _ => panic!("no envelope"),
    }
}

fn error(v: NewValue) -> (String, i64) {
    match v {
        NewValue::Mapping(m) => {
            assert_eq!((m[0].0.as_str(), m[1].0.as_str()), ("error", "status"));
            match (&m[0].1, &m[1].1) {
                (NewValue::Text(t), NewValue::Int(i)) => (t.clone(), *i),
                _ => panic!("no error"),
            }
        }
        _ => panic!("no map"),
    }
}

#[test]
fn status_helpers() {
    let (status, v) = envelope(ServeBuiltin::Okay.call(vec![SynValue::integer(1)]));
    assert_eq!(status, 200);
    assert!(matches!(v, NewValue::Given(x) if num_i64(&x) == 1));
    let (status, v) = envelope(ServeBuiltin::Created.call(vec![]));
    assert_eq!(status, 201);
    assert!(matches!(v, NewValue::Nothing));
    let (status, v) = envelope(ServeBuiltin::NotFound.call(vec![text("no cat")]));
    assert_eq!((status, error(v)), (404, ("no cat".to_string(), 404)));
    let (_, v) = envelope(ServeBuiltin::NotFound.call(vec![]));
    assert_eq!(error(v), ("not found".to_string(), 404));
    let (_, v) = envelope(ServeBuiltin::NotFound.call(vec![map(vec![])]));
    assert!(matches!(v, NewValue::Given(_)));
}

#[test]
fn failures() {
    let fail = |args: Vec<SynValue>| {
        let (status, v) = envelope(ServeBuiltin::Fail.call(args));
        let (message, code) = error(v);
        assert_eq!(status, code);
        (message, code)
    };
    assert_eq!(fail(vec![]), ("error".to_string(), 400));
    assert_eq!(fail(vec![text("bad")]), ("bad".to_string(), 400));
    assert_eq!(fail(vec![SynValue::integer(409)]), ("error".to_string(), 409));
    assert_eq!(fail(vec![SynValue::integer(409), text("clash")]), ("clash".to_string(), 409));
    assert_eq!(fail(vec![text("clash"), SynValue::integer(409)]), ("clash".to_string(), 409));
    assert_eq!(fail(vec![text("a"), text("b")]), ("a".to_string(), 400));
}

#[test]
fn raw_helpers() {
    match ServeBuiltin::Html.call(vec![text("<p>")]) {
        NewValue::Raw { body, content_type, status } => {
            assert_eq!((body.as_str(), content_type.as_str(), status), ("<p>", "text/html; charset=utf-8", 200))
        }
        _ => panic!("no raw response"),
    }
    match ServeBuiltin::Respond.call(vec![SynValue::integer(5)]) {
        NewValue::Raw { body, content_type, status } => {
            assert_eq!((body.as_str(), content_type.as_str(), status), ("5", "text/plain; charset=utf-8", 200))
        }
        _ => panic!("no raw response"),
    }
    match ServeBuiltin::Respond.call(vec![text("x"), text("text/csv"), SynValue::integer(202)]) {
        NewValue::Raw { content_type, status, .. } => {
            assert_eq!((content_type.as_str(), status), ("text/csv", 202))
        }
        _ => panic!("no raw response"),
    }
}

fn fields(v: NewValue) -> Vec<(String, NewValue)> {
    match v {
        NewValue::Node(f) => f,
        _ => panic!("no node"),
    }
}

#[test]
fn content_vocabulary() {
    let f = fields(ServeBuiltin::Heading.call(vec![SynValue::integer(2), text("Hi")]));
    assert!(matches!(&f[0].1, NewValue::Text(k) if k == "heading"));
    assert!(matches!(f[1].1, NewValue::Int(2)));
    assert!(matches!(&f[2].1, NewValue::Text(t) if t == "Hi"));
    let f = fields(ServeBuiltin::Heading.call(vec![text("x")]));
    assert!(matches!(f[1].1, NewValue::Int(1)));
    let f = fields(ServeBuiltin::List.call(vec![list(vec![text("a"), text("b")])]));
    match &f[1].1 {
        NewValue::List(l) => {
            assert_eq!(l.len(), 2);
            assert!(matches!(&l[0], NewValue::Given(v) if v.shown == "a"));
            assert!(matches!(&l[1], NewValue::Given(v) if v.shown == "b"));
        }
        _ => panic!("no list"),
    }
    let f = fields(ServeBuiltin::Page.call(vec![text("no list"), map(vec![("title", SynValue::integer(3))])]));
    assert!(matches!(&f[1].1, NewValue::List(l) if l.is_empty()));
    match &f[2].1 {
        NewValue::Mapping(m) => {
            assert_eq!(m[0].0, "title");
            assert!(matches!(&m[0].1, NewValue::Text(t) if t == "3"));
        }
        _ => panic!("no map"),
    }
    let f = fields(ServeBuiltin::Link.call(vec![text("t"), text("u")]));
    assert_eq!((f[1].0.as_str(), f[2].0.as_str()), ("text", "href"));
    let f = fields(ServeBuiltin::Image.call(vec![text("s"), text("a")]));
    assert_eq!((f[1].0.as_str(), f[2].0.as_str()), ("src", "alt"));
    let f = fields(ServeBuiltin::Code.call(vec![text("c")]));
    assert!(matches!(f[2].1, NewValue::Nothing));
    let f = fields(ServeBuiltin::Code.call(vec![text("c"), text("rs")]));
    assert!(matches!(&f[2].1, NewValue::Text(t) if t == "rs"));
    assert_eq!(fields(ServeBuiltin::Prose.call(vec![])).len(), 2);
    assert_eq!(fields(ServeBuiltin::Raw.call(vec![text("<b>")]))[1].0, "html");
    assert_eq!(fields(ServeBuiltin::Section.call(vec![]))[1].0, "nodes");
    assert!(matches!(&fields(ServeBuiltin::OrderedList.call(vec![]))[0].1, NewValue::Text(k) if k == "ordered_list"));
}

#[test]
fn content_values() {
    match ServeBuiltin::Content.call(vec![text("x")]) {
        NewValue::Content(t) => assert!(matches!(*t, NewValue::Given(_))),
        _ => panic!("no content"),
    }
    match ServeBuiltin::Content.call(vec![]) {
        NewValue::Content(t) => assert_eq!(fields(*t).len(), 3),
        _ => panic!("no content"),
    }
}

#[test]
fn cursor_starts_the_next_page() {
    for next in [0i64, 1, 100, 12_345, i64::MAX - 1000] {
        let q = query(&[("cursor", next.to_string().as_str()), ("offset", "3")]);
        assert_eq!(page_window(&q), (100, next));
    }
}
