use syntecnia_serve::body::{spill_name, BodyRead, BodyReader, Feed, Want, MEM_SPILL};
use syntecnia_serve::connection::{
    goes_on, plan_request, request_with_bytes, request_with_file, too_large_response, wants_close, Exchange,
    RequestPlan,
};
use syntecnia_serve::dispatch::StreamEnd;
use syntecnia_serve::headers::{bearer_token, header_value};
use syntecnia_serve::json::Json;
use syntecnia_serve::media::RawResponse;
use syntecnia_serve::respond::ResponseBody;
use syntecnia_serve::routing::RouteSpec;
use syntecnia_serve::runtime::ServeRuntime;
use syntecnia_serve::url::parse_path_query;
use syntecnia_serve::value::SynValue;
use syntecnia_serve::wire::{
    acme_reply, challenge_reply, challenge_token, handle_options, read_request_head, reason, redirect_one, send_head,
    stream_event, stream_head, stream_tail, write_response, HeadReader, HeadStep, RequestHead,
};

fn pairs(list: &[(&str, &str)]) -> Vec<(String, String)> {
    list.iter().map(|(k, v)| (k.to_string(), v.to_string())).collect()
}

fn lines(list: &[&str]) -> Vec<String> {
    list.iter().map(|l| l.to_string()).collect()
}

fn runtime(cors: Option<&str>) -> ServeRuntime {
    let route = RouteSpec {
        method: "POST".to_string(),
        path: "/a".to_string(),
        param_names: Vec::new(),
        requires_auth: false,
        streaming: false,
        rate_limit: None,
        rate_zone: None,
        handler: 0,
        stream_handler: None,
    };
    ServeRuntime::new(
        1,
        String::new(),
        vec![route],
        None,
        None,
        1,
        vec![],
        cors.map(str::to_string),
        None,
        None,
        vec![],
        false,
        false,
    )
}

fn utf8(bytes: Vec<u8>) -> String {
    String::from_utf8(bytes).unwrap()
}

#[test]
fn reasons() {
    assert_eq!(reason(200), "OK");
    assert_eq!(reason(418), "I'm a Teapot");
    assert_eq!(reason(413), "Request Entity Too Large");
    assert_eq!(reason(511), "Network Authentication Required");
    assert_eq!(reason(299), "");
}

#[test]
fn response_heads() {
    assert_eq!(
        send_head(404, &pairs(&[("A", "b"), ("C", "d: e")])),
        "HTTP/1.1 404 Not Found\r\nA: b\r\nC: d: e\r\n\r\n"
    );
    assert_eq!(send_head(799, &vec![]), "HTTP/1.1 799 \r\n\r\n");
}

#[test]
fn responses_on_the_wire() {
    let j = || ResponseBody::Json(Json::Str("é".to_string()));
    assert_eq!(
        utf8(write_response(200, j(), &vec![], false, None, true, false)),
        "HTTP/1.1 200 OK\r\nContent-Type: application/json\r\nContent-Length: 8\r\n\r\n\"\\u00e9\""
    );
    let raw = || ResponseBody::Raw(RawResponse::text("é", "text/plain", 200));
    let full = utf8(write_response(201, raw(), &pairs(&[("X", "y")]), true, Some("*"), true, true));
    assert_eq!(
        full,
        "HTTP/1.1 201 Created\r\nContent-Type: text/plain\r\nContent-Length: 2\r\nConnection: close\r\n\
         Access-Control-Allow-Origin: *\r\n\
         Strict-Transport-Security: max-age=31536000; includeSubDomains\r\nX: y\r\n\r\né"
    );
    let head = utf8(write_response(201, raw(), &pairs(&[("X", "y")]), true, Some("*"), false, true));
    assert_eq!(format!("{}é", head), full);
}

#[test]
fn options_of_a_path() {
    assert_eq!(
        utf8(handle_options(&runtime(None), "/a")),
        "HTTP/1.1 204 No Content\r\nAllow: HEAD, OPTIONS, POST\r\nContent-Length: 0\r\n\r\n"
    );
    assert_eq!(
        utf8(handle_options(&runtime(Some("https://x")), "/a")),
        "HTTP/1.1 204 No Content\r\nAllow: HEAD, OPTIONS, POST\r\nContent-Length: 0\r\n\
         Access-Control-Allow-Origin: https://x\r\nAccess-Control-Allow-Methods: HEAD, OPTIONS, POST\r\n\
         Access-Control-Allow-Headers: Content-Type, Authorization\r\nAccess-Control-Max-Age: 86400\r\n\r\n"
    );
    let gone = utf8(handle_options(&runtime(None), "/zz"));
    assert!(gone.starts_with("HTTP/1.1 404 Not Found\r\n"));
    assert!(gone.ends_with("\r\n\r\n{\"error\": \"no route for /zz\", \"status\": 404}"));
}

#[test]
fn event_streams() {
    let v = SynValue::integer(4);
    assert_eq!(stream_event(&v, None), "data: 4\n\n");
    assert_eq!(stream_event(&v, Some("tick")), "event: tick\ndata: 4\n\n");
    assert_eq!(
        stream_head(None, false),
        "HTTP/1.1 200 OK\r\nContent-Type: text/event-stream\r\nCache-Control: no-cache\r\n\
         X-Accel-Buffering: no\r\nConnection: close\r\n\r\n"
    );
    assert!(stream_head(Some("*"), true).contains("Access-Control-Allow-Origin: *\r\nStrict-"));
    assert_eq!(
        stream_tail(StreamEnd::Error("x\"".to_string())),
        Some("event: error\ndata: {\"error\": \"x\\\"\"}\n\n".to_string())
    );
    assert_eq!(stream_tail(StreamEnd::Done), None);
    assert_eq!(stream_tail(StreamEnd::ClientGone), None);
}

#[test]
fn redirects() {
    let h = pairs(&[("Host", "a.com:80")]);
    assert_eq!(
        redirect_one("/x?y", &h, 443),
        "HTTP/1.1 301 Moved Permanently\r\nLocation: https://a.com/x?y\r\nContent-Length: 0\r\n\
         Connection: close\r\n\r\n"
    );
    assert!(redirect_one("/", &h, 8443).contains("Location: https://a.com:8443/\r\n"));
    assert!(redirect_one("/", &vec![], 8443).contains("Location: https:///\r\n"));
}

#[test]
fn challenges() {
    assert_eq!(challenge_token("/.well-known/acme-challenge/tok?x"), Some("tok".to_string()));
    assert_eq!(challenge_token("/.well-known/other"), None);
    let h = pairs(&[("Host", "a.com")]);
    let asked = "/.well-known/acme-challenge/tok";
    assert_eq!(acme_reply(asked, &h, 443, Some("key")), challenge_reply(Some("key")));
    assert_eq!(acme_reply(asked, &h, 443, None), challenge_reply(None));
    assert_eq!(acme_reply("/other", &h, 443, None), redirect_one("/other", &h, 443));
    assert!(acme_reply("/other", &h, 443, Some("key")).contains("Location: https://a.com/other\r\n"));
    assert_eq!(
        challenge_reply(Some("kéy")),
        "HTTP/1.1 200 OK\r\nContent-Type: text/plain\r\nContent-Length: 4\r\nConnection: close\r\n\r\nkéy"
    );
    assert_eq!(
        challenge_reply(None),
        "HTTP/1.1 404 Not Found\r\nContent-Length: 0\r\nConnection: close\r\n\r\n"
    );
}

#[test]
fn request_heads() {
    let h = read_request_head(&lines(&[
        "GET /a?b HTTP/1.1\r\n",
        "Host:  a.com \r\n",
        "no colon here\r\n",
        "X: a:b\n",
        "\r\n",
        "Late: 1\r\n",
    ]))
    .unwrap();
    assert_eq!((h.method.as_str(), h.target.as_str(), h.version.as_str()), ("GET", "/a?b", "HTTP/1.1"));
    assert_eq!(h.headers, pairs(&[("Host", "a.com"), ("X", "a:b")]));
    let short = read_request_head(&lines(&["GET /\n"])).unwrap();
    assert_eq!(short.version, "HTTP/1.1");
    let odd = read_request_head(&lines(&["GET / HTTP/1.0 extra\r\n"])).unwrap();
    assert_eq!(odd.version, "HTTP/1.0 extra");
    assert!(read_request_head(&lines(&["\r\n", "GET / HTTP/1.1\r\n"])).is_none());
    assert!(read_request_head(&lines(&["GET\r\n"])).is_none());
    assert!(read_request_head(&vec![]).is_none());
}

#[test]
fn heads_are_read_line_by_line() {
    let mut r = HeadReader::new();
    assert!(matches!(r.feed(Some("GET / HTTP/1.1\r\n")), HeadStep::More));
    assert!(matches!(r.feed(Some("A: b\r\n")), HeadStep::More));
    assert!(matches!(r.feed(None), HeadStep::Complete));
    assert_eq!(r.head.unwrap().headers, pairs(&[("A", "b")]));
    let mut r = HeadReader::new();
    assert!(matches!(r.feed(None), HeadStep::Fail));
}

#[test]
fn header_lookup() {
    let h = pairs(&[("X-A", "1"), ("x-a", "2"), ("Authorization", "Bearer   abc ")]);
    assert_eq!(header_value(&h, "x-A"), "1");
    assert_eq!(header_value(&h, "none"), "");
    assert_eq!(bearer_token(&h), "abc");
    assert_eq!(bearer_token(&pairs(&[("authorization", " Basic xyz ")])), "Basic xyz");
    assert_eq!(bearer_token(&pairs(&[("authorization", "tok")])), "tok");
    assert_eq!(bearer_token(&pairs(&[("authorization", "Bearer")])), "Bearer");
    assert_eq!(bearer_token(&vec![]), "");
}

fn head(method: &str, version: &str, headers: &[(&str, &str)]) -> RequestHead {
    RequestHead {
        method: method.to_string(),
        target: "/a?x=1".to_string(),
        version: version.to_string(),
        headers: pairs(headers),
    }
}

#[test]
fn connections_close_on_request() {
    assert!(!wants_close("HTTP/1.1", &vec![]));
    assert!(wants_close("HTTP/1.1", &pairs(&[("Connection", "Close")])));
    assert!(wants_close("HTTP/1.0", &vec![]));
    assert!(!wants_close("HTTP/1.0", &pairs(&[("connection", "Keep-Alive")])));
}

#[test]
fn plans_of_requests() {
    match plan_request(&head("HEAD", "HTTP/1.1", &[])) {
        RequestPlan::Serve { method, write_body, path, query, close } => {
            assert_eq!((method.as_str(), write_body, path.as_str(), close), ("GET", false, "/a", false));
            assert_eq!(query.get("x").map(String::as_str), Some("1"));
        }
        _ => panic!("not served"),
    }
    assert!(matches!(
        plan_request(&head("PATCH", "HTTP/1.0", &[])),
        RequestPlan::Serve { method, write_body: true, close: true, .. } if method == "PATCH"
    ));
    assert!(matches!(
        plan_request(&head("OPTIONS", "HTTP/1.1", &[])),
        RequestPlan::Options { path, close: false } if path == "/a"
    ));
}

#[test]
fn head_is_answered_like_get() {
    let mut sent: Vec<Vec<u8>> = vec![];
    for method in ["HEAD", "GET"] {
        for connection in ["close", "keep-alive"] {
            let asked = head(method, "HTTP/1.1", &[("Connection", connection)]);
            match plan_request(&asked) {
                RequestPlan::Serve { method, write_body, path, query, close } => {
                    let r = request_with_bytes(method, path, query, asked.headers, &vec![], "ip");
                    assert_eq!((r.method.as_str(), r.path.as_str()), ("GET", "/a"));
                    assert_eq!(r.query.get("x").map(String::as_str), Some("1"));
                    assert_eq!(close, connection == "close");
                    let body = ResponseBody::Json(Json::Str("é".to_string()));
                    let extra = pairs(&[("X-A", "1")]);
                    sent.push(write_response(203, body, &extra, close, Some("*"), write_body, true));
                }
                _ => panic!("not served"),
            }
        }
    }
    for i in 0..2 {
        let for_head = utf8(sent[i].clone());
        assert!(for_head.starts_with("HTTP/1.1 203 "));
        assert!(for_head.contains("\r\nContent-Length: 8\r\n"));
        assert!(for_head.ends_with("\r\n\r\n"));
        assert_eq!(utf8(sent[i + 2].clone()), format!("{}\"\\u00e9\"", for_head));
    }
}

#[test]
fn connections_go_on() {
    for close in [false, true] {
        assert_eq!(goes_on(Exchange::Options, close), !close);
        assert_eq!(goes_on(Exchange::Response, close), !close);
        assert!(!goes_on(Exchange::TooLarge, close));
        assert!(!goes_on(Exchange::Stream, close));
    }
}

#[test]
fn stray_bytes_are_replaced() {
    let read = |bytes: Vec<u8>| {
        let (path, query) = parse_path_query("/p");
        request_with_bytes("GET".to_string(), path, query, vec![], &bytes, "ip").body
    };
    for b in (0x80u8..=0xc1).chain(0xf5..=0xff) {
        assert_eq!(read(vec![b]), "\u{fffd}");
        assert_eq!(read(vec![0x61, b, b, 0x7a]), "a\u{fffd}\u{fffd}z");
        assert_eq!(read(vec![0xc3, 0xa9, b, 0xe2, 0x82, 0xac]), "é\u{fffd}€");
    }
    assert_eq!(read(vec![0xff, 0xc3, 0xa9]), "\u{fffd}é");
}

#[test]
fn requests_with_their_bodies() {
    let (path, query) = parse_path_query("/p?q=1");
    let r = request_with_bytes("GET".to_string(), path, query, vec![], &vec![0x61, 0xff], "ip");
    assert_eq!(r.body, "a\u{fffd}");
    assert!(r.body_file.is_none());
    let (path, query) = parse_path_query("/p");
    let r = request_with_file("GET".to_string(), path, query, vec![], "/tmp/f".to_string(), "ip");
    assert_eq!((r.body.as_str(), r.body_file.as_deref()), ("", Some("/tmp/f")));
    let too_large = utf8(too_large_response(&runtime(None), true));
    assert!(too_large.starts_with("HTTP/1.1 413 Request Entity Too Large\r\n"));
    assert!(too_large.contains("Connection: close\r\n"));
    assert!(too_large.ends_with("{\"error\": \"payload too large\", \"status\": 413}"));
}

#[test]
fn plain_bodies() {
    let mut r = BodyReader::new(&pairs(&[("Content-Length", " 5 ")]), Some(100));
    assert!(matches!(r.wants(), Want::UpTo(5)));
    assert!(matches!(r.take_data(Some(b"ab".to_vec())), Feed::Nothing));
    assert!(matches!(r.wants(), Want::UpTo(3)));
    assert!(matches!(r.take_data(Some(b"cde".to_vec())), Feed::Nothing));
    assert!(matches!(r.wants(), Want::Nothing));
    assert!(matches!(r.finish(), BodyRead::Bytes(b) if b == b"abcde"));
    let r = BodyReader::new(&pairs(&[("Content-Length", "x")]), None);
    assert!(matches!(r.wants(), Want::Nothing));
    let r = BodyReader::new(&pairs(&[("Content-Length", "999999")]), None);
    assert!(matches!(r.wants(), Want::UpTo(65536)));
    let mut r = BodyReader::new(&pairs(&[("Content-Length", "9")]), None);
    r.take_data(Some(b"ab".to_vec()));
    r.take_data(None);
    assert!(matches!(r.finish(), BodyRead::Bytes(b) if b == b"ab"));
}

#[test]
fn chunked_bodies() {
    let mut r = BodyReader::new(&pairs(&[("Transfer-Encoding", "Chunked")]), None);
    assert!(matches!(r.wants(), Want::Line));
    r.take_line(Some("\r\n"));
    r.take_line(Some(" 3 ;ext=1\r\n"));
    assert!(matches!(r.wants(), Want::Exactly(3)));
    r.take_data(Some(b"abc".to_vec()));
    assert!(matches!(r.wants(), Want::Line));
    r.take_line(Some("\r\n"));
    r.take_line(Some("A\r\n"));
    assert!(matches!(r.wants(), Want::Exactly(10)));
    r.take_data(Some(b"0123456789".to_vec()));
    r.take_line(Some("\r\n"));
    r.take_line(Some("0\r\n"));
    assert!(matches!(r.wants(), Want::Line));
    r.take_line(Some("\r\n"));
    assert!(matches!(r.wants(), Want::Nothing));
    assert!(matches!(r.finish(), BodyRead::Bytes(b) if b == b"abc0123456789"));
    let mut r = BodyReader::new(&pairs(&[("Transfer-Encoding", "chunked")]), None);
    r.take_line(Some("zz\r\n"));
    assert!(matches!(r.wants(), Want::Nothing));
    let mut r = BodyReader::new(&pairs(&[("Transfer-Encoding", "chunked")]), None);
    r.take_line(None);
    assert!(matches!(r.wants(), Want::Nothing));
}

#[test]
fn bodies_over_the_limit() {
    let mut r = BodyReader::new(&pairs(&[("Content-Length", "5")]), Some(4));
    r.take_data(Some(b"abcd".to_vec()));
    assert!(matches!(r.wants(), Want::UpTo(1)));
    r.take_data(Some(b"e".to_vec()));
    assert!(matches!(r.wants(), Want::Nothing));
    assert!(matches!(r.finish(), BodyRead::TooLarge));
}

#[test]
fn large_bodies_go_to_a_file() {
    let size = (MEM_SPILL + 10).to_string();
    let mut r = BodyReader::new(&pairs(&[("Content-Length", size.as_str())]), None);
    let mut file: Vec<u8> = Vec::new();
    let mut sent = 0usize;
    let mut made = 0;
    while let Want::UpTo(n) = r.wants() {
        let block: Vec<u8> = (0..n).map(|i| ((sent + i) % 251) as u8).collect();
        sent += n;
        match r.take_data(Some(block)) {
            Feed::Nothing => {}
            Feed::TrySpill => {
                made += 1;
                file.extend_from_slice(r.buffered());
                r.spill(true);
            }
            Feed::Append(more) => file.extend_from_slice(&more),
        }
    }
    assert_eq!((made, sent, file.len()), (1, MEM_SPILL + 10, MEM_SPILL + 10));
    assert!(file.iter().enumerate().all(|(i, b)| *b == (i % 251) as u8));
    assert!(matches!(r.finish(), BodyRead::File));
}

#[test]
fn body_stays_in_memory_without_a_file() {
    let mut r = BodyReader::new(&pairs(&[("Transfer-Encoding", "chunked")]), Some(-5));
    r.take_line(Some("1"));
    r.take_data(Some(vec![1]));
    assert!(matches!(r.finish(), BodyRead::TooLarge));
    let mut r = BodyReader::new(&pairs(&[("Transfer-Encoding", "chunked")]), Some(3));
    r.take_line(Some("3"));
    assert!(matches!(r.take_data(Some(vec![1, 2, 3])), Feed::Nothing));
    assert!(matches!(r.finish(), BodyRead::Bytes(b) if b == vec![1, 2, 3]));
    let mut r = BodyReader::new(&pairs(&[("Transfer-Encoding", "chunked")]), None);
    r.take_line(Some(&format!("{:x}", MEM_SPILL + 1)));
    assert!(matches!(r.take_data(Some(vec![7; MEM_SPILL + 1])), Feed::TrySpill));
    r.spill(false);
    assert!(matches!(r.finish(), BodyRead::Bytes(b) if b.len() == MEM_SPILL + 1));
}

#[test]
fn names_of_body_files() {
    assert_eq!(spill_name(42, 0), "syn_body_42_0");
}

#[test]
fn body_is_what_came() {
    let chunks = [&b"ab"[..], &b"c"[..], &[9u8; 20][..]];
    for limit in [None, Some(23), Some(22), Some(2), Some(0)] {
        let mut r = BodyReader::new(&pairs(&[("Transfer-Encoding", "chunked")]), limit);
        let mut came: Vec<u8> = Vec::new();
        for c in chunks {
            if !matches!(r.wants(), Want::Line) {
                break;
            }
            r.take_line(Some(&format!("{:x}\r\n", c.len())));
            came.extend_from_slice(c);
            if let Feed::TrySpill = r.take_data(Some(c.to_vec())) {
                r.spill(false);
            }
            if matches!(r.wants(), Want::Line) {
                r.take_line(Some("\r\n"));
            }
        }
        if matches!(r.wants(), Want::Line) {
            r.take_line(Some("0\r\n"));
            r.take_line(Some("\r\n"));
        }
        assert!(matches!(r.wants(), Want::Nothing));
        match r.finish() {
            BodyRead::TooLarge => assert!(came.len() as i64 > limit.unwrap()),
            BodyRead::Bytes(b) => {
                assert_eq!(b, came);
                assert!(limit.map_or(true, |mb| b.len() as i64 <= mb));
            }
            BodyRead::File => panic!("no file was made"),
        }
    }
}
