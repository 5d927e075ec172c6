//! What goes over the connection: the heads of requests, responses, redirects and event
//! streams.

use vstd::prelude::*;
use vstd::slice::slice_subrange;
use vstd::utf8::*;

use crate::content;
use crate::dispatch::StreamEnd;
use crate::headers;
use crate::host;
use crate::json;
use crate::json::Json;
use crate::json::JsonTree;
use crate::media;
use crate::numeral;
use crate::order;
use crate::respond::BodyView;
use crate::respond::ResponseBody;
use crate::routing::RouteSpec;
use crate::runtime;
use crate::runtime::ServeRuntime;
use crate::text;
use crate::text::Trim;
use crate::url;
use crate::value::SynValue;

verus! {

// ---------------------------------------------------------------------------
// Status lines and headers
// ---------------------------------------------------------------------------

/// The reason phrase of a status, empty where it has none.
pub open spec fn reason_phrase(status: u16) -> Seq<char> {
    match status {
        100 => "Continue"@,
        101 => "Switching Protocols"@,
        102 => "Processing"@,
        103 => "Early Hints"@,
        200 => "OK"@,
        201 => "Created"@,
        202 => "Accepted"@,
        203 => "Non-Authoritative Information"@,
        204 => "No Content"@,
        205 => "Reset Content"@,
        206 => "Partial Content"@,
        207 => "Multi-Status"@,
        208 => "Already Reported"@,
        226 => "IM Used"@,
        300 => "Multiple Choices"@,
        301 => "Moved Permanently"@,
        302 => "Found"@,
        303 => "See Other"@,
        304 => "Not Modified"@,
        305 => "Use Proxy"@,
        307 => "Temporary Redirect"@,
        308 => "Permanent Redirect"@,
        400 => "Bad Request"@,
        401 => "Unauthorized"@,
        402 => "Payment Required"@,
        403 => "Forbidden"@,
        404 => "Not Found"@,
        405 => "Method Not Allowed"@,
        406 => "Not Acceptable"@,
        407 => "Proxy Authentication Required"@,
        408 => "Request Timeout"@,
        409 => "Conflict"@,
        410 => "Gone"@,
        411 => "Length Required"@,
        412 => "Precondition Failed"@,
        413 => "Request Entity Too Large"@,
        414 => "Request-URI Too Long"@,
        415 => "Unsupported Media Type"@,
        416 => "Requested Range Not Satisfiable"@,
        417 => "Expectation Failed"@,
        418 => "I'm a Teapot"@,
        421 => "Misdirected Request"@,
        422 => "Unprocessable Entity"@,
        423 => "Locked"@,
        424 => "Failed Dependency"@,
        425 => "Too Early"@,
        426 => "Upgrade Required"@,
        428 => "Precondition Required"@,
        429 => "Too Many Requests"@,
        431 => "Request Header Fields Too Large"@,
        451 => "Unavailable For Legal Reasons"@,
        500 => "Internal Server Error"@,
        501 => "Not Implemented"@,
        502 => "Bad Gateway"@,
        503 => "Service Unavailable"@,
        504 => "Gateway Timeout"@,
        505 => "HTTP Version Not Supported"@,
        506 => "Variant Also Negotiates"@,
        507 => "Insufficient Storage"@,
        508 => "Loop Detected"@,
        510 => "Not Extended"@,
        511 => "Network Authentication Required"@,
        _ => ""@,
    }
}

/// The reason phrase of a status.
pub fn reason(status: u16) -> (r: &'static str)
    ensures
        r@ == reason_phrase(status),
{
    match status {
        100 => "Continue",
        101 => "Switching Protocols",
        102 => "Processing",
        103 => "Early Hints",
        200 => "OK",
        201 => "Created",
        202 => "Accepted",
        203 => "Non-Authoritative Information",
        204 => "No Content",
        205 => "Reset Content",
        206 => "Partial Content",
        207 => "Multi-Status",
        208 => "Already Reported",
        226 => "IM Used",
        300 => "Multiple Choices",
        301 => "Moved Permanently",
        302 => "Found",
        303 => "See Other",
        304 => "Not Modified",
        305 => "Use Proxy",
        307 => "Temporary Redirect",
        308 => "Permanent Redirect",
        400 => "Bad Request",
        401 => "Unauthorized",
        402 => "Payment Required",
        403 => "Forbidden",
        404 => "Not Found",
        405 => "Method Not Allowed",
        406 => "Not Acceptable",
        407 => "Proxy Authentication Required",
        408 => "Request Timeout",
        409 => "Conflict",
        410 => "Gone",
        411 => "Length Required",
        412 => "Precondition Failed",
        413 => "Request Entity Too Large",
        414 => "Request-URI Too Long",
        415 => "Unsupported Media Type",
        416 => "Requested Range Not Satisfiable",
        417 => "Expectation Failed",
        418 => "I'm a Teapot",
        421 => "Misdirected Request",
        422 => "Unprocessable Entity",
        423 => "Locked",
        424 => "Failed Dependency",
        425 => "Too Early",
        426 => "Upgrade Required",
        428 => "Precondition Required",
        429 => "Too Many Requests",
        431 => "Request Header Fields Too Large",
        451 => "Unavailable For Legal Reasons",
        500 => "Internal Server Error",
        501 => "Not Implemented",
        502 => "Bad Gateway",
        503 => "Service Unavailable",
        504 => "Gateway Timeout",
        505 => "HTTP Version Not Supported",
        506 => "Variant Also Negotiates",
        507 => "Insufficient Storage",
        508 => "Loop Detected",
        510 => "Not Extended",
        511 => "Network Authentication Required",
        _ => "",
    }
}

/// Header lines.
pub open spec fn header_lines(h: Seq<(Seq<char>, Seq<char>)>) -> Seq<char>
    decreases h.len(),
{
    if h.len() == 0 {
        seq![]
    } else {
        header_lines(h.drop_last()) + h.last().0 + ": "@ + h.last().1 + "\r\n"@
    }
}

/// The head of a response: the status line, the headers and the empty line.
pub open spec fn head_text(status: u16, h: Seq<(Seq<char>, Seq<char>)>) -> Seq<char> {
    "HTTP/1.1 "@ + numeral::decimal(status as nat) + " "@ + reason_phrase(status) + "\r\n"@
        + header_lines(h) + "\r\n"@
}

/// The head of a response.
pub fn send_head(status: u16, headers: &Vec<(String, String)>) -> (r: String)
    ensures
        r@ == head_text(status, headers::pairs(headers@)),
{
    let mut r = "HTTP/1.1 ".to_owned();
    r.append(numeral::u64_to_string(status as u64).as_str());
    r.append(" ");
    r.append(reason(status));
    r.append("\r\n");
    let ghost start = r@;
    let ghost all = headers::pairs(headers@);
    let mut lines = String::new();
    for i in 0..headers.len()
        invariant
            all == headers::pairs(headers@),
            lines@ == header_lines(all.take(i as int)),
    {
        lines.append(headers[i].0.as_str());
        lines.append(": ");
        lines.append(headers[i].1.as_str());
        lines.append("\r\n");
        assert(all.take(i as int + 1).drop_last() =~= all.take(i as int));
        assert(all.take(i as int + 1).last() == (headers@[i as int].0@, headers@[i as int].1@));
    }
    assert(all.take(all.len() as int) =~= all);
    r.append(lines.as_str());
    r.append("\r\n");
    r
}

/// A header with which a server asks its clients to stay with encrypted connections.
pub open spec fn hsts_headers(hsts: bool) -> Seq<(Seq<char>, Seq<char>)> {
    if hsts {
        seq![("Strict-Transport-Security"@, "max-age=31536000; includeSubDomains"@)]
    } else {
        seq![]
    }
}

/// The header that admits an origin.
pub open spec fn cors_headers(cors: Option<Seq<char>>) -> Seq<(Seq<char>, Seq<char>)> {
    match cors {
        Some(o) => seq![("Access-Control-Allow-Origin"@, o)],
        None => seq![],
    }
}

/// The view of an optional text.
pub open spec fn str_view(s: Option<&str>) -> Option<Seq<char>> {
    match s {
        Some(t) => Some(t@),
        None => None,
    }
}

fn push_hsts(v: &mut Vec<(String, String)>, hsts: bool)
    ensures
        headers::pairs(final(v)@) == headers::pairs(old(v)@) + hsts_headers(hsts),
{
    let ghost before = headers::pairs(v@);
    if hsts {
        headers::push_header(
            v,
            "Strict-Transport-Security",
            "max-age=31536000; includeSubDomains".to_owned(),
        );
    }
    assert(headers::pairs(v@) =~= before + hsts_headers(hsts));
}

fn push_cors(v: &mut Vec<(String, String)>, cors: Option<&str>)
    ensures
        headers::pairs(final(v)@) == headers::pairs(old(v)@) + cors_headers(str_view(cors)),
{
    let ghost before = headers::pairs(v@);
    if let Some(o) = cors {
        headers::push_header(v, "Access-Control-Allow-Origin", o.to_owned());
    }
    assert(headers::pairs(v@) =~= before + cors_headers(str_view(cors)));
}

// ---------------------------------------------------------------------------
// Responses
// ---------------------------------------------------------------------------

/// The content type of a body.
pub open spec fn content_type_of(body: BodyView) -> Seq<char> {
    match body {
        BodyView::Json(_) => "application/json"@,
        BodyView::Raw(r) => r.content_type,
    }
}

/// The bytes of a body.
pub open spec fn payload_of(body: BodyView) -> Seq<u8> {
    match body {
        BodyView::Json(j) => encode_utf8(json::dumped(j)),
        BodyView::Raw(r) => r.body,
    }
}

/// The headers of a response.
pub open spec fn response_headers(
    body: BodyView,
    extra: Seq<(Seq<char>, Seq<char>)>,
    close: bool,
    cors: Option<Seq<char>>,
    hsts: bool,
) -> Seq<(Seq<char>, Seq<char>)> {
    seq![
        ("Content-Type"@, content_type_of(body)),
        ("Content-Length"@, numeral::decimal(payload_of(body).len())),
    ] + (if close {
        seq![("Connection"@, "close"@)]
    } else {
        seq![]
    }) + cors_headers(cors) + hsts_headers(hsts) + extra
}

/// A response as it is sent.
pub open spec fn response_bytes(
    status: u16,
    body: BodyView,
    extra: Seq<(Seq<char>, Seq<char>)>,
    close: bool,
    cors: Option<Seq<char>>,
    write_body: bool,
    hsts: bool,
) -> Seq<u8> {
    encode_utf8(head_text(status, response_headers(body, extra, close, cors, hsts))) + (
    if write_body {
        payload_of(body)
    } else {
        seq![]
    })
}

fn append_bytes(v: &mut Vec<u8>, more: &Vec<u8>)
    ensures
        final(v)@ == old(v)@ + more@,
{
    v.extend_from_slice(more.as_slice());
}

/// A response as it is sent; without its body where only the head is asked for.
pub fn write_response(
    status: u16,
    body: ResponseBody,
    extra: &Vec<(String, String)>,
    close: bool,
    cors: Option<&str>,
    write_body: bool,
    hsts: bool,
) -> (r: Vec<u8>)
    ensures
        r@ == response_bytes(
            status,
            body@,
            headers::pairs(extra@),
            close,
            str_view(cors),
            write_body,
            hsts,
        ),
{
    let ghost view = body@;
    let (content_type, payload): (String, Vec<u8>) = match body {
        ResponseBody::Json(j) => {
            let s = json::dumps(&j);
            ("application/json".to_owned(), media::bytes_of(s.as_str()))
        },
        ResponseBody::Raw(raw) => (raw.content_type, raw.body),
    };
    let mut list = headers::new_headers();
    headers::push_header(&mut list, "Content-Type", content_type);
    headers::push_header(
        &mut list,
        "Content-Length",
        numeral::u64_to_string(payload.len() as u64),
    );
    if close {
        headers::push_header(&mut list, "Connection", "close".to_owned());
    }
    assert(headers::pairs(list@) =~= seq![
        ("Content-Type"@, content_type_of(view)),
        ("Content-Length"@, numeral::decimal(payload_of(view).len())),
    ] + (if close {
        seq![("Connection"@, "close"@)]
    } else {
        seq![]
    }));
    push_cors(&mut list, cors);
    push_hsts(&mut list, hsts);
    let ghost start = headers::pairs(list@);
    let ghost all = headers::pairs(extra@);
    for i in 0..extra.len()
        invariant
            all == headers::pairs(extra@),
            headers::pairs(list@) == start + all.take(i as int),
    {
        headers::push_header(&mut list, extra[i].0.as_str(), extra[i].1.as_str().to_owned());
        assert(all[i as int] == (extra@[i as int].0@, extra@[i as int].1@));
        assert(headers::pairs(list@) =~= start + all.take(i as int + 1));
    }
    assert(all.take(all.len() as int) =~= all);
    let head = send_head(status, &list);
    let mut r = media::bytes_of(head.as_str());
    if write_body {
        append_bytes(&mut r, &payload);
    }
    assert(r@ =~= response_bytes(
        status,
        view,
        headers::pairs(extra@),
        close,
        str_view(cors),
        write_body,
        hsts,
    ));
    r
}

/// What answers a request for the head alone is what answers the same request in full, but
/// for the body.
pub proof fn law_head_is_the_response_without_its_body(
    status: u16,
    body: BodyView,
    extra: Seq<(Seq<char>, Seq<char>)>,
    close: bool,
    cors: Option<Seq<char>>,
    hsts: bool,
)
    ensures
        response_bytes(status, body, extra, close, cors, true, hsts) == response_bytes(
            status,
            body,
            extra,
            close,
            cors,
            false,
            hsts,
        ) + payload_of(body),
{
    let head = encode_utf8(head_text(status, response_headers(body, extra, close, cors, hsts)));
    assert(head + Seq::<u8>::empty() =~= head);
}

/// A response says how many bytes its body has.
pub proof fn law_content_length_is_the_body_length(
    body: BodyView,
    extra: Seq<(Seq<char>, Seq<char>)>,
    close: bool,
    cors: Option<Seq<char>>,
    hsts: bool,
)
    ensures
        headers::header(response_headers(body, extra, close, cors, hsts), "content-length"@)
            == numeral::decimal(payload_of(body).len()),
{
    let h = response_headers(body, extra, close, cors, hsts);
    reveal_strlit("Content-Type");
    reveal_strlit("Content-Length");
    reveal_strlit("content-length");
    assert(text::lower_ascii("Content-Type"@).len() == 12);
    assert(text::lower_ascii("content-length"@).len() == 14);
    assert(!text::same_ignoring_case("Content-Type"@, "content-length"@));
    assert(text::lower_ascii("Content-Length"@) =~= text::lower_ascii("content-length"@));
    assert(h[0] == ("Content-Type"@, content_type_of(body)));
    assert(h.drop_first()[0] == ("Content-Length"@, numeral::decimal(payload_of(body).len())));
    reveal_with_fuel(headers::header, 3);
}

// ---------------------------------------------------------------------------
// OPTIONS
// ---------------------------------------------------------------------------

/// `l` are the methods that are offered for a path, with those that every path has, each
/// once, in ascending order.
pub open spec fn lists_options(
    routes: Seq<RouteSpec>,
    path: Seq<char>,
    l: Seq<Seq<char>>,
) -> bool {
    &&& order::texts_ascend(l)
    &&& forall|m: Seq<char>| #[trigger]
        l.contains(m) <==> host::methods_of(routes, path).contains(m) || m == "OPTIONS"@ || m
            == "HEAD"@
}

/// The methods that are offered for a path, with those that every path has.
pub open spec fn option_methods(routes: Seq<RouteSpec>, path: Seq<char>) -> Seq<Seq<char>> {
    choose|l: Seq<Seq<char>>| lists_options(routes, path, l)
}

/// There is one list of the methods that are offered for a path with those that every path
/// has.
pub proof fn law_options_are_unique(
    routes: Seq<RouteSpec>,
    path: Seq<char>,
    l: Seq<Seq<char>>,
)
    requires
        lists_options(routes, path, l),
    ensures
        option_methods(routes, path) == l,
{
    let other = option_methods(routes, path);
    assert(lists_options(routes, path, other));
    let known = |m: Seq<char>|
        host::methods_of(routes, path).contains(m) || m == "OPTIONS"@ || m == "HEAD"@;
    assert forall|m: Seq<char>| other.contains(m) <==> l.contains(m) by {
        assert(other.contains(m) <==> known(m));
        assert(l.contains(m) <==> known(m));
    }
    order::law_ascending_texts_are_unique(other, l);
}

/// The headers that answer a request for the options of a path.
pub open spec fn options_headers(
    allow: Seq<char>,
    cors: Option<Seq<char>>,
    hsts: bool,
) -> Seq<(Seq<char>, Seq<char>)> {
    seq![("Allow"@, allow), ("Content-Length"@, "0"@)] + (match cors {
        Some(o) => seq![
            ("Access-Control-Allow-Origin"@, o),
            ("Access-Control-Allow-Methods"@, allow),
            ("Access-Control-Allow-Headers"@, "Content-Type, Authorization"@),
            ("Access-Control-Max-Age"@, "86400"@),
        ],
        None => seq![],
    }) + hsts_headers(hsts)
}

/// What answers a request for the options of a path.
pub open spec fn options_bytes(rt: ServeRuntime, path: Seq<char>) -> Seq<u8> {
    let routes = rt.default_host.routes@;
    let cors = text::maybe(rt.cors_origin);
    if host::methods_of(routes, path).len() == 0 {
        response_bytes(
            404,
            runtime::error_view("no route for "@ + path, 404),
            seq![],
            false,
            cors,
            true,
            rt.tls_enabled,
        )
    } else {
        encode_utf8(
            head_text(
                204,
                options_headers(
                    text::joined(option_methods(routes, path), ", "@),
                    cors,
                    rt.tls_enabled,
                ),
            ),
        )
    }
}

fn all_options(rt: &ServeRuntime, path: &str, allowed: Vec<String>) -> (r: Vec<String>)
    requires
        text::texts(allowed@) == host::methods_of(rt.default_host.routes@, path@),
    ensures
        text::texts(r@) == option_methods(rt.default_host.routes@, path@),
{
    let ghost base = text::texts(allowed@);
    let mut set = allowed;
    set.push("OPTIONS".to_owned());
    set.push("HEAD".to_owned());
    let ghost given = text::texts(set@);
    proof {
        assert(given =~= base.push("OPTIONS"@).push("HEAD"@));
        assert forall|m: Seq<char>| #[trigger] given.contains(m) <==> base.contains(m) || m
            == "OPTIONS"@ || m == "HEAD"@ by {
            if base.contains(m) {
                let i = choose|i: int| 0 <= i < base.len() && base[i] == m;
                assert(given[i] == m);
            }
            if m == "OPTIONS"@ {
                assert(given[base.len() as int] == m);
            }
            if m == "HEAD"@ {
                assert(given[base.len() as int + 1] == m);
            }
        }
    }
    let r = order::sort_texts(set);
    proof {
        let l = text::texts(r@);
        assert forall|m: Seq<char>| #[trigger] l.contains(m) <==> base.contains(m) || m
            == "OPTIONS"@ || m == "HEAD"@ by {
            assert(l.contains(m) <==> given.contains(m));
        }
        law_options_are_unique(rt.default_host.routes@, path@, l);
    }
    r
}

/// Answers a request for the options of a path.
pub fn handle_options(rt: &ServeRuntime, path: &str) -> (r: Vec<u8>)
    ensures
        r@ == options_bytes(*rt, path@),
{
    let allowed = rt.methods_for_path(path);
    assert(text::texts(allowed@).len() == allowed@.len());
    if allowed.len() == 0 {
        let mut message = "no route for ".to_owned();
        message.append(path);
        return write_response(
            404,
            runtime::error_body(message.as_str(), 404),
            &headers::new_headers(),
            false,
            rt.cors_origin(),
            true,
            rt.tls_enabled,
        );
    }
    let allow = text::join(&all_options(rt, path, allowed), ", ");
    let mut list = headers::new_headers();
    headers::push_header(&mut list, "Allow", allow.as_str().to_owned());
    headers::push_header(&mut list, "Content-Length", "0".to_owned());
    let ghost start = headers::pairs(list@);
    assert(start =~= seq![("Allow"@, allow@), ("Content-Length"@, "0"@)]);
    if let Some(o) = rt.cors_origin() {
        headers::push_header(&mut list, "Access-Control-Allow-Origin", o.to_owned());
        headers::push_header(&mut list, "Access-Control-Allow-Methods", allow.as_str().to_owned());
        headers::push_header(
            &mut list,
            "Access-Control-Allow-Headers",
            "Content-Type, Authorization".to_owned(),
        );
        headers::push_header(&mut list, "Access-Control-Max-Age", "86400".to_owned());
        assert(headers::pairs(list@) =~= start + seq![
            ("Access-Control-Allow-Origin"@, o@),
            ("Access-Control-Allow-Methods"@, allow@),
            ("Access-Control-Allow-Headers"@, "Content-Type, Authorization"@),
            ("Access-Control-Max-Age"@, "86400"@),
        ]);
    } else {
        assert(headers::pairs(list@) =~= start + Seq::<(Seq<char>, Seq<char>)>::empty());
    }
    push_hsts(&mut list, rt.tls_enabled);
    media::bytes_of(send_head(204, &list).as_str())
}

// ---------------------------------------------------------------------------
// Event streams
// ---------------------------------------------------------------------------

/// An event with data, as it is sent.
pub open spec fn event_text(event: Option<Seq<char>>, data: JsonTree) -> Seq<char> {
    (match event {
        Some(e) => "event: "@ + e + "\n"@,
        None => seq![],
    }) + "data: "@ + json::dumped(data) + "\n\n"@
}

/// An event that carries a value.
pub fn stream_event(value: &SynValue, event: Option<&str>) -> (r: String)
    ensures
        r@ == event_text(str_view(event), content::syn_json(*value)),
{
    let mut r = String::new();
    if let Some(e) = event {
        r = "event: ".to_owned();
        r.append(e);
        r.append("\n");
    }
    r.append("data: ");
    r.append(json::dumps(&content::syn_to_json(value)).as_str());
    r.append("\n\n");
    r
}

/// The headers of an event stream.
pub open spec fn stream_headers(cors: Option<Seq<char>>, hsts: bool) -> Seq<
    (Seq<char>, Seq<char>),
> {
    seq![
        ("Content-Type"@, "text/event-stream"@),
        ("Cache-Control"@, "no-cache"@),
        ("X-Accel-Buffering"@, "no"@),
        ("Connection"@, "close"@),
    ] + cors_headers(cors) + hsts_headers(hsts)
}

/// The head of an event stream.
pub fn stream_head(cors: Option<&str>, hsts: bool) -> (r: String)
    ensures
        r@ == head_text(200, stream_headers(str_view(cors), hsts)),
{
    let mut list = headers::new_headers();
    headers::push_header(&mut list, "Content-Type", "text/event-stream".to_owned());
    headers::push_header(&mut list, "Cache-Control", "no-cache".to_owned());
    headers::push_header(&mut list, "X-Accel-Buffering", "no".to_owned());
    headers::push_header(&mut list, "Connection", "close".to_owned());
    assert(headers::pairs(list@) =~= seq![
        ("Content-Type"@, "text/event-stream"@),
        ("Cache-Control"@, "no-cache"@),
        ("X-Accel-Buffering"@, "no"@),
        ("Connection"@, "close"@),
    ]);
    push_cors(&mut list, cors);
    push_hsts(&mut list, hsts);
    send_head(200, &list)
}

/// The event with which a stream that failed ends.
pub open spec fn failure_event(message: Seq<char>) -> Seq<char> {
    event_text(Some("error"@), JsonTree::Object(seq![("error"@, JsonTree::Str(message))]))
}

/// What is still to be sent when a stream has ended: the error, where it failed for another
/// reason than that the client is gone.
pub fn stream_tail(end: StreamEnd) -> (r: Option<String>)
    ensures
        match end {
            StreamEnd::Error(message) => r matches Some(s) && s@ == failure_event(message@),
            _ => r is None,
        },
{
    match end {
        StreamEnd::Error(message) => {
            let mut v: Vec<(String, Json)> = Vec::new();
            v.push(("error".to_owned(), json::string(message.as_str())));
            proof {
                json::lemma_object_trees(v@, 1);
                assert(json::object_trees(v@, 1) =~= seq![("error"@, JsonTree::Str(message@))]);
            }
            let data = Json::Object(v);
            let mut r = "event: ".to_owned();
            r.append("error");
            r.append("\n");
            r.append("data: ");
            r.append(json::dumps(&data).as_str());
            r.append("\n\n");
            Some(r)
        },
        _ => None,
    }
}

// ---------------------------------------------------------------------------
// Redirects and challenges
// ---------------------------------------------------------------------------

/// The authority of the encrypted server: the host that was asked for, with the port unless
/// it is the usual one.
pub open spec fn authority(host: Seq<char>, https_port: u16) -> Seq<char> {
    if https_port == 443 || host.len() == 0 {
        host
    } else {
        host + ":"@ + numeral::decimal(https_port as nat)
    }
}

/// The answer that sends a client to the encrypted server.
pub open spec fn redirect_text(
    target: Seq<char>,
    h: Seq<(Seq<char>, Seq<char>)>,
    https_port: u16,
) -> Seq<char> {
    "HTTP/1.1 301 Moved Permanently\r\nLocation: https://"@ + authority(
        text::before(headers::header(h, "host"@), ':'),
        https_port,
    ) + target + "\r\nContent-Length: 0\r\nConnection: close\r\n\r\n"@
}

/// The answer that sends a client to the encrypted server.
pub fn redirect_one(target: &str, headers: &Vec<(String, String)>, https_port: u16) -> (r: String)
    ensures
        r@ == redirect_text(target@, headers::pairs(headers@), https_port),
{
    let host_header = headers::header_value(headers, "host");
    let cs = text::chars_of(host_header.as_str());
    let k = text::find_char(cs.as_slice(), ':');
    let mut place = text::string_of(slice_subrange(cs.as_slice(), 0, k));
    assert(place@ =~= text::before(host_header@, ':'));
    if https_port != 443 && !place.as_str().is_empty() {
        place.append(":");
        place.append(numeral::u64_to_string(https_port as u64).as_str());
    }
    let mut r = "HTTP/1.1 301 Moved Permanently\r\nLocation: https://".to_owned();
    r.append(place.as_str());
    r.append(target);
    r.append("\r\nContent-Length: 0\r\nConnection: close\r\n\r\n");
    r
}

/// The token of a certificate challenge, where the target is one.
pub open spec fn challenge(target: Seq<char>) -> Option<Seq<char>> {
    let path = url::target_path(target);
    let prefix = "/.well-known/acme-challenge/"@;
    if text::has_prefix(path, prefix) {
        Some(path.skip(prefix.len() as int))
    } else {
        None
    }
}

/// The token of a certificate challenge.
pub fn challenge_token(target: &str) -> (r: Option<String>)
    ensures
        text::maybe(r) == challenge(target@),
{
    let (path, _) = url::parse_path_query(target);
    let cs = text::chars_of(path.as_str());
    let prefix = text::chars_of("/.well-known/acme-challenge/");
    if text::starts_with(cs.as_slice(), prefix.as_slice()) {
        let rest = slice_subrange(cs.as_slice(), prefix.len(), cs.len());
        assert(rest@ =~= path@.skip(prefix@.len() as int));
        Some(text::string_of(rest))
    } else {
        None
    }
}

/// The answer to a challenge: the key authorization that is stored for its token, or that
/// there is none.
pub open spec fn challenge_text(stored: Option<Seq<char>>) -> Seq<char> {
    match stored {
        Some(key) => "HTTP/1.1 200 OK\r\nContent-Type: text/plain\r\nContent-Length: "@
            + numeral::decimal(encode_utf8(key).len()) + "\r\nConnection: close\r\n\r\n"@ + key,
        None => "HTTP/1.1 404 Not Found\r\nContent-Length: 0\r\nConnection: close\r\n\r\n"@,
    }
}

/// The answer to a challenge, with what is stored for its token.
pub fn challenge_reply(stored: Option<&str>) -> (r: String)
    ensures
        r@ == challenge_text(str_view(stored)),
{
    match stored {
        Some(key) => {
            let mut r = "HTTP/1.1 200 OK\r\nContent-Type: text/plain\r\nContent-Length: ".to_owned();
            r.append(numeral::u64_to_string(key.as_bytes().len() as u64).as_str());
            r.append("\r\nConnection: close\r\n\r\n");
            r.append(key);
            r
        },
        None => "HTTP/1.1 404 Not Found\r\nContent-Length: 0\r\nConnection: close\r\n\r\n".to_owned(),
    }
}

/// The answer of the plain listener beside an encrypted server: to a challenge with what is
/// stored for its token, to all else with the way to the encrypted server.
pub open spec fn acme_text(
    target: Seq<char>,
    h: Seq<(Seq<char>, Seq<char>)>,
    https_port: u16,
    stored: Option<Seq<char>>,
) -> Seq<char> {
    match challenge(target) {
        Some(_) => challenge_text(stored),
        None => redirect_text(target, h, https_port),
    }
}

/// The answer of the plain listener beside an encrypted server. `stored` is what is stored for
/// the token of the challenge, where the target is one.
pub fn acme_reply(
    target: &str,
    headers: &Vec<(String, String)>,
    https_port: u16,
    stored: Option<&str>,
) -> (r: String)
    ensures
        r@ == acme_text(target@, headers::pairs(headers@), https_port, str_view(stored)),
{
    match challenge_token(target) {
        Some(_) => challenge_reply(stored),
        None => redirect_one(target, headers, https_port),
    }
}

// ---------------------------------------------------------------------------
// Request heads
// ---------------------------------------------------------------------------

/// The head of a request.
pub struct RequestHead {
    pub method: String,
    pub target: String,
    pub version: String,
    pub headers: Vec<(String, String)>,
}

/// The mathematical content of a head.
pub struct HeadView {
    pub method: Seq<char>,
    pub target: Seq<char>,
    pub version: Seq<char>,
    pub headers: Seq<(Seq<char>, Seq<char>)>,
}

impl View for RequestHead {
    type V = HeadView;

    open spec fn view(&self) -> HeadView {
        HeadView {
            method: self.method@,
            target: self.target@,
            version: self.version@,
            headers: headers::pairs(self.headers@),
        }
    }
}

/// A line without its end.
pub open spec fn bare(line: Seq<char>) -> Seq<char> {
    text::trim_right(line, Trim::LineEnd)
}

/// The head that a request line begins, where it is one: the method, the target, and the
/// version, which may be missing.
pub open spec fn start_of(line: Seq<char>) -> Option<HeadView> {
    match text::cut(bare(line), ' ') {
        None => None,
        Some((method, rest)) => match text::cut(rest, ' ') {
            Some((target, version)) => Some(
                HeadView { method, target, version, headers: seq![] },
            ),
            None => Some(
                HeadView { method, target: rest, version: "HTTP/1.1"@, headers: seq![] },
            ),
        },
    }
}

/// The header in a line, where it is one.
pub open spec fn header_in(line: Seq<char>) -> Option<(Seq<char>, Seq<char>)> {
    match text::cut(bare(line), ':') {
        Some((k, v)) => Some((text::trimmed(k, Trim::Space), text::trimmed(v, Trim::Space))),
        None => None,
    }
}

/// What is known after a line.
pub enum HeadStep {
    /// The head goes on.
    More,
    /// The head is complete.
    Complete,
    /// There is no request.
    Fail,
}

/// A head that is being read.
pub struct HeadReader {
    pub head: Option<RequestHead>,
}

impl HeadReader {
    /// What has been read.
    pub open spec fn so_far(&self) -> Option<HeadView> {
        match self.head {
            Some(h) => Some(h@),
            None => None,
        }
    }
}

/// What is read after one more line, or after the end of the input.
pub open spec fn read_on(h: Option<HeadView>, line: Option<Seq<char>>) -> (
    Option<HeadView>,
    HeadStep,
) {
    match h {
        None => match line {
            None => (None, HeadStep::Fail),
            Some(l) => match start_of(l) {
                Some(head) => (Some(head), HeadStep::More),
                None => (None, HeadStep::Fail),
            },
        },
        Some(head) => match line {
            None => (h, HeadStep::Complete),
            Some(l) => if bare(l).len() == 0 {
                (h, HeadStep::Complete)
            } else {
                match header_in(l) {
                    Some(pair) => (
                        Some(HeadView { headers: head.headers.push(pair), ..head }),
                        HeadStep::More,
                    ),
                    None => (h, HeadStep::More),
                }
            },
        },
    }
}

fn parse_start(line: &str) -> (r: Option<RequestHead>)
    ensures
        match start_of(line@) {
            Some(h) => r matches Some(head) && head@ == h,
            None => r is None,
        },
{
    let cs = text::chars_of(line);
    let t = text::trim_end(cs.as_slice(), Trim::LineEnd);
    let k = text::find_char(t, ' ');
    if k == t.len() {
        return None;
    }
    let method = text::string_of(slice_subrange(t, 0, k));
    let rest = slice_subrange(t, k + 1, t.len());
    assert(rest@ =~= t@.skip(k + 1));
    let j = text::find_char(rest, ' ');
    let headers = headers::new_headers();
    if j == rest.len() {
        let target = text::string_of(rest);
        Some(RequestHead { method, target, version: "HTTP/1.1".to_owned(), headers })
    } else {
        let target = text::string_of(slice_subrange(rest, 0, j));
        let version = text::string_of(slice_subrange(rest, j + 1, rest.len()));
        assert(version@ =~= rest@.skip(j + 1));
        Some(RequestHead { method, target, version, headers })
    }
}

impl HeadReader {
    /// Nothing has been read.
    pub fn new() -> (r: Self)
        ensures
            r.so_far() is None,
    {
        HeadReader { head: None }
    }

    /// Takes the next line with its end, or the end of the input.
    pub fn feed(&mut self, line: Option<&str>) -> (r: HeadStep)
        ensures
            (final(self).so_far(), r) == read_on(old(self).so_far(), str_view(line)),
    {
        match &mut self.head {
            None => match line {
                None => HeadStep::Fail,
                Some(l) => {
                    let start = parse_start(l);
                    if start.is_none() {
                        return HeadStep::Fail;
                    }
                    self.head = start;
                    HeadStep::More
                },
            },
            Some(head) => match line {
                None => HeadStep::Complete,
                Some(l) => {
                    let cs = text::chars_of(l);
                    let t = text::trim_end(cs.as_slice(), Trim::LineEnd);
                    if t.len() == 0 {
                        return HeadStep::Complete;
                    }
                    let k = text::find_char(t, ':');
                    if k < t.len() {
                        let name = text::trim(slice_subrange(t, 0, k), Trim::Space);
                        let after = slice_subrange(t, k + 1, t.len());
                        assert(after@ =~= t@.skip(k + 1));
                        let val = text::trim(after, Trim::Space);
                        let key = text::string_of(name);
                        headers::push_header(
                            &mut head.headers,
                            key.as_str(),
                            text::string_of(val),
                        );
                    }
                    HeadStep::More
                },
            },
        }
    }
}

/// The head that lines begin, read until it is complete or the lines end.
pub open spec fn head_of(h: Option<HeadView>, lines: Seq<Seq<char>>) -> Option<HeadView>
    decreases lines.len(),
{
    if lines.len() == 0 {
        h
    } else {
        let (next, step) = read_on(h, Some(lines[0]));
        match step {
            HeadStep::More => head_of(next, lines.drop_first()),
            HeadStep::Complete => next,
            HeadStep::Fail => None,
        }
    }
}

/// Reads the head of a request from lines with their ends. The input ends with them.
pub fn read_request_head(lines: &Vec<String>) -> (r: Option<RequestHead>)
    ensures
        match head_of(None, text::texts(lines@)) {
            Some(h) => r matches Some(head) && head@ == h,
            None => r is None,
        },
{
    let mut reader = HeadReader::new();
    let ghost all = text::texts(lines@);
    let mut i: usize = 0;
    assert(all.skip(0) =~= all);
    while i < lines.len()
        invariant
            i <= lines@.len(),
            all == text::texts(lines@),
            head_of(None, all) == head_of(reader.so_far(), all.skip(i as int)),
        decreases lines.len() - i,
    {
        let ghost rest = all.skip(i as int);
        assert(rest[0] == lines@[i as int]@);
        assert(rest.drop_first() =~= all.skip(i + 1));
        match reader.feed(Some(lines[i].as_str())) {
            HeadStep::More => {},
            HeadStep::Complete => {
                return reader.head;
            },
            HeadStep::Fail => {
                return None;
            },
        }
        i = i + 1;
    }
    reader.head
}

proof fn lemma_head_keeps_start(h: HeadView, lines: Seq<Seq<char>>)
    ensures
        head_of(Some(h), lines) matches Some(r) && r.method == h.method && r.target == h.target
            && r.version == h.version && h.headers.is_prefix_of(r.headers),
    decreases lines.len(),
{
    if lines.len() > 0 {
        let (next, step) = read_on(Some(h), Some(lines[0]));
        if step is More {
            lemma_head_keeps_start(next->0, lines.drop_first());
            let r = head_of(next, lines.drop_first())->0;
            assert(h.headers.is_prefix_of(next->0.headers));
            assert(h.headers.is_prefix_of(r.headers));
        }
    }
}

/// Whatever headers follow, the method, the target and the version are those of the request
/// line; there is no request exactly where the first line is none.
pub proof fn law_request_line_decides(lines: Seq<Seq<char>>)
    ensures
        lines.len() > 0 ==> match start_of(lines[0]) {
            Some(start) => head_of(None, lines) matches Some(r) && r.method == start.method
                && r.target == start.target && r.version == start.version,
            None => head_of(None, lines) is None,
        },
        lines.len() == 0 ==> head_of(None, lines) is None,
{
    if lines.len() > 0 {
        if let Some(start) = start_of(lines[0]) {
            lemma_head_keeps_start(start, lines.drop_first());
        }
    }
}

proof fn lemma_header_lines_laid(h: Seq<(Seq<char>, Seq<char>)>)
    ensures
        header_lines(h) == h.map_values(
            |p: (Seq<char>, Seq<char>)| p.0 + seq![':', ' '] + p.1 + seq!['\r', '\n'],
        ).flatten(),
    decreases h.len(),
{
    let f = |p: (Seq<char>, Seq<char>)| p.0 + seq![':', ' '] + p.1 + seq!['\r', '\n'];
    reveal_strlit(": ");
    reveal_strlit("\r\n");
    assert(": "@ =~= seq![':', ' ']);
    assert("\r\n"@ =~= seq!['\r', '\n']);
    if h.len() > 0 {
        let before = h.drop_last();
        let line = h.last().0 + seq![':', ' '] + h.last().1 + seq!['\r', '\n'];
        lemma_header_lines_laid(before);
        assert(h.map_values(f) =~= before.map_values(f).push(line));
        before.map_values(f).lemma_flatten_push(line);
        assert(header_lines(h) =~= header_lines(before) + line);
    } else {
        assert(h.map_values(f) =~= Seq::<Seq<char>>::empty());
        assert(h.map_values(f).flatten() =~= Seq::<char>::empty());
    }
}

/// The head of a response is a line with the version, the status and its reason, a line for
/// each header, in order, with its name and its value, and an empty line.
pub proof fn law_head_is_status_and_headers(status: u16, h: Seq<(Seq<char>, Seq<char>)>)
    ensures
        head_text(status, h) == seq!['H', 'T', 'T', 'P', '/', '1', '.', '1', ' ']
            + numeral::decimal(status as nat) + seq![' '] + reason_phrase(status) + seq!['\r', '\n']
            + h.map_values(
            |p: (Seq<char>, Seq<char>)| p.0 + seq![':', ' '] + p.1 + seq!['\r', '\n'],
        ).flatten() + seq!['\r', '\n'],
{
    lemma_header_lines_laid(h);
    reveal_strlit("HTTP/1.1 ");
    reveal_strlit(" ");
    reveal_strlit("\r\n");
    assert("HTTP/1.1 "@ =~= seq!['H', 'T', 'T', 'P', '/', '1', '.', '1', ' ']);
    assert(" "@ =~= seq![' ']);
    assert("\r\n"@ =~= seq!['\r', '\n']);
}

/// The headers of a response, in order: the type and the length of its body, that the
/// connection is closed where it is, the origin that is admitted where one is, that encrypted
/// connections are asked for where they are, and those of its own.
pub proof fn law_headers_of_a_response(
    body: BodyView,
    extra: Seq<(Seq<char>, Seq<char>)>,
    close: bool,
    cors: Option<Seq<char>>,
    hsts: bool,
)
    ensures
        ({
            let all = response_headers(body, extra, close, cors, hsts);
            let a = if close {
                3int
            } else {
                2
            };
            let b = a + if cors is Some {
                1int
            } else {
                0
            };
            let c = b + if hsts {
                1int
            } else {
                0
            };
            &&& all.len() == c + extra.len()
            &&& all[0] == (
                "Content-Type"@,
                match body {
                    BodyView::Json(_) => "application/json"@,
                    BodyView::Raw(r) => r.content_type,
                },
            )
            &&& all[1] == (
                "Content-Length"@,
                numeral::decimal(
                    match body {
                        BodyView::Json(j) => encode_utf8(json::dumped(j)).len(),
                        BodyView::Raw(r) => r.body.len(),
                    },
                ),
            )
            &&& close ==> all[2] == ("Connection"@, "close"@)
            &&& cors matches Some(o) ==> all[a] == ("Access-Control-Allow-Origin"@, o)
            &&& hsts ==> all[b] == (
                "Strict-Transport-Security"@,
                "max-age=31536000; includeSubDomains"@,
            )
            &&& all.skip(c) == extra
        }),
{
    let all = response_headers(body, extra, close, cors, hsts);
    let c = all.len() - extra.len();
    assert(all.skip(c) =~= extra);
}

/// A response is its head and, where it is asked for, the bytes of its body: a document in
/// UTF-8, raw content as it is.
pub proof fn law_response_is_head_and_body(
    status: u16,
    body: BodyView,
    extra: Seq<(Seq<char>, Seq<char>)>,
    close: bool,
    cors: Option<Seq<char>>,
    write_body: bool,
    hsts: bool,
)
    ensures
        response_bytes(status, body, extra, close, cors, write_body, hsts) == encode_utf8(
            head_text(status, response_headers(body, extra, close, cors, hsts)),
        ) + (if write_body {
            match body {
                BodyView::Json(j) => encode_utf8(json::dumped(j)),
                BodyView::Raw(r) => r.body,
            }
        } else {
            seq![]
        }),
{
}

/// A path that a route of some method answers has options: those methods, OPTIONS and HEAD, in
/// order and separated by commas, and where an origin is admitted what it may do. Any other
/// path is answered 404.
pub proof fn law_options_are_answered(rt: ServeRuntime, path: Seq<char>, l: Seq<Seq<char>>, m: Seq<char>)
    requires
        lists_options(rt.default_host.routes@, path, l),
    ensures
        (forall|x: Seq<char>| #[trigger]
            host::first_route(rt.default_host.routes@, x, path, 0) is None) ==> options_bytes(
            rt,
            path,
        ) == response_bytes(
            404,
            BodyView::Json(
                JsonTree::Object(
                    seq![
                        ("error"@, JsonTree::Str("no route for "@ + path)),
                        ("status"@, JsonTree::Int(404)),
                    ],
                ),
            ),
            seq![],
            false,
            text::maybe(rt.cors_origin),
            true,
            rt.tls_enabled,
        ),
        host::first_route(rt.default_host.routes@, m, path, 0) is Some ==> l.contains(m)
            && l.contains("OPTIONS"@) && l.contains("HEAD"@) && options_bytes(rt, path)
            == encode_utf8(
            head_text(
                204,
                seq![("Allow"@, text::joined(l, ", "@)), ("Content-Length"@, "0"@)] + (
                if rt.cors_origin is Some {
                    seq![
                        ("Access-Control-Allow-Origin"@, rt.cors_origin->0@),
                        ("Access-Control-Allow-Methods"@, text::joined(l, ", "@)),
                        ("Access-Control-Allow-Headers"@, "Content-Type, Authorization"@),
                        ("Access-Control-Max-Age"@, "86400"@),
                    ]
                } else {
                    seq![]
                }) + (if rt.tls_enabled {
                    seq![
                        (
                            "Strict-Transport-Security"@,
                            "max-age=31536000; includeSubDomains"@,
                        ),
                    ]
                } else {
                    seq![]
                }),
            ),
        ),
{
    let routes = rt.default_host.routes@;
    law_options_are_unique(routes, path, l);
    host::law_methods_are_listed(routes, path);
    let allowed = host::methods_of(routes, path);
    if forall|x: Seq<char>| #[trigger] host::first_route(routes, x, path, 0) is None {
        if allowed.len() > 0 {
            assert(allowed.contains(allowed[0]));
            host::law_methods_are_those_that_answer(routes, path, allowed[0]);
        }
    }
    if host::first_route(routes, m, path, 0) is Some {
        host::law_methods_are_those_that_answer(routes, path, m);
        assert(allowed.contains(m));
        assert(allowed.len() > 0);
        assert(l.contains("OPTIONS"@) && l.contains("HEAD"@));
        let allow = text::joined(l, ", "@);
        assert(options_headers(allow, text::maybe(rt.cors_origin), rt.tls_enabled) =~= seq![
            ("Allow"@, allow),
            ("Content-Length"@, "0"@),
        ] + (if rt.cors_origin is Some {
            seq![
                ("Access-Control-Allow-Origin"@, rt.cors_origin->0@),
                ("Access-Control-Allow-Methods"@, allow),
                ("Access-Control-Allow-Headers"@, "Content-Type, Authorization"@),
                ("Access-Control-Max-Age"@, "86400"@),
            ]
        } else {
            seq![]
        }) + (if rt.tls_enabled {
            seq![("Strict-Transport-Security"@, "max-age=31536000; includeSubDomains"@)]
        } else {
            seq![]
        }));
    }
}

/// An event is its name, where it has one, and its data, each on a line, and an empty line. The
/// data stand on one line whatever they hold, so that a reader finds them whole.
pub proof fn law_events_are_lines(event: Option<Seq<char>>, data: JsonTree, message: Seq<char>)
    ensures
        event_text(None, data) == seq!['d', 'a', 't', 'a', ':', ' '] + json::dumped(data) + seq![
            '\n',
            '\n',
        ],
        event matches Some(e) ==> event_text(event, data) == seq!['e', 'v', 'e', 'n', 't', ':', ' ']
            + e + seq!['\n'] + event_text(None, data),
        json::numbers_are_printable(data) ==> forall|i: int|
            0 <= i < json::dumped(data).len() ==> #[trigger] json::dumped(data)[i] != '\n'
                && json::dumped(data)[i] != '\r',
        failure_event(message) == event_text(
            Some(seq!['e', 'r', 'r', 'o', 'r']),
            JsonTree::Object(seq![("error"@, JsonTree::Str(message))]),
        ),
{
    reveal_strlit("data: ");
    reveal_strlit("event: ");
    reveal_strlit("\n");
    reveal_strlit("\n\n");
    reveal_strlit("error");
    assert("data: "@ =~= seq!['d', 'a', 't', 'a', ':', ' ']);
    assert("event: "@ =~= seq!['e', 'v', 'e', 'n', 't', ':', ' ']);
    assert("\n"@ =~= seq!['\n']);
    assert("\n\n"@ =~= seq!['\n', '\n']);
    assert("error"@ =~= seq!['e', 'r', 'r', 'o', 'r']);
    let none = Seq::<char>::empty();
    assert(none + "data: "@ =~= "data: "@);
    if let Some(e) = event {
        assert(event_text(event, data) =~= "event: "@ + e + "\n"@ + event_text(None, data));
    }
    if json::numbers_are_printable(data) {
        json::law_documents_are_ascii(data);
        assert forall|i: int| 0 <= i < json::dumped(data).len() implies #[trigger] json::dumped(
            data,
        )[i] != '\n' && json::dumped(data)[i] != '\r' by {
            assert(' ' <= json::dumped(data)[i]);
        }
    }
}

/// The head of an event stream says that it is one, that it is not to be stored or held back,
/// and that the connection ends with it.
pub proof fn law_headers_of_a_stream(cors: Option<Seq<char>>, hsts: bool)
    ensures
        ({
            let all = stream_headers(cors, hsts);
            &&& all.len() == 4 + (if cors is Some {
                1int
            } else {
                0
            }) + (if hsts {
                1int
            } else {
                0
            })
            &&& all[0] == ("Content-Type"@, "text/event-stream"@)
            &&& all[1] == ("Cache-Control"@, "no-cache"@)
            &&& all[2] == ("X-Accel-Buffering"@, "no"@)
            &&& all[3] == ("Connection"@, "close"@)
            &&& cors matches Some(o) ==> all[4] == ("Access-Control-Allow-Origin"@, o)
            &&& hsts ==> all.last() == (
                "Strict-Transport-Security"@,
                "max-age=31536000; includeSubDomains"@,
            )
        }),
{
}

/// A client is sent to the encrypted server of the host that it named, without its port, for
/// the same target; another port than the usual one is named.
pub proof fn law_redirect_keeps_host_and_target(
    name: Seq<char>,
    port: Seq<char>,
    target: Seq<char>,
    h: Seq<(Seq<char>, Seq<char>)>,
    https_port: u16,
)
    requires
        name.len() > 0,
        forall|i: int| 0 <= i < name.len() ==> name[i] != ':',
        headers::header(h, "host"@) == name || headers::header(h, "host"@) == name + seq![':'] + port,
    ensures
        redirect_text(target, h, https_port)
            == "HTTP/1.1 301 Moved Permanently\r\nLocation: https://"@ + name + (if https_port
            == 443 {
            seq![]
        } else {
            seq![':'] + numeral::decimal(https_port as nat)
        }) + target + "\r\nContent-Length: 0\r\nConnection: close\r\n\r\n"@,
{
    text::law_text_is_cut_at_the_first(name, ':', port);
    reveal_strlit(":");
    assert(":"@ =~= seq![':']);
    let start = "HTTP/1.1 301 Moved Permanently\r\nLocation: https://"@;
    let p = if https_port == 443 {
        seq![]
    } else {
        seq![':'] + numeral::decimal(https_port as nat)
    };
    assert(start + authority(name, https_port) =~= start + name + p);
}

/// A target below the path for challenges names a token; it is answered with the key that is
/// stored for it, with its length, or 404. Any other target is sent to the encrypted server.
pub proof fn law_challenges_are_answered(
    token: Seq<char>,
    target: Seq<char>,
    h: Seq<(Seq<char>, Seq<char>)>,
    https_port: u16,
    key: Seq<char>,
)
    requires
        forall|i: int| 0 <= i < token.len() ==> #[trigger] token[i] != '?' && token[i] != '#',
    ensures
        challenge("/.well-known/acme-challenge/"@ + token) == Some(token),
        !text::has_prefix(url::target_path(target), "/.well-known/acme-challenge/"@) ==> challenge(
            target,
        ) is None && acme_text(target, h, https_port, Some(key)) == redirect_text(
            target,
            h,
            https_port,
        ),
        challenge(target) is Some ==> acme_text(target, h, https_port, Some(key))
            == "HTTP/1.1 200 OK\r\nContent-Type: text/plain\r\nContent-Length: "@
            + numeral::decimal(encode_utf8(key).len()) + "\r\nConnection: close\r\n\r\n"@ + key
            && acme_text(target, h, https_port, None)
            == "HTTP/1.1 404 Not Found\r\nContent-Length: 0\r\nConnection: close\r\n\r\n"@,
{
    let prefix = "/.well-known/acme-challenge/"@;
    reveal_strlit("/.well-known/acme-challenge/");
    let all = prefix + token;
    assert forall|i: int| 0 <= i < all.len() implies #[trigger] all[i] != '?' && all[i] != '#' by {
        if i < prefix.len() {
            assert(all[i] == prefix[i]);
        } else {
            assert(all[i] == token[i - prefix.len()]);
        }
    }
    url::law_target_is_path_and_query(all, seq![]);
    assert(all.take(prefix.len() as int) =~= prefix);
    assert(all.skip(prefix.len() as int) =~= token);
}

/// The text holds no line end, and is not empty.
pub open spec fn is_word_of_line(s: Seq<char>) -> bool {
    s.len() > 0 && forall|i: int| 0 <= i < s.len() ==> #[trigger] s[i] != '\r' && s[i] != '\n'
}

/// The header can stand on a line: its name has no colon, and white space neither begins nor
/// ends its name or its value.
pub open spec fn is_plain_header(p: (Seq<char>, Seq<char>)) -> bool {
    &&& is_word_of_line(p.0)
    &&& forall|i: int| 0 <= i < p.0.len() ==> #[trigger] p.0[i] != ':'
    &&& !text::is_space(p.0[0]) && !text::is_space(p.0.last())
    &&& p.1.len() > 0 ==> is_word_of_line(p.1) && !text::is_space(p.1[0]) && !text::is_space(
        p.1.last(),
    )
}

/// A header as it stands on a line.
pub open spec fn header_line(p: (Seq<char>, Seq<char>)) -> Seq<char> {
    p.0 + seq![':', ' '] + p.1 + seq!['\r', '\n']
}

proof fn lemma_bare_line(s: Seq<char>)
    requires
        s.len() > 0,
        s.last() != '\r',
        s.last() != '\n',
    ensures
        bare(s + seq!['\r', '\n']) == s,
{
    let all = s + seq!['\r', '\n'];
    assert(all[s.len() - 1] == s.last());
    text::lemma_trim_right(all, Trim::LineEnd, s.len() as int);
    assert(all.take(s.len() as int) =~= s);
}

proof fn lemma_header_read(p: (Seq<char>, Seq<char>))
    requires
        is_plain_header(p),
    ensures
        header_in(header_line(p)) == Some(p),
        bare(header_line(p)).len() > 0,
{
    let s = p.0 + seq![':', ' '] + p.1;
    assert(s.last() == if p.1.len() > 0 {
        p.1.last()
    } else {
        ' '
    });
    lemma_bare_line(s);
    let rest = seq![' '] + p.1;
    assert(s =~= p.0 + seq![':'] + rest);
    text::law_text_is_cut_at_the_first(p.0, ':', rest);
    text::lemma_trimmed_same(p.0, Trim::Space);
    let none = Seq::<char>::empty();
    let gap = seq![' '];
    assert(text::is_space(gap[0]));
    if p.1.len() > 0 {
        text::law_trimming_undoes_padding(gap, p.1, none, Trim::Space);
        assert(gap + p.1 + none =~= rest);
    } else {
        text::law_trimming_undoes_padding(gap, seq!['x'], none, Trim::Space);
        assert(rest =~= gap);
        assert(text::trimmed(rest, Trim::Space) =~= p.1);
    }
}

proof fn lemma_headers_read(head: HeadView, hs: Seq<(Seq<char>, Seq<char>)>, more: Seq<Seq<char>>)
    requires
        forall|i: int| 0 <= i < hs.len() ==> is_plain_header(#[trigger] hs[i]),
    ensures
        head_of(
            Some(head),
            hs.map_values(|p: (Seq<char>, Seq<char>)| header_line(p)) + seq![seq!['\r', '\n']] + more,
        ) == Some(HeadView { headers: head.headers + hs, ..head }),
    decreases hs.len(),
{
    let f = |p: (Seq<char>, Seq<char>)| header_line(p);
    let end = seq![seq!['\r', '\n']];
    let lines = hs.map_values(f) + end + more;
    if hs.len() > 0 {
        let rest = hs.drop_first();
        let next = HeadView { headers: head.headers.push(hs[0]), ..head };
        assert(is_plain_header(hs[0]));
        lemma_header_read(hs[0]);
        assert(lines[0] == header_line(hs[0]));
        assert forall|i: int| 0 <= i < rest.len() implies is_plain_header(#[trigger] rest[i]) by {
            assert(rest[i] == hs[i + 1]);
        }
        lemma_headers_read(next, rest, more);
        assert(lines.drop_first() =~= rest.map_values(f) + end + more);
        assert(head.headers.push(hs[0]) + rest =~= head.headers + hs);
    } else {
        let line = seq!['\r', '\n'];
        assert(lines[0] == line);
        text::lemma_trim_right(line, Trim::LineEnd, 0);
        assert(line.take(0) =~= Seq::<char>::empty());
        assert(head.headers + hs =~= head.headers);
    }
}

/// A head that was written line by line is read back: the method, the target and the version
/// of its first line and its headers, in order, up to the empty line, whatever follows that. A
/// first line without a version is one of version 1.1.
pub proof fn law_heads_are_read_back(head: HeadView, more: Seq<Seq<char>>)
    requires
        forall|i: int| 0 <= i < head.method.len() ==> #[trigger] head.method[i] != ' ',
        forall|i: int| 0 <= i < head.target.len() ==> #[trigger] head.target[i] != ' ',
        is_word_of_line(head.version),
        is_word_of_line(head.target),
        forall|i: int| 0 <= i < head.headers.len() ==> is_plain_header(#[trigger] head.headers[i]),
    ensures
        ({
            let rest = head.headers.map_values(
                |p: (Seq<char>, Seq<char>)| header_line(p),
            ) + seq![seq!['\r', '\n']] + more;
            let line = head.method + seq![' '] + head.target + seq![' '] + head.version + seq![
                '\r',
                '\n',
            ];
            let bare_line = head.method + seq![' '] + head.target + seq!['\r', '\n'];
            &&& head_of(None, seq![line] + rest) == Some(head)
            &&& head_of(None, seq![bare_line] + rest) == Some(
                HeadView { version: "HTTP/1.1"@, ..head },
            )
        }),
{
    let f = |p: (Seq<char>, Seq<char>)| header_line(p);
    let rest = head.headers.map_values(f) + seq![seq!['\r', '\n']] + more;
    let tail = head.target + seq![' '] + head.version;
    let whole = head.method + seq![' '] + tail;
    let line = head.method + seq![' '] + head.target + seq![' '] + head.version + seq!['\r', '\n'];
    assert(line =~= whole + seq!['\r', '\n']);
    assert(whole.last() == head.version.last());
    lemma_bare_line(whole);
    text::law_text_is_cut_at_the_first(head.method, ' ', tail);
    text::law_text_is_cut_at_the_first(head.target, ' ', head.version);
    let none = Seq::<(Seq<char>, Seq<char>)>::empty();
    let start = HeadView { headers: none, ..head };
    assert(start_of(line) == Some(start));
    lemma_headers_read(start, head.headers, more);
    assert(none + head.headers =~= head.headers);
    let lines = seq![line] + rest;
    assert(lines[0] == line);
    assert(lines.drop_first() =~= rest);
    let short = head.method + seq![' '] + head.target;
    let bare_line = short + seq!['\r', '\n'];
    assert(short.last() == head.target.last());
    lemma_bare_line(short);
    text::law_text_is_cut_at_the_first(head.method, ' ', head.target);
    let start2 = HeadView { version: "HTTP/1.1"@, headers: none, ..head };
    assert(start_of(bare_line) == Some(start2));
    lemma_headers_read(start2, head.headers, more);
    let lines2 = seq![bare_line] + rest;
    assert(lines2[0] == bare_line);
    assert(lines2.drop_first() =~= rest);
}

/// A line that is no header is passed over, and the end of the input ends the head.
pub proof fn law_other_lines_are_passed_over(head: HeadView, line: Seq<char>)
    ensures
        bare(line).len() > 0 && text::cut(bare(line), ':') is None ==> read_on(
            Some(head),
            Some(line),
        ).0 == Some(head) && read_on(Some(head), Some(line)).1 is More,
        read_on(Some(head), None).0 == Some(head),
        read_on(Some(head), None).1 is Complete,
        read_on(None, None).1 is Fail,
{
}

/// The statuses that the server gives of itself have the reasons of the protocol.
pub proof fn law_reasons_of_the_servers_statuses(status: u16)
    ensures
        status == 200 ==> reason_phrase(status) == "OK"@,
        status == 201 ==> reason_phrase(status) == "Created"@,
        status == 204 ==> reason_phrase(status) == "No Content"@,
        status == 206 ==> reason_phrase(status) == "Partial Content"@,
        status == 301 ==> reason_phrase(status) == "Moved Permanently"@,
        status == 304 ==> reason_phrase(status) == "Not Modified"@,
        status == 400 ==> reason_phrase(status) == "Bad Request"@,
        status == 401 ==> reason_phrase(status) == "Unauthorized"@,
        status == 403 ==> reason_phrase(status) == "Forbidden"@,
        status == 404 ==> reason_phrase(status) == "Not Found"@,
        status == 405 ==> reason_phrase(status) == "Method Not Allowed"@,
        status == 409 ==> reason_phrase(status) == "Conflict"@,
        status == 413 ==> reason_phrase(status) == "Request Entity Too Large"@,
        status == 416 ==> reason_phrase(status) == "Requested Range Not Satisfiable"@,
        status == 422 ==> reason_phrase(status) == "Unprocessable Entity"@,
        status == 429 ==> reason_phrase(status) == "Too Many Requests"@,
        status == 500 ==> reason_phrase(status) == "Internal Server Error"@,
        status == 503 ==> reason_phrase(status) == "Service Unavailable"@,
        status < 100 || status > 511 ==> reason_phrase(status) == ""@,
{
}

/// What is viewed of a head and of a reader is what they hold.
pub proof fn law_heads_are_viewed(h: RequestHead, r: HeadReader)
    ensures
        h@.method == h.method@,
        h@.target == h.target@,
        h@.version == h.version@,
        h@.headers == headers::pairs(h.headers@),
        r.head matches Some(x) ==> r.so_far() == Some(x@),
        r.head is None ==> r.so_far() is None,
{
}

/// A line with a colon is a header: its name stands before the first colon, its value after it,
/// both without the spaces around them, and it comes after those that were read before.
pub proof fn law_header_lines_are_cut_at_the_colon(head: HeadView, name: Seq<char>, value: Seq<char>)
    requires
        forall|i: int| 0 <= i < name.len() ==> #[trigger] name[i] != ':',
        value.len() > 0 ==> value.last() != '\r' && value.last() != '\n',
    ensures
        ({
            let r = read_on(Some(head), Some(name + seq![':'] + value + seq!['\r', '\n']));
            &&& r.1 is More
            &&& r.0 == Some(
                HeadView {
                    headers: head.headers.push(
                        (text::trimmed(name, Trim::Space), text::trimmed(value, Trim::Space)),
                    ),
                    ..head
                },
            )
        }),
{
    let whole = name + seq![':'] + value;
    assert(whole.last() == if value.len() > 0 { value.last() } else { ':' });
    lemma_bare_line(whole);
    text::law_text_is_cut_at_the_first(name, ':', value);
}

/// A request that names no host is sent to the target alone, with no port.
pub proof fn law_redirect_without_a_host(
    target: Seq<char>,
    h: Seq<(Seq<char>, Seq<char>)>,
    https_port: u16,
)
    requires
        headers::header(h, "host"@).len() == 0,
    ensures
        redirect_text(target, h, https_port)
            == "HTTP/1.1 301 Moved Permanently\r\nLocation: https://"@ + target
            + "\r\nContent-Length: 0\r\nConnection: close\r\n\r\n"@,
{
    let none = headers::header(h, "host"@);
    assert(text::before(none, ':') =~= seq![]);
    let start = "HTTP/1.1 301 Moved Permanently\r\nLocation: https://"@;
    assert(start + authority(seq![], https_port) =~= start);
}

} // verus!
