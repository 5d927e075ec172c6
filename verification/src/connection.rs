//! The course of one request on a connection.

use indexmap::IndexMap;
use vstd::prelude::*;
use vstd::utf8::*;

use crate::dispatch::Request;
use crate::dispatch::RequestView;
use crate::headers;
use crate::json::JsonTree;
use crate::numeral;
use crate::outside;
use crate::respond::BodyView;
use crate::runtime;
use crate::runtime::ServeRuntime;
use crate::text;
use crate::url;
use crate::wire;
use crate::wire::HeadView;
use crate::wire::RequestHead;

verus! {

/// The connection is closed after the response: on request, and in version 1.0 unless it is
/// to be kept.
pub open spec fn closes(version: Seq<char>, h: Seq<(Seq<char>, Seq<char>)>) -> bool {
    let wish = outside::lowercase(headers::header(h, "connection"@));
    if version == "HTTP/1.0"@ {
        wish != "keep-alive"@
    } else {
        wish == "close"@
    }
}

/// Whether the connection is closed after the response.
pub fn wants_close(version: &str, headers: &Vec<(String, String)>) -> (r: bool)
    ensures
        r == closes(version@, headers::pairs(headers@)),
{
    let wish = headers::header_value(headers, "connection");
    let lower = outside::to_lowercase(wish.as_str());
    if text::str_eq(version, "HTTP/1.0") {
        !text::str_eq(lower.as_str(), "keep-alive")
    } else {
        text::str_eq(lower.as_str(), "close")
    }
}

/// What is to be done for a request.
pub enum RequestPlan {
    /// Answer with the options of the path.
    Options { path: String, close: bool },
    /// Read the body and dispatch. A request for the head alone is dispatched like one for
    /// the whole, and its body is not written.
    Serve {
        method: String,
        write_body: bool,
        path: String,
        query: IndexMap<String, String>,
        close: bool,
    },
}

/// The mathematical content of a plan.
pub enum PlanView {
    Options { path: Seq<char>, close: bool },
    Serve {
        method: Seq<char>,
        write_body: bool,
        path: Seq<char>,
        query: Seq<(Seq<char>, Seq<char>)>,
        close: bool,
    },
}

impl View for RequestPlan {
    type V = PlanView;

    open spec fn view(&self) -> PlanView {
        match *self {
            RequestPlan::Options { path, close } => PlanView::Options { path: path@, close },
            RequestPlan::Serve { method, write_body, path, query, close } => PlanView::Serve {
                method: method@,
                write_body,
                path: path@,
                query: outside::entries(query),
                close,
            },
        }
    }
}

/// The plan for a request.
pub open spec fn plan(head: HeadView) -> PlanView {
    let path = url::target_path(head.target);
    let close = closes(head.version, head.headers);
    if head.method == "OPTIONS"@ {
        PlanView::Options { path, close }
    } else {
        PlanView::Serve {
            method: if head.method == "HEAD"@ {
                "GET"@
            } else {
                head.method
            },
            write_body: head.method != "HEAD"@,
            path,
            query: url::target_query(head.target),
            close,
        }
    }
}

/// Plans what is to be done for a request.
pub fn plan_request(head: &RequestHead) -> (r: RequestPlan)
    ensures
        r@ == plan(head@),
{
    let close = wants_close(head.version.as_str(), &head.headers);
    let (path, query) = url::parse_path_query(head.target.as_str());
    if text::str_eq(head.method.as_str(), "OPTIONS") {
        return RequestPlan::Options { path, close };
    }
    if text::str_eq(head.method.as_str(), "HEAD") {
        RequestPlan::Serve { method: "GET".to_owned(), write_body: false, path, query, close }
    } else {
        RequestPlan::Serve {
            method: head.method.as_str().to_owned(),
            write_body: true,
            path,
            query,
            close,
        }
    }
}

/// What answers a request whose body is too large.
pub open spec fn too_large_bytes(rt: ServeRuntime, write_body: bool) -> Seq<u8> {
    wire::response_bytes(
        413,
        runtime::error_view("payload too large"@, 413),
        seq![],
        true,
        text::maybe(rt.cors_origin),
        write_body,
        rt.tls_enabled,
    )
}

/// What answers a request whose body is too large; the connection is closed after it, since
/// the rest of the body is still to come.
pub fn too_large_response(rt: &ServeRuntime, write_body: bool) -> (r: Vec<u8>)
    ensures
        r@ == too_large_bytes(*rt, write_body),
        r@ == wire::response_bytes(
            413,
            runtime::error_view("payload too large"@, 413),
            seq![],
            true,
            text::maybe(rt.cors_origin),
            write_body,
            rt.tls_enabled,
        ),
{
    wire::write_response(
        413,
        runtime::error_body("payload too large", 413),
        &headers::new_headers(),
        true,
        rt.cors_origin(),
        write_body,
        rt.tls_enabled,
    )
}

/// The request with a body that is in memory: its bytes as text.
pub fn request_with_bytes(
    method: String,
    path: String,
    query: IndexMap<String, String>,
    headers: Vec<(String, String)>,
    body: &Vec<u8>,
    client_ip: &str,
) -> (r: Request)
    ensures
        r@ == planned_request(
            PlanView::Serve {
                method: method@,
                write_body: true,
                path: path@,
                query: outside::entries(query),
                close: false,
            },
            headers::pairs(headers@),
            outside::utf8_lossy(body@),
            None,
            client_ip@,
        ),
        r@ == (RequestView {
            method: method@,
            path: path@,
            query: outside::entries(query),
            headers: headers::pairs(headers@),
            body: outside::utf8_lossy(body@),
            body_file: None,
            client_ip: client_ip@,
        }),
{
    Request {
        method,
        path,
        query,
        headers,
        body: outside::from_utf8_lossy(body.as_slice()),
        body_file: None,
        client_ip: client_ip.to_owned(),
    }
}

/// The request with a body that is in a file: its text is empty.
pub fn request_with_file(
    method: String,
    path: String,
    query: IndexMap<String, String>,
    headers: Vec<(String, String)>,
    file: String,
    client_ip: &str,
) -> (r: Request)
    ensures
        r@ == planned_request(
            PlanView::Serve {
                method: method@,
                write_body: true,
                path: path@,
                query: outside::entries(query),
                close: false,
            },
            headers::pairs(headers@),
            seq![],
            Some(file@),
            client_ip@,
        ),
        r@ == (RequestView {
            method: method@,
            path: path@,
            query: outside::entries(query),
            headers: headers::pairs(headers@),
            body: seq![],
            body_file: Some(file@),
            client_ip: client_ip@,
        }),
{
    Request {
        method,
        path,
        query,
        headers,
        body: String::new(),
        body_file: Some(file),
        client_ip: client_ip.to_owned(),
    }
}

/// How an exchange on a connection ended.
#[derive(Clone, Copy, Debug, PartialEq, Eq, Structural)]
pub enum Exchange {
    /// The options of the path were sent.
    Options,
    /// The body was too large.
    TooLarge,
    /// A response was sent.
    Response,
    /// The connection became an event stream.
    Stream,
}

/// The connection stays open for another request.
pub open spec fn keeps_open(outcome: Exchange, close: bool) -> bool {
    match outcome {
        Exchange::TooLarge | Exchange::Stream => false,
        Exchange::Options | Exchange::Response => !close,
    }
}

/// Whether another request may follow on the connection. None does where a body was left
/// unread or an event stream was sent, nor where the connection is to be closed.
pub fn goes_on(outcome: Exchange, close: bool) -> (r: bool)
    ensures
        r == keeps_open(outcome, close),
        r == (!(outcome is TooLarge) && !(outcome is Stream) && !close),
{
    match outcome {
        Exchange::TooLarge | Exchange::Stream => false,
        Exchange::Options | Exchange::Response => !close,
    }
}

/// The request that is dispatched for a plan.
pub open spec fn planned_request(
    p: PlanView,
    h: Seq<(Seq<char>, Seq<char>)>,
    body: Seq<char>,
    body_file: Option<Seq<char>>,
    client_ip: Seq<char>,
) -> RequestView {
    RequestView {
        method: p->method,
        path: p->Serve_path,
        query: p->query,
        headers: h,
        body,
        body_file,
        client_ip,
    }
}

/// A request for the head is dispatched as a request for the whole.
pub proof fn law_head_is_dispatched_as_get(head: HeadView, get: HeadView)
    requires
        head.method == "HEAD"@,
        get.method == "GET"@,
        head.target == get.target,
        head.version == get.version,
        head.headers == get.headers,
    ensures
        plan(head) matches PlanView::Serve { method, write_body, path, query, close } && !write_body
            && method == "GET"@ && plan(get) == (PlanView::Serve {
            method,
            write_body: true,
            path,
            query,
            close,
        }),
{
    reveal_strlit("GET");
    reveal_strlit("HEAD");
    reveal_strlit("OPTIONS");
    assert("GET"@.len() == 3 && "HEAD"@.len() == 4 && "OPTIONS"@.len() == 7);
}

/// Two requests that differ in HEAD and GET alone are answered alike. The same request is
/// dispatched for both, with GET as its method, so that both take the same first step. Where
/// the same response comes of it, what is sent for HEAD is the head of what is sent for GET,
/// with its status and its `Content-Length`, and nothing more; what follows it for GET is the
/// body. After both the connection goes on or ends alike.
pub proof fn law_head_is_answered_like_get(
    rt: ServeRuntime,
    head: HeadView,
    get: HeadView,
    request_body: Seq<char>,
    body_file: Option<Seq<char>>,
    client_ip: Seq<char>,
    status: u16,
    body: BodyView,
    extra: Seq<(Seq<char>, Seq<char>)>,
)
    requires
        head.method == "HEAD"@,
        get.method == "GET"@,
        head.target == get.target,
        head.version == get.version,
        head.headers == get.headers,
    ensures
        plan(head) is Serve,
        plan(get) is Serve,
        plan(head)->Serve_close == plan(get)->Serve_close,
        ({
            let for_head = planned_request(
                plan(head),
                head.headers,
                request_body,
                body_file,
                client_ip,
            );
            let for_get = planned_request(
                plan(get),
                get.headers,
                request_body,
                body_file,
                client_ip,
            );
            &&& for_head.method == "GET"@
            &&& for_head == for_get
            &&& rt.first_step(for_head) == rt.first_step(for_get)
        }),
        ({
            let sent = |p: PlanView|
                wire::response_bytes(
                    status,
                    body,
                    extra,
                    p->Serve_close,
                    text::maybe(rt.cors_origin),
                    p->write_body,
                    rt.tls_enabled,
                );
            let fields = wire::response_headers(
                body,
                extra,
                plan(get)->Serve_close,
                text::maybe(rt.cors_origin),
                rt.tls_enabled,
            );
            &&& sent(plan(head)) == encode_utf8(wire::head_text(status, fields))
            &&& sent(plan(get)) == sent(plan(head)) + wire::payload_of(body)
            &&& headers::header(fields, "content-length"@) == numeral::decimal(
                wire::payload_of(body).len(),
            )
        }),
{
    law_head_is_dispatched_as_get(head, get);
    let close = plan(get)->Serve_close;
    let cors = text::maybe(rt.cors_origin);
    wire::law_head_is_the_response_without_its_body(status, body, extra, close, cors, rt.tls_enabled);
    wire::law_content_length_is_the_body_length(body, extra, close, cors, rt.tls_enabled);
    let fields = wire::response_headers(body, extra, close, cors, rt.tls_enabled);
    let text = encode_utf8(wire::head_text(status, fields));
    assert(text + Seq::<u8>::empty() =~= text);
}

/// A connection is closed after a response where the client asks for that; in version 1.0 it is
/// closed unless the client asks to keep it.
pub proof fn law_connections_are_kept(h: Seq<(Seq<char>, Seq<char>)>, version: Seq<char>)
    ensures
        version == "HTTP/1.0"@ ==> (closes(version, h) <==> outside::lowercase(
            headers::header(h, "connection"@),
        ) != "keep-alive"@),
        version != "HTTP/1.0"@ ==> (closes(version, h) <==> outside::lowercase(
            headers::header(h, "connection"@),
        ) == "close"@),
{
}

/// A request for options is answered for its path; any other is dispatched with its own method,
/// path and query, and its answer is written whole, but for HEAD.
pub proof fn law_requests_are_planned(head: HeadView)
    ensures
        head.method == "OPTIONS"@ ==> (plan(head) matches PlanView::Options { path, close } && path
            == url::target_path(head.target) && close == closes(head.version, head.headers)),
        head.method != "OPTIONS"@ && head.method != "HEAD"@ ==> (plan(head)
            matches PlanView::Serve { method, write_body, path, query, close } && method
            == head.method && write_body && path == url::target_path(head.target) && query
            == url::target_query(head.target) && close == closes(head.version, head.headers)),
{
}

/// What is viewed of a plan is what it holds.
pub proof fn law_plans_are_viewed(p: RequestPlan)
    ensures
        match p {
            RequestPlan::Options { path, close } => p@ == (PlanView::Options { path: path@, close }),
            RequestPlan::Serve { method, write_body, path, query, close } => p@
                == (PlanView::Serve {
                method: method@,
                write_body,
                path: path@,
                query: outside::entries(query),
                close,
            }),
        },
{
}

/// No request follows one whose body was left unread, nor an event stream, nor where the
/// connection is to be closed; after any other exchange one may follow.
pub proof fn law_when_another_request_follows(outcome: Exchange, close: bool)
    ensures
        keeps_open(outcome, close) ==> !close,
        keeps_open(outcome, close) ==> outcome is Options || outcome is Response,
        !close && (outcome is Options || outcome is Response) ==> keeps_open(outcome, close),
{
}

/// A body that is too large is answered 413 on a connection that is then closed, whatever the
/// client asked for, with the reason for its body, which a request for the head does not get.
pub proof fn law_too_large_bodies_are_refused(rt: ServeRuntime)
    ensures
        ({
            let why = BodyView::Json(
                JsonTree::Object(
                    seq![
                        ("error"@, JsonTree::Str("payload too large"@)),
                        ("status"@, JsonTree::Int(413)),
                    ],
                ),
            );
            let fields = wire::response_headers(
                why,
                seq![],
                true,
                text::maybe(rt.cors_origin),
                rt.tls_enabled,
            );
            &&& too_large_bytes(rt, false) == encode_utf8(wire::head_text(413, fields))
            &&& too_large_bytes(rt, true) == too_large_bytes(rt, false) + wire::payload_of(why)
            &&& fields[2] == ("Connection"@, "close"@)
        }),
{
    let why = runtime::error_view("payload too large"@, 413);
    let cors = text::maybe(rt.cors_origin);
    wire::law_head_is_the_response_without_its_body(413, why, seq![], true, cors, rt.tls_enabled);
    let fields = wire::response_headers(why, seq![], true, cors, rt.tls_enabled);
    let t = encode_utf8(wire::head_text(413, fields));
    assert(t + Seq::<u8>::empty() =~= t);
}

/// What is dispatched for a request is what its head says: its method, its path and its query,
/// with its headers, its body and the address of the client, each as it came.
pub proof fn law_what_is_dispatched(
    head: HeadView,
    body: Seq<char>,
    body_file: Option<Seq<char>>,
    client_ip: Seq<char>,
)
    requires
        head.method != "OPTIONS"@,
        head.method != "HEAD"@,
    ensures
        ({
            let r = planned_request(plan(head), head.headers, body, body_file, client_ip);
            &&& r.method == head.method
            &&& r.path == url::target_path(head.target)
            &&& r.query == url::target_query(head.target)
            &&& r.headers == head.headers
            &&& r.body == body
            &&& r.body_file == body_file
            &&& r.client_ip == client_ip
        }),
{
}

} // verus!
