//! From a request to its answer.
//!
//! The decisions are made here; what only the embedding program can do (read a file, ask
//! the rate limiter, run a handler) it does between two steps. `ServeRuntime::dispatch`
//! gives the first step; each step but the last says what is to be done and is followed by
//! the step that the matching `after_` function gives for the outcome.

use indexmap::IndexMap;
use vstd::prelude::*;

use crate::content;
use crate::headers;
use crate::host;
use crate::host::HostRouter;
use crate::json;
use crate::json::Json;
use crate::json::JsonTree;
use crate::media;
use crate::media::RawResponse;
use crate::media::RawView;
use crate::numeral;
use crate::outside;
use crate::render;
use crate::respond;
use crate::respond::BodyView;
use crate::respond::Built;
use crate::respond::BuiltView;
use crate::respond::Fetched;
use crate::respond::ResponseBody;
use crate::routing;
use crate::routing::RateLimit;
use crate::routing::RouteSpec;
use crate::runtime;
use crate::runtime::ServeRuntime;
use crate::static_files::StaticResp;
use crate::static_files::StaticView;
use crate::text;
use crate::value::ServerValue;
use crate::value::SynData;
use crate::value::SynValue;

verus! {

// ---------------------------------------------------------------------------
// Requests
// ---------------------------------------------------------------------------

/// A request, with its body read. A body that was too large for memory is in a file, and
/// `body` is empty.
pub struct Request {
    pub method: String,
    pub path: String,
    pub query: IndexMap<String, String>,
    pub headers: Vec<(String, String)>,
    pub body: String,
    pub body_file: Option<String>,
    pub client_ip: String,
}

/// The mathematical content of a request.
pub struct RequestView {
    pub method: Seq<char>,
    pub path: Seq<char>,
    pub query: Seq<(Seq<char>, Seq<char>)>,
    pub headers: Seq<(Seq<char>, Seq<char>)>,
    pub body: Seq<char>,
    pub body_file: Option<Seq<char>>,
    pub client_ip: Seq<char>,
}

impl View for Request {
    type V = RequestView;

    open spec fn view(&self) -> RequestView {
        RequestView {
            method: self.method@,
            path: self.path@,
            query: outside::entries(self.query),
            headers: headers::pairs(self.headers@),
            body: self.body@,
            body_file: text::maybe(self.body_file),
            client_ip: self.client_ip@,
        }
    }
}

/// What a handler gets to see of a request.
pub struct Ctx {
    pub method: String,
    pub path: String,
    pub query: IndexMap<String, String>,
    pub params: IndexMap<String, String>,
    pub headers: Vec<(String, String)>,
    pub body: String,
    pub body_file: Option<String>,
    pub json: Option<serde_json::Value>,
    pub client_ip: String,
    pub user: Option<SynValue>,
}

/// The mathematical content of a context.
pub struct CtxView {
    pub method: Seq<char>,
    pub path: Seq<char>,
    pub query: Seq<(Seq<char>, Seq<char>)>,
    pub params: Seq<(Seq<char>, Seq<char>)>,
    pub headers: Seq<(Seq<char>, Seq<char>)>,
    pub body: Seq<char>,
    pub body_file: Option<Seq<char>>,
    pub json: Option<serde_json::Value>,
    pub client_ip: Seq<char>,
    pub user: Option<SynValue>,
}

impl View for Ctx {
    type V = CtxView;

    open spec fn view(&self) -> CtxView {
        CtxView {
            method: self.method@,
            path: self.path@,
            query: outside::entries(self.query),
            params: outside::entries(self.params),
            headers: headers::pairs(self.headers@),
            body: self.body@,
            body_file: text::maybe(self.body_file),
            json: self.json,
            client_ip: self.client_ip@,
            user: self.user,
        }
    }
}

/// How a handler ended.
pub enum GiveOutcome {
    /// It gave a value, or nothing.
    Give(Option<SynValue>),
    /// The request did not meet an expectation.
    Validation { message: String, field: Option<String> },
    /// An error that was not caught.
    Error(String),
}

/// The client of an event stream is gone.
pub struct StreamGone;

/// How an event stream ended.
pub enum StreamEnd {
    Done,
    ClientGone,
    Error(String),
}

/// What the rate limiter says: whether the request is admitted, how many more would be, and
/// the whole seconds until the next would be and until the limit is unused.
#[derive(Clone, Copy)]
pub struct RateOutcome {
    pub allowed: bool,
    pub remaining: i64,
    pub retry_after: i64,
    pub reset: i64,
}

// ---------------------------------------------------------------------------
// Steps
// ---------------------------------------------------------------------------

/// The answer to a request.
pub enum Dispatched {
    Response { status: u16, body: ResponseBody, headers: Vec<(String, String)> },
    /// The connection becomes an event stream.
    Stream { stream_handler: Option<usize>, ctx: Ctx },
}

/// The mathematical content of an answer.
pub enum DispatchedView {
    Response { status: u16, body: BodyView, headers: Seq<(Seq<char>, Seq<char>)> },
    Stream { stream_handler: Option<usize>, ctx: CtxView },
}

impl View for Dispatched {
    type V = DispatchedView;

    open spec fn view(&self) -> DispatchedView {
        match *self {
            Dispatched::Response { status, body, headers } => DispatchedView::Response {
                status,
                body: body@,
                headers: headers::pairs(headers@),
            },
            Dispatched::Stream { stream_handler, ctx } => DispatchedView::Stream {
                stream_handler,
                ctx: ctx@,
            },
        }
    }
}

/// The route that answers a request, as far as it matters from here on, with the parameters
/// that it captured and the format that the path names.
pub struct Matched {
    pub params: IndexMap<String, String>,
    pub explicit_fmt: Option<String>,
    pub requires_auth: bool,
    pub streaming: bool,
    pub rate_limit: Option<RateLimit>,
    pub rate_zone: Option<String>,
    pub handler: usize,
    pub stream_handler: Option<usize>,
    pub auth_handler: Option<usize>,
}

/// The mathematical content of a match.
pub struct MatchedView {
    pub params: Seq<(Seq<char>, Seq<char>)>,
    pub explicit_fmt: Option<Seq<char>>,
    pub requires_auth: bool,
    pub streaming: bool,
    pub rate_limit: Option<RateLimit>,
    pub rate_zone: Option<Seq<char>>,
    pub handler: usize,
    pub stream_handler: Option<usize>,
    pub auth_handler: Option<usize>,
}

impl View for Matched {
    type V = MatchedView;

    open spec fn view(&self) -> MatchedView {
        MatchedView {
            params: outside::entries(self.params),
            explicit_fmt: text::maybe(self.explicit_fmt),
            requires_auth: self.requires_auth,
            streaming: self.streaming,
            rate_limit: self.rate_limit,
            rate_zone: text::maybe(self.rate_zone),
            handler: self.handler,
            stream_handler: self.stream_handler,
            auth_handler: self.auth_handler,
        }
    }
}

/// Why a file is looked for: a parameter took in a format suffix, or no route answers.
pub enum StaticCase {
    Suffix(Matched),
    Fallback,
}

/// The mathematical content of such a case.
pub enum StaticCaseView {
    Suffix(MatchedView),
    Fallback,
}

impl View for StaticCase {
    type V = StaticCaseView;

    open spec fn view(&self) -> StaticCaseView {
        match *self {
            StaticCase::Suffix(m) => StaticCaseView::Suffix(m@),
            StaticCase::Fallback => StaticCaseView::Fallback,
        }
    }
}

/// What is left to do once a route may be run.
pub struct Rest {
    pub explicit_fmt: Option<String>,
    pub rate_headers: Vec<(String, String)>,
    pub streaming: bool,
    pub handler: usize,
    pub stream_handler: Option<usize>,
}

/// The mathematical content of what is left to do.
pub struct RestView {
    pub explicit_fmt: Option<Seq<char>>,
    pub rate_headers: Seq<(Seq<char>, Seq<char>)>,
    pub streaming: bool,
    pub handler: usize,
    pub stream_handler: Option<usize>,
}

impl View for Rest {
    type V = RestView;

    open spec fn view(&self) -> RestView {
        RestView {
            explicit_fmt: text::maybe(self.explicit_fmt),
            rate_headers: headers::pairs(self.rate_headers@),
            streaming: self.streaming,
            handler: self.handler,
            stream_handler: self.stream_handler,
        }
    }
}

/// What is to be done next.
pub enum Step {
    /// Look for a file below the mounts of the host.
    Static { host: Option<usize>, req: Request, case: StaticCase },
    /// Ask the rate limiter.
    RateCheck { key: String, rate: RateLimit, req: Request, matched: Matched },
    /// Ask the authentication handler who holds the token.
    Auth { handler: usize, token: String, ctx: Ctx, rest: Rest },
    /// Take one of the places for event streams.
    AcquireStream { stream_handler: Option<usize>, ctx: Ctx },
    /// Run the handler.
    Run { handler: usize, ctx: Ctx, rest: Rest },
    /// Fetch a page.
    Fetch { fetch: usize, limit: i64, offset: i64, page: PendingPage },
    /// Send the answer.
    Done(Dispatched),
}

/// A response that waits for its page.
pub struct PendingPage {
    pub status: u16,
    pub query: IndexMap<String, String>,
    pub rate_headers: Vec<(String, String)>,
}

/// The mathematical content of a response that waits for its page.
pub struct PendingPageView {
    pub status: u16,
    pub query: Seq<(Seq<char>, Seq<char>)>,
    pub rate_headers: Seq<(Seq<char>, Seq<char>)>,
}

impl View for PendingPage {
    type V = PendingPageView;

    open spec fn view(&self) -> PendingPageView {
        PendingPageView {
            status: self.status,
            query: outside::entries(self.query),
            rate_headers: headers::pairs(self.rate_headers@),
        }
    }
}

/// The mathematical content of a step.
pub enum StepView {
    Static { host: Option<int>, req: RequestView, case: StaticCaseView },
    RateCheck { key: Seq<char>, rate: RateLimit, req: RequestView, matched: MatchedView },
    Auth { handler: usize, token: Seq<char>, ctx: CtxView, rest: RestView },
    AcquireStream { stream_handler: Option<usize>, ctx: CtxView },
    Run { handler: usize, ctx: CtxView, rest: RestView },
    Fetch { fetch: usize, limit: int, offset: int, page: PendingPageView },
    Done(DispatchedView),
}

impl View for Step {
    type V = StepView;

    open spec fn view(&self) -> StepView {
        match *self {
            Step::Static { host, req, case } => StepView::Static {
                host: runtime::index_view(host),
                req: req@,
                case: case@,
            },
            Step::RateCheck { key, rate, req, matched } => StepView::RateCheck {
                key: key@,
                rate,
                req: req@,
                matched: matched@,
            },
            Step::Auth { handler, token, ctx, rest } => StepView::Auth {
                handler,
                token: token@,
                ctx: ctx@,
                rest: rest@,
            },
            Step::AcquireStream { stream_handler, ctx } => StepView::AcquireStream {
                stream_handler,
                ctx: ctx@,
            },
            Step::Run { handler, ctx, rest } => StepView::Run { handler, ctx: ctx@, rest: rest@ },
            Step::Fetch { fetch, limit, offset, page } => StepView::Fetch {
                fetch,
                limit: limit as int,
                offset: offset as int,
                page: page@,
            },
            Step::Done(d) => StepView::Done(d@),
        }
    }
}

// ---------------------------------------------------------------------------
// What is answered
// ---------------------------------------------------------------------------

/// A response with an error for its body.
pub open spec fn refusal(
    status: u16,
    message: Seq<char>,
    headers: Seq<(Seq<char>, Seq<char>)>,
) -> StepView {
    StepView::Done(
        DispatchedView::Response {
            status,
            body: runtime::error_view(message, status as int),
            headers,
        },
    )
}

/// A file as a response.
pub open spec fn file_step(f: StaticView) -> StepView {
    StepView::Done(
        DispatchedView::Response {
            status: f.status,
            body: BodyView::Raw(
                RawView { body: f.body, content_type: f.content_type, status: f.status },
            ),
            headers: f.extra,
        },
    )
}

/// The match of a route.
pub open spec fn matched_view(
    route: RouteSpec,
    auth_handler: Option<usize>,
    params: Seq<(Seq<char>, Seq<char>)>,
    explicit_fmt: Option<Seq<char>>,
) -> MatchedView {
    MatchedView {
        params,
        explicit_fmt,
        requires_auth: route.requires_auth,
        streaming: route.streaming,
        rate_limit: route.rate_limit,
        rate_zone: text::maybe(route.rate_zone),
        handler: route.handler,
        stream_handler: route.stream_handler,
        auth_handler,
    }
}

/// The match for a method and a path, where a route answers.
pub open spec fn route_match(
    h: HostRouter,
    method: Seq<char>,
    path: Seq<char>,
    explicit_fmt: Option<Seq<char>>,
) -> Option<MatchedView> {
    match host::first_route(h.routes@, method, path, 0) {
        Some(i) => Some(
            matched_view(
                h.routes@[i],
                h.auth_handler,
                routing::path_params(h.routes@[i].path@, path)->0,
                explicit_fmt,
            ),
        ),
        None => None,
    }
}

/// A parameter at the end of the route's pattern took in a format suffix of the path.
pub open spec fn takes_suffix(h: HostRouter, method: Seq<char>, path: Seq<char>) -> bool {
    &&& media::format_suffix(path).1 is Some
    &&& host::first_route(h.routes@, method, path, 0) matches Some(i)
    &&& routing::segments_of(h.routes@[i].path@).len() > 0
    &&& routing::is_param(routing::segments_of(h.routes@[i].path@).last())
}

/// The match once the suffix is taken for a format: the match of the path without it, where
/// there is one, else the match of the whole path.
pub open spec fn suffix_match(
    h: HostRouter,
    method: Seq<char>,
    path: Seq<char>,
    whole: MatchedView,
) -> MatchedView {
    let (logical, fmt) = media::format_suffix(path);
    match route_match(h, method, logical, fmt) {
        Some(m) => m,
        None => whole,
    }
}

/// The key under which the rate of a client is limited.
pub open spec fn rate_key(zone: Option<Seq<char>>, client_ip: Seq<char>) -> Seq<char> {
    (match zone {
        Some(z) => z,
        None => "None"@,
    }) + "|"@ + client_ip
}

/// The headers that tell a client about its limit.
pub open spec fn limit_headers(capacity: i64, remaining: Seq<char>, reset: int) -> Seq<
    (Seq<char>, Seq<char>),
> {
    seq![
        ("RateLimit-Limit"@, numeral::signed_decimal(capacity as int)),
        ("RateLimit-Remaining"@, remaining),
        ("RateLimit-Reset"@, numeral::signed_decimal(reset + 1)),
    ]
}

/// The declared type of the body is JSON.
pub open spec fn declares_json(h: Seq<(Seq<char>, Seq<char>)>) -> bool {
    text::contains_text(outside::lowercase(headers::header(h, "content-type"@)), "json"@)
}

/// What the handler gets to see.
pub open spec fn context(
    req: RequestView,
    params: Seq<(Seq<char>, Seq<char>)>,
    json: Option<serde_json::Value>,
) -> CtxView {
    CtxView {
        method: req.method,
        path: req.path,
        query: req.query,
        params,
        headers: req.headers,
        body: req.body,
        body_file: req.body_file,
        json,
        client_ip: req.client_ip,
        user: None,
    }
}

/// What is left to do for a match.
pub open spec fn rest_of(
    m: MatchedView,
    rate_headers: Seq<(Seq<char>, Seq<char>)>,
) -> RestView {
    RestView {
        explicit_fmt: m.explicit_fmt,
        rate_headers,
        streaming: m.streaming,
        handler: m.handler,
        stream_handler: m.stream_handler,
    }
}

/// A route that may be run: an event stream needs a place, any other handler is run.
pub open spec fn admitted(ctx: CtxView, rest: RestView) -> StepView {
    if rest.streaming {
        StepView::AcquireStream { stream_handler: rest.stream_handler, ctx }
    } else {
        StepView::Run { handler: rest.handler, ctx, rest }
    }
}

/// The request once its body was read as JSON, with that result.
pub open spec fn proceeding_with(
    req: RequestView,
    m: MatchedView,
    rate_headers: Seq<(Seq<char>, Seq<char>)>,
    parsed: Option<serde_json::Value>,
) -> StepView {
    let ctx = context(req, m.params, parsed);
    let rest = rest_of(m, rate_headers);
    if req.body.len() > 0 && parsed is None && declares_json(req.headers) {
        refusal(400, "malformed JSON body"@, seq![])
    } else if m.requires_auth {
        match m.auth_handler {
            Some(handler) => StepView::Auth {
                handler,
                token: headers::token_in(headers::header(req.headers, "authorization"@)),
                ctx,
                rest,
            },
            None => refusal(401, "unauthorized"@, rate_headers),
        }
    } else {
        admitted(ctx, rest)
    }
}

/// The request once it is within its rate.
pub open spec fn proceeding(
    req: RequestView,
    m: MatchedView,
    rate_headers: Seq<(Seq<char>, Seq<char>)>,
) -> StepView {
    proceeding_with(
        req,
        m,
        rate_headers,
        if req.body.len() > 0 {
            outside::parsed_json(req.body)
        } else {
            None
        },
    )
}

/// The request once its route is known.
pub open spec fn routed(req: RequestView, m: MatchedView) -> StepView {
    match m.rate_limit {
        Some(rate) => StepView::RateCheck {
            key: rate_key(m.rate_zone, req.client_ip),
            rate,
            req,
            matched: m,
        },
        None => proceeding(req, m, seq![]),
    }
}

impl ServeRuntime {
    /// The answer where neither a route nor a file answers.
    pub open spec fn unanswered(&self, req: RequestView) -> StepView {
        match self.discovery(req.path) {
            Some(raw) => if req.method == "GET"@ {
                StepView::Done(
                    DispatchedView::Response {
                        status: raw.status,
                        body: BodyView::Raw(raw),
                        headers: seq![],
                    },
                )
            } else {
                refusal(404, "no route for "@ + req.method + " "@ + req.path, seq![])
            },
            None => refusal(404, "no route for "@ + req.method + " "@ + req.path, seq![]),
        }
    }

    /// The first step for a request.
    pub open spec fn first_step(&self, req: RequestView) -> StepView {
        let index = self.host_index(headers::header(req.headers, "host"@));
        let h = self.host_at(index);
        let allowed = host::methods_of(h.routes@, req.path);
        match route_match(h, req.method, req.path, None) {
            Some(m) => if takes_suffix(h, req.method, req.path) {
                if req.method == "GET"@ && h.static_mounts@.len() > 0 {
                    StepView::Static { host: index, req, case: StaticCaseView::Suffix(m) }
                } else {
                    routed(req, suffix_match(h, req.method, req.path, m))
                }
            } else {
                routed(req, m)
            },
            None => if allowed.len() > 0 {
                refusal(405, "method not allowed"@, seq![("Allow"@, text::joined(allowed, ", "@))])
            } else if req.method == "GET"@ && h.static_mounts@.len() > 0 {
                StepView::Static { host: index, req, case: StaticCaseView::Fallback }
            } else {
                self.unanswered(req)
            },
        }
    }

    /// The step after a file was looked for.
    pub open spec fn static_step(
        &self,
        index: Option<int>,
        req: RequestView,
        case: StaticCaseView,
        found: Option<StaticView>,
    ) -> StepView {
        match found {
            Some(f) => file_step(f),
            None => match case {
                StaticCaseView::Suffix(m) => routed(
                    req,
                    suffix_match(self.host_at(index), req.method, req.path, m),
                ),
                StaticCaseView::Fallback => self.unanswered(req),
            },
        }
    }
}

/// The step after the rate limiter was asked.
pub open spec fn rate_step(
    limit: RateLimit,
    req: RequestView,
    m: MatchedView,
    outcome: RateOutcome,
) -> StepView {
    if outcome.allowed {
        proceeding(
            req,
            m,
            limit_headers(
                limit.capacity,
                numeral::signed_decimal(outcome.remaining as int),
                outcome.reset as int,
            ),
        )
    } else {
        refusal(
            429,
            "rate limit exceeded"@,
            limit_headers(limit.capacity, "0"@, outcome.reset as int).push(
                ("Retry-After"@, numeral::signed_decimal(outcome.retry_after + 1)),
            ),
        )
    }
}

/// The step after the authentication handler was asked.
pub open spec fn auth_step(ctx: CtxView, rest: RestView, user: Option<SynValue>) -> StepView {
    match user {
        Some(u) => if u.data is Nothing {
            refusal(401, "unauthorized"@, rest.rate_headers)
        } else {
            admitted(CtxView { user, ..ctx }, rest)
        },
        None => refusal(401, "unauthorized"@, rest.rate_headers),
    }
}

/// The step after a place for an event stream was asked for.
pub open spec fn slot_step(
    stream_handler: Option<usize>,
    ctx: CtxView,
    acquired: bool,
) -> StepView {
    if acquired {
        StepView::Done(DispatchedView::Stream { stream_handler, ctx })
    } else {
        refusal(503, "too many concurrent streams"@, seq![("Retry-After"@, "5"@)])
    }
}

/// A value is content, which is rendered in the format that the client asks for.
pub open spec fn is_content(v: SynValue) -> bool {
    v.data matches SynData::Server(s) && *s is Content
}

/// The format in which content is answered: the one that the path names, else the one that
/// the client accepts.
pub open spec fn chosen_format(
    explicit_fmt: Option<Seq<char>>,
    h: Seq<(Seq<char>, Seq<char>)>,
) -> Seq<char> {
    match explicit_fmt {
        Some(f) => f,
        None => media::accepted_format(headers::header(h, "accept"@)),
    }
}

/// A response to a failed validation.
pub open spec fn invalid(message: Seq<char>, field: Option<Seq<char>>) -> BodyView {
    BodyView::Json(
        JsonTree::Object(
            seq![
                ("error"@, JsonTree::Str(message)),
                ("status"@, JsonTree::Int(400)),
                (
                    "field"@,
                    match field {
                        Some(f) => JsonTree::Str(f),
                        None => JsonTree::Null,
                    },
                ),
            ],
        ),
    )
}

impl ServeRuntime {
    /// The step after the handler ran.
    pub open spec fn run_step(&self, ctx: CtxView, rest: RestView, outcome: GiveOutcome) -> StepView {
        match outcome {
            GiveOutcome::Give(v) => if v matches Some(x) && is_content(x) {
                let raw = render::rendered(
                    v->0,
                    chosen_format(rest.explicit_fmt, ctx.headers),
                );
                StepView::Done(
                    DispatchedView::Response {
                        status: raw.status,
                        body: BodyView::Raw(raw),
                        headers: rest.rate_headers,
                    },
                )
            } else {
                match respond::built(v, ctx.query) {
                    BuiltView::Ready { status, body } => StepView::Done(
                        DispatchedView::Response { status, body, headers: rest.rate_headers },
                    ),
                    BuiltView::Fetch { status, fetch, limit, offset } => StepView::Fetch {
                        fetch,
                        limit,
                        offset,
                        page: PendingPageView {
                            status,
                            query: ctx.query,
                            rate_headers: rest.rate_headers,
                        },
                    },
                }
            },
            GiveOutcome::Validation { message, field } => StepView::Done(
                DispatchedView::Response {
                    status: 400,
                    body: invalid(message@, text::maybe(field)),
                    headers: rest.rate_headers,
                },
            ),
            GiveOutcome::Error(message) => StepView::Done(
                DispatchedView::Response {
                    status: 500,
                    body: self.internal_error(message@),
                    headers: rest.rate_headers,
                },
            ),
        }
    }

    /// The step after a page was fetched.
    pub open spec fn fetch_step(&self, page: PendingPageView, fetched: Fetched) -> StepView {
        match fetched {
            Ok((rows, total)) => StepView::Done(
                DispatchedView::Response {
                    status: page.status,
                    body: BodyView::Json(
                        respond::fetched_json(rows@, total as int, page.query),
                    ),
                    headers: page.rate_headers,
                },
            ),
            Err(e) => StepView::Done(
                DispatchedView::Response {
                    status: 500,
                    body: self.internal_error(e@),
                    headers: page.rate_headers,
                },
            ),
        }
    }
}

// ---------------------------------------------------------------------------
// The steps, carried out
// ---------------------------------------------------------------------------

fn refuse(status: u16, message: &str, headers: Vec<(String, String)>) -> (r: Step)
    ensures
        r@ == refusal(status, message@, headers::pairs(headers@)),
{
    let body = runtime::error_body(message, status as i64);
    Step::Done(Dispatched::Response { status, body, headers })
}

fn serve_file(f: StaticResp) -> (r: Step)
    ensures
        r@ == file_step(f@),
{
    let raw = RawResponse { body: f.body, content_type: f.content_type, status: f.status };
    Step::Done(
        Dispatched::Response { status: f.status, body: ResponseBody::Raw(raw), headers: f.extra },
    )
}

fn copy_text(s: &Option<String>) -> (r: Option<String>)
    ensures
        text::maybe(r) == text::maybe(*s),
{
    match s {
        Some(t) => Some(t.as_str().to_owned()),
        None => None,
    }
}

fn match_of(
    route: &RouteSpec,
    auth_handler: Option<usize>,
    params: IndexMap<String, String>,
    explicit_fmt: Option<String>,
) -> (r: Matched)
    ensures
        r@ == matched_view(
            *route,
            auth_handler,
            outside::entries(params),
            text::maybe(explicit_fmt),
        ),
{
    Matched {
        params,
        explicit_fmt,
        requires_auth: route.requires_auth,
        streaming: route.streaming,
        rate_limit: route.rate_limit,
        rate_zone: copy_text(&route.rate_zone),
        handler: route.handler,
        stream_handler: route.stream_handler,
        auth_handler,
    }
}

fn suffix_matched(h: &HostRouter, method: &str, path: &str, whole: Matched) -> (r: Matched)
    ensures
        r@ == suffix_match(*h, method@, path@, whole@),
{
    let (logical, fmt) = media::split_format_suffix(path);
    match h.match_route(method, logical.as_str()) {
        Some((i, params)) => match_of(&h.routes[i], h.auth_handler, params, fmt),
        None => whole,
    }
}

fn key_of(zone: &Option<String>, client_ip: &str) -> (r: String)
    ensures
        r@ == rate_key(text::maybe(*zone), client_ip@),
{
    let mut r = match zone {
        Some(z) => z.as_str().to_owned(),
        None => "None".to_owned(),
    };
    r.append("|");
    r.append(client_ip);
    r
}

fn limit_header_list(capacity: i64, remaining: String, reset: i64) -> (r: Vec<(String, String)>)
    requires
        reset < i64::MAX,
    ensures
        headers::pairs(r@) == limit_headers(capacity, remaining@, reset as int),
{
    let mut v = headers::new_headers();
    headers::push_header(&mut v, "RateLimit-Limit", numeral::i64_to_string(capacity));
    headers::push_header(&mut v, "RateLimit-Remaining", remaining);
    headers::push_header(&mut v, "RateLimit-Reset", numeral::i64_to_string(reset + 1));
    assert(headers::pairs(v@) =~= limit_headers(capacity, remaining@, reset as int));
    v
}

fn let_in(ctx: Ctx, rest: Rest) -> (r: Step)
    ensures
        r@ == admitted(ctx@, rest@),
{
    if rest.streaming {
        Step::AcquireStream { stream_handler: rest.stream_handler, ctx }
    } else {
        Step::Run { handler: rest.handler, ctx, rest }
    }
}

/// Whether the declared type of the body is JSON.
fn is_declared_json(request: &Vec<(String, String)>) -> (r: bool)
    ensures
        r == declares_json(headers::pairs(request@)),
{
    let content_type = headers::header_value(request, "content-type");
    let lower = outside::to_lowercase(content_type.as_str());
    let cs = text::chars_of(lower.as_str());
    text::contains(cs.as_slice(), text::chars_of("json").as_slice())
}

/// Goes on with a request whose body was read as JSON with that result: a body that is
/// declared to be JSON and is not is refused, and a route that asks for a user has the token
/// looked at.
pub fn proceed_with(
    req: Request,
    matched: Matched,
    rate_headers: Vec<(String, String)>,
    parsed: Option<serde_json::Value>,
) -> (r: Step)
    ensures
        r@ == proceeding_with(req@, matched@, headers::pairs(rate_headers@), parsed),
{
    if !req.body.as_str().is_empty() && parsed.is_none() && is_declared_json(&req.headers) {
        return refuse(400, "malformed JSON body", headers::new_headers());
    }
    let token = headers::bearer_token(&req.headers);
    let ctx = Ctx {
        method: req.method,
        path: req.path,
        query: req.query,
        params: matched.params,
        headers: req.headers,
        body: req.body,
        body_file: req.body_file,
        json: parsed,
        client_ip: req.client_ip,
        user: None,
    };
    if matched.requires_auth && matched.auth_handler.is_none() {
        return refuse(401, "unauthorized", rate_headers);
    }
    let rest = Rest {
        explicit_fmt: matched.explicit_fmt,
        rate_headers,
        streaming: matched.streaming,
        handler: matched.handler,
        stream_handler: matched.stream_handler,
    };
    if matched.requires_auth {
        if let Some(handler) = matched.auth_handler {
            return Step::Auth { handler, token, ctx, rest };
        }
    }
    let_in(ctx, rest)
}

/// Goes on with a request that is within its rate.
pub fn proceed(req: Request, matched: Matched, rate_headers: Vec<(String, String)>) -> (r: Step)
    ensures
        r@ == proceeding(req@, matched@, headers::pairs(rate_headers@)),
{
    let parsed = if req.body.as_str().is_empty() {
        None
    } else {
        match outside::parse_json(req.body.as_str()) {
            Ok(v) => Some(v),
            Err(_) => None,
        }
    };
    proceed_with(req, matched, rate_headers, parsed)
}

fn route_to(req: Request, matched: Matched) -> (r: Step)
    ensures
        r@ == routed(req@, matched@),
{
    match matched.rate_limit {
        Some(rate) => {
            let key = key_of(&matched.rate_zone, req.client_ip.as_str());
            Step::RateCheck { key, rate, req, matched }
        },
        None => proceed(req, matched, headers::new_headers()),
    }
}

impl ServeRuntime {
    fn leave_unanswered(&self, req: &Request) -> (r: Step)
        ensures
            r@ == self.unanswered(req@),
    {
        if text::str_eq(req.method.as_str(), "GET") {
            if let Some(raw) = self.discovery_response(req.path.as_str()) {
                let status = raw.status;
                return Step::Done(
                    Dispatched::Response {
                        status,
                        body: ResponseBody::Raw(raw),
                        headers: headers::new_headers(),
                    },
                );
            }
        }
        let mut message = "no route for ".to_owned();
        message.append(req.method.as_str());
        message.append(" ");
        message.append(req.path.as_str());
        refuse(404, message.as_str(), headers::new_headers())
    }

    /// Takes up a request.
    pub fn dispatch(&self, req: Request) -> (r: Step)
        ensures
            r@ == self.first_step(req@),
            r matches Step::Static { host: Some(i), .. } ==> i < self.vhosts@.len(),
    {
        let index = self.select_index(headers::header_value(&req.headers, "host").as_str());
        let h = self.host_router(index);
        match h.match_route(req.method.as_str(), req.path.as_str()) {
            Some((i, params)) => {
                let route = &h.routes[i];
                let (_, suffix) = media::split_format_suffix(req.path.as_str());
                let takes = suffix.is_some() && routing::param_last_segment(route.path.as_str());
                let m = match_of(route, h.auth_handler, params, None);
                if takes {
                    if text::str_eq(req.method.as_str(), "GET") && h.static_mounts.len() > 0 {
                        Step::Static { host: index, req, case: StaticCase::Suffix(m) }
                    } else {
                        let m = suffix_matched(h, req.method.as_str(), req.path.as_str(), m);
                        route_to(req, m)
                    }
                } else {
                    route_to(req, m)
                }
            },
            None => {
                let allowed = h.methods_for_path(req.path.as_str());
                assert(text::texts(allowed@).len() == allowed@.len());
                if allowed.len() > 0 {
                    let mut list = headers::new_headers();
                    headers::push_header(&mut list, "Allow", text::join(&allowed, ", "));
                    assert(headers::pairs(list@) =~= seq![
                        ("Allow"@, text::joined(text::texts(allowed@), ", "@)),
                    ]);
                    return refuse(405, "method not allowed", list);
                }
                if text::str_eq(req.method.as_str(), "GET") && h.static_mounts.len() > 0 {
                    return Step::Static { host: index, req, case: StaticCase::Fallback };
                }
                self.leave_unanswered(&req)
            },
        }
    }

    /// Goes on after a file was looked for.
    pub fn after_static(
        &self,
        host: Option<usize>,
        req: Request,
        case: StaticCase,
        found: Option<StaticResp>,
    ) -> (r: Step)
        requires
            host matches Some(i) ==> i < self.vhosts@.len(),
        ensures
            r@ == self.static_step(
                runtime::index_view(host),
                req@,
                case@,
                match found {
                    Some(f) => Some(f@),
                    None => None,
                },
            ),
    {
        match found {
            Some(f) => serve_file(f),
            None => match case {
                StaticCase::Suffix(m) => {
                    let h = self.host_router(host);
                    let m = suffix_matched(h, req.method.as_str(), req.path.as_str(), m);
                    route_to(req, m)
                },
                StaticCase::Fallback => self.leave_unanswered(&req),
            },
        }
    }

    /// Goes on after the handler ran.
    pub fn after_run(&self, ctx: Ctx, rest: Rest, outcome: GiveOutcome) -> (r: Step)
        requires
            outcome matches GiveOutcome::Give(Some(v)) ==> !is_content(v) && respond::is_collection(
                respond::payload_of(v),
            ) ==> respond::window_fits(ctx@.query),
        ensures
            r@ == self.run_step(ctx@, rest@, outcome),
            r matches Step::Fetch { page, .. } ==> respond::window_fits(page@.query),
    {
        match outcome {
            GiveOutcome::Give(v) => {
                if let Some(x) = &v {
                    if given_content(x) {
                        let raw = match &rest.explicit_fmt {
                            Some(f) => render::render_content(x, f.as_str()),
                            None => {
                                let accept = headers::header_value(&ctx.headers, "accept");
                                let f = media::negotiate_format(accept.as_str());
                                render::render_content(x, f.as_str())
                            },
                        };
                        let status = raw.status;
                        return Step::Done(
                            Dispatched::Response {
                                status,
                                body: ResponseBody::Raw(raw),
                                headers: rest.rate_headers,
                            },
                        );
                    }
                }
                match respond::build_response(v.as_ref(), &ctx.query) {
                    Built::Ready { status, body } => Step::Done(
                        Dispatched::Response { status, body, headers: rest.rate_headers },
                    ),
                    Built::Fetch { status, fetch, limit, offset } => Step::Fetch {
                        fetch,
                        limit,
                        offset,
                        page: PendingPage {
                            status,
                            query: ctx.query,
                            rate_headers: rest.rate_headers,
                        },
                    },
                }
            },
            GiveOutcome::Validation { message, field } => {
                let ghost f = text::maybe(field);
                let words = json::string(message.as_str());
                let code = Json::Int(400);
                assert(code.tree() == JsonTree::Int(400));
                let name = match field {
                    Some(s) => Json::Str(s),
                    None => Json::Null,
                };
                assert(name.tree() == match f {
                    Some(s) => JsonTree::Str(s),
                    None => JsonTree::Null,
                });
                let j = json::object3("error", words, "status", code, "field", name);
                proof {
                    let want = invalid(message@, f)->Json_0;
                    assert(j.tree()->Object_0 =~= want->Object_0);
                }
                Step::Done(
                    Dispatched::Response {
                        status: 400,
                        body: ResponseBody::Json(j),
                        headers: rest.rate_headers,
                    },
                )
            },
            GiveOutcome::Error(message) => Step::Done(
                Dispatched::Response {
                    status: 500,
                    body: self.server_error(message.as_str()),
                    headers: rest.rate_headers,
                },
            ),
        }
    }

    /// Goes on after a page was fetched.
    pub fn after_fetch(&self, page: PendingPage, fetched: Fetched) -> (r: Step)
        requires
            respond::window_fits(page@.query),
        ensures
            r@ == self.fetch_step(page@, fetched),
    {
        match respond::paginate_lazy(fetched, &page.query) {
            Ok(j) => Step::Done(
                Dispatched::Response {
                    status: page.status,
                    body: ResponseBody::Json(j),
                    headers: page.rate_headers,
                },
            ),
            Err(e) => Step::Done(
                Dispatched::Response {
                    status: 500,
                    body: self.server_error(e.as_str()),
                    headers: page.rate_headers,
                },
            ),
        }
    }
}

/// Whether a value is content.
pub fn given_content(v: &SynValue) -> (r: bool)
    ensures
        r == is_content(*v),
{
    match &v.data {
        SynData::Server(s) => match &**s {
            ServerValue::Content(_) => true,
            _ => false,
        },
        _ => false,
    }
}

/// Whether the page that a query asks for is needed to answer with a value.
pub fn needs_window(v: &SynValue) -> (r: bool)
    ensures
        r == (!is_content(*v) && respond::is_collection(respond::payload_of(*v))),
{
    if given_content(v) {
        return false;
    }
    match &v.data {
        SynData::Server(s) => match &**s {
            ServerValue::Envelope { value, .. } => respond::given_collection(value),
            _ => respond::given_collection(v),
        },
        _ => respond::given_collection(v),
    }
}

/// Goes on after the rate limiter was asked.
pub fn after_rate(limit: RateLimit, req: Request, matched: Matched, outcome: RateOutcome) -> (r: Step)
    requires
        outcome.reset < i64::MAX,
        !outcome.allowed ==> outcome.retry_after < i64::MAX,
    ensures
        r@ == rate_step(limit, req@, matched@, outcome),
{
    if outcome.allowed {
        let remaining = numeral::i64_to_string(outcome.remaining);
        proceed(req, matched, limit_header_list(limit.capacity, remaining, outcome.reset))
    } else {
        let mut list = limit_header_list(limit.capacity, "0".to_owned(), outcome.reset);
        headers::push_header(
            &mut list,
            "Retry-After",
            numeral::i64_to_string(outcome.retry_after + 1),
        );
        refuse(429, "rate limit exceeded", list)
    }
}

/// Goes on after the authentication handler was asked who holds the token.
pub fn after_auth(ctx: Ctx, rest: Rest, user: Option<SynValue>) -> (r: Step)
    ensures
        r@ == auth_step(ctx@, rest@, user),
{
    let known = match &user {
        Some(u) => !matches!(u.data, SynData::Nothing),
        None => false,
    };
    if !known {
        return refuse(401, "unauthorized", rest.rate_headers);
    }
    let ctx = Ctx {
        method: ctx.method,
        path: ctx.path,
        query: ctx.query,
        params: ctx.params,
        headers: ctx.headers,
        body: ctx.body,
        body_file: ctx.body_file,
        json: ctx.json,
        client_ip: ctx.client_ip,
        user,
    };
    let_in(ctx, rest)
}

/// Goes on after a place for an event stream was asked for.
pub fn after_slot(stream_handler: Option<usize>, ctx: Ctx, acquired: bool) -> (r: Step)
    ensures
        r@ == slot_step(stream_handler, ctx@, acquired),
{
    if acquired {
        Step::Done(Dispatched::Stream { stream_handler, ctx })
    } else {
        let mut list = headers::new_headers();
        headers::push_header(&mut list, "Retry-After", "5".to_owned());
        assert(headers::pairs(list@) =~= seq![("Retry-After"@, "5"@)]);
        refuse(503, "too many concurrent streams", list)
    }
}

// ---------------------------------------------------------------------------
// Laws
// ---------------------------------------------------------------------------

/// Where the step is a response with a status of 400 or more, its body is an object with a
/// message and that status.
pub open spec fn tells_its_status(s: StepView) -> bool {
    s matches StepView::Done(DispatchedView::Response { status, body, headers }) ==> status >= 400
        ==> exists|message: Seq<char>| body == #[trigger] runtime::error_view(message, status as int)
}

/// A request that is refused before any handler runs is answered with an object that holds a
/// message and the status of the response.
pub proof fn law_refusals_tell_their_status(
    rt: ServeRuntime,
    req: RequestView,
    m: MatchedView,
    h: Seq<(Seq<char>, Seq<char>)>,
    parsed: Option<serde_json::Value>,
    limit: RateLimit,
    outcome: RateOutcome,
    ctx: CtxView,
    rest: RestView,
    user: Option<SynValue>,
    stream_handler: Option<usize>,
    acquired: bool,
)
    ensures
        tells_its_status(rt.first_step(req)),
        tells_its_status(proceeding_with(req, m, h, parsed)),
        tells_its_status(rate_step(limit, req, m, outcome)),
        tells_its_status(auth_step(ctx, rest, user)),
        tells_its_status(slot_step(stream_handler, ctx, acquired)),
{
}

/// How far a request still has to go.
pub open spec fn distance(s: StepView) -> nat {
    match s {
        StepView::Static { .. } => 5,
        StepView::RateCheck { .. } => 4,
        StepView::Auth { .. } => 3,
        StepView::AcquireStream { .. } => 2,
        StepView::Run { .. } => 2,
        StepView::Fetch { .. } => 1,
        StepView::Done(_) => 0,
    }
}

/// Every step leads on, whatever the outcome of what was to be done: a request is answered
/// after five of them at most.
pub proof fn law_every_request_is_answered(
    rt: ServeRuntime,
    index: Option<int>,
    req: RequestView,
    case: StaticCaseView,
    found: Option<StaticView>,
    m: MatchedView,
    limit: RateLimit,
    rate: RateOutcome,
    ctx: CtxView,
    rest: RestView,
    user: Option<SynValue>,
    stream_handler: Option<usize>,
    acquired: bool,
    outcome: GiveOutcome,
    page: PendingPageView,
    fetched: Fetched,
)
    ensures
        distance(rt.first_step(req)) <= 5,
        distance(rt.static_step(index, req, case, found)) <= 4,
        distance(rate_step(limit, req, m, rate)) <= 3,
        distance(auth_step(ctx, rest, user)) <= 2,
        distance(slot_step(stream_handler, ctx, acquired)) == 0,
        distance(rt.run_step(ctx, rest, outcome)) <= 1,
        distance(rt.fetch_step(page, fetched)) == 0,
{
}

/// A route that asks for a user is neither run nor given a place before the authentication
/// handler was asked, and afterwards only for the user that it named.
pub proof fn law_guarded_route_needs_user(
    req: RequestView,
    m: MatchedView,
    h: Seq<(Seq<char>, Seq<char>)>,
    parsed: Option<serde_json::Value>,
    ctx: CtxView,
    rest: RestView,
    user: Option<SynValue>,
)
    ensures
        m.requires_auth ==> !(proceeding_with(req, m, h, parsed) is Run) && !(proceeding_with(
            req,
            m,
            h,
            parsed,
        ) is AcquireStream),
        auth_step(ctx, rest, user) matches StepView::Run { handler, ctx: c, rest: r } ==> {
            &&& user matches Some(u)
            &&& !(u.data is Nothing)
            &&& c.user == user
        },
        auth_step(ctx, rest, user) matches StepView::AcquireStream { stream_handler, ctx: c } ==> {
            &&& user matches Some(u)
            &&& !(u.data is Nothing)
            &&& c.user == user
        },
{
}

/// A request that is over its rate is answered 429 at once, with the limit and the time to wait,
/// which is the limiter's in whole seconds and one more: neither the authentication handler nor the route is asked. One
/// that is within its rate carries its limit on.
pub proof fn law_rate_is_kept(
    limit: RateLimit,
    req: RequestView,
    m: MatchedView,
    outcome: RateOutcome,
)
    ensures
        !outcome.allowed ==> rate_step(limit, req, m, outcome) == refusal(
            429,
            "rate limit exceeded"@,
            seq![
                ("RateLimit-Limit"@, numeral::signed_decimal(limit.capacity as int)),
                ("RateLimit-Remaining"@, "0"@),
                ("RateLimit-Reset"@, numeral::signed_decimal(outcome.reset + 1)),
                ("Retry-After"@, numeral::signed_decimal(outcome.retry_after + 1)),
            ],
        ),
        outcome.allowed ==> rate_step(limit, req, m, outcome) == proceeding(
            req,
            m,
            seq![
                ("RateLimit-Limit"@, numeral::signed_decimal(limit.capacity as int)),
                ("RateLimit-Remaining"@, numeral::signed_decimal(outcome.remaining as int)),
                ("RateLimit-Reset"@, numeral::signed_decimal(outcome.reset + 1)),
            ],
        ),
{
    if !outcome.allowed {
        let list = limit_headers(limit.capacity, "0"@, outcome.reset as int);
        assert(list.push(("Retry-After"@, numeral::signed_decimal(outcome.retry_after + 1)))
            =~= seq![
            ("RateLimit-Limit"@, numeral::signed_decimal(limit.capacity as int)),
            ("RateLimit-Remaining"@, "0"@),
            ("RateLimit-Reset"@, numeral::signed_decimal(outcome.reset + 1)),
            ("Retry-After"@, numeral::signed_decimal(outcome.retry_after + 1)),
        ]);
    }
}

/// Two clients of a zone are counted under one key only where they have one address.
pub proof fn law_clients_are_counted_apart(zone: Option<Seq<char>>, a: Seq<char>, b: Seq<char>)
    ensures
        rate_key(zone, a) == rate_key(zone, b) ==> a == b,
{
    let before = (match zone {
        Some(z) => z,
        None => "None"@,
    }) + "|"@;
    assert(rate_key(zone, a).skip(before.len() as int) =~= a);
    assert(rate_key(zone, b).skip(before.len() as int) =~= b);
}

/// A path that other methods are offered for is answered 405, with a list of exactly those
/// methods.
pub proof fn law_other_methods_are_named(rt: ServeRuntime, req: RequestView, other: Seq<char>)
    requires
        ({
            let h = rt.host_for(headers::header(req.headers, "host"@));
            &&& host::first_route(h.routes@, req.method, req.path, 0) is None
            &&& host::first_route(h.routes@, other, req.path, 0) is Some
        }),
    ensures
        ({
            let h = rt.host_for(headers::header(req.headers, "host"@));
            let allowed = host::methods_of(h.routes@, req.path);
            &&& rt.first_step(req) == refusal(
                405,
                "method not allowed"@,
                seq![("Allow"@, text::joined(allowed, ", "@))],
            )
            &&& host::lists_methods(h.routes@, req.path, allowed)
            &&& allowed.contains(other)
            &&& !allowed.contains(req.method)
        }),
{
    let h = rt.host_for(headers::header(req.headers, "host"@));
    host::law_methods_are_listed(h.routes@, req.path);
    host::law_methods_are_those_that_answer(h.routes@, req.path, other);
    host::law_methods_are_those_that_answer(h.routes@, req.path, req.method);
    let allowed = host::methods_of(h.routes@, req.path);
    assert(allowed.contains(other));
    assert(!allowed.contains(req.method));
}

/// The format that a path names goes before the one that the client accepts.
pub proof fn law_named_format_wins(
    rt: ServeRuntime,
    ctx: CtxView,
    rest: RestView,
    v: SynValue,
    fmt: Seq<char>,
)
    requires
        is_content(v),
        rest.explicit_fmt == Some(fmt),
    ensures
        rt.run_step(ctx, rest, GiveOutcome::Give(Some(v))) == StepView::Done(
            DispatchedView::Response {
                status: 200,
                body: BodyView::Raw(render::rendered(v, fmt)),
                headers: rest.rate_headers,
            },
        ),
{
}

/// A secure server does not let the detail of an error reach the client.
pub proof fn law_errors_stay_inside(
    rt: ServeRuntime,
    ctx: CtxView,
    rest: RestView,
    detail: String,
)
    requires
        rt.secure,
    ensures
        rt.run_step(ctx, rest, GiveOutcome::Error(detail)) == StepView::Done(
            DispatchedView::Response {
                status: 500,
                body: runtime::error_view("internal server error"@, 500),
                headers: rest.rate_headers,
            },
        ),
{
}

/// What a handler sees of the request is what the request says, field by field.
pub open spec fn shows_request(c: CtxView, req: RequestView) -> bool {
    &&& c.method == req.method
    &&& c.path == req.path
    &&& c.query == req.query
    &&& c.headers == req.headers
    &&& c.body == req.body
    &&& c.body_file == req.body_file
    &&& c.client_ip == req.client_ip
}

/// Two contexts show the same request, with the same parameters and the same document.
pub open spec fn same_but_for_user(a: CtxView, b: CtxView) -> bool {
    &&& a.method == b.method
    &&& a.path == b.path
    &&& a.query == b.query
    &&& a.params == b.params
    &&& a.headers == b.headers
    &&& a.body == b.body
    &&& a.body_file == b.body_file
    &&& a.json == b.json
    &&& a.client_ip == b.client_ip
}

/// The contents that contracts speak of are those of the fields: no field of a request, of a
/// context or of what is left to do is passed over.
pub proof fn law_contents_are_the_fields(req: Request, c: Ctx, m: Matched, rest: Rest)
    ensures
        req@.method == req.method@,
        req@.path == req.path@,
        req@.query == outside::entries(req.query),
        req@.headers == headers::pairs(req.headers@),
        req@.body == req.body@,
        req@.body_file is Some == req.body_file is Some,
        req.body_file matches Some(f) ==> req@.body_file == Some(f@),
        req@.client_ip == req.client_ip@,
        c@.method == c.method@,
        c@.path == c.path@,
        c@.query == outside::entries(c.query),
        c@.params == outside::entries(c.params),
        c@.headers == headers::pairs(c.headers@),
        c@.body == c.body@,
        c@.body_file is Some == c.body_file is Some,
        c.body_file matches Some(f) ==> c@.body_file == Some(f@),
        c@.json == c.json,
        c@.client_ip == c.client_ip@,
        c@.user == c.user,
        m@.params == outside::entries(m.params),
        m.explicit_fmt matches Some(f) ==> m@.explicit_fmt == Some(f@),
        m.explicit_fmt is None ==> m@.explicit_fmt is None,
        m@.requires_auth == m.requires_auth,
        m@.streaming == m.streaming,
        m@.rate_limit == m.rate_limit,
        m.rate_zone matches Some(z) ==> m@.rate_zone == Some(z@),
        m.rate_zone is None ==> m@.rate_zone is None,
        m@.handler == m.handler,
        m@.stream_handler == m.stream_handler,
        m@.auth_handler == m.auth_handler,
        rest.explicit_fmt matches Some(f) ==> rest@.explicit_fmt == Some(f@),
        rest.explicit_fmt is None ==> rest@.explicit_fmt is None,
        rest@.rate_headers == headers::pairs(rest.rate_headers@),
        rest@.streaming == rest.streaming,
        rest@.handler == rest.handler,
        rest@.stream_handler == rest.stream_handler,
{
}

/// The content of a step is that of what it carries.
pub proof fn law_steps_show_what_they_carry(s: Step)
    ensures
        match s {
            Step::Static { host, req, case } => s@ matches StepView::Static {
                host: h,
                req: q,
                case: c,
            } && q == req@ && c == case@ && (host is Some == h is Some) && (host matches Some(i) ==> h
                == Some(i as int)),
            Step::RateCheck { key, rate, req, matched } => s@ == (StepView::RateCheck {
                key: key@,
                rate,
                req: req@,
                matched: matched@,
            }),
            Step::Auth { handler, token, ctx, rest } => s@ == (StepView::Auth {
                handler,
                token: token@,
                ctx: ctx@,
                rest: rest@,
            }),
            Step::AcquireStream { stream_handler, ctx } => s@ == (StepView::AcquireStream {
                stream_handler,
                ctx: ctx@,
            }),
            Step::Run { handler, ctx, rest } => s@ == (StepView::Run {
                handler,
                ctx: ctx@,
                rest: rest@,
            }),
            Step::Fetch { fetch, limit, offset, page } => s@ matches StepView::Fetch {
                fetch: f,
                limit: l,
                offset: o,
                page: p,
            } && f == fetch && l == limit && o == offset && p.status == page.status && p.query
                == outside::entries(page.query) && p.rate_headers == headers::pairs(
                page.rate_headers@,
            ),
            Step::Done(Dispatched::Response { status, body, headers }) => s@ == StepView::Done(
                DispatchedView::Response {
                    status,
                    body: body@,
                    headers: headers::pairs(headers@),
                },
            ),
            Step::Done(Dispatched::Stream { stream_handler, ctx }) => s@ == StepView::Done(
                DispatchedView::Stream { stream_handler, ctx: ctx@ },
            ),
        },
{
}

/// A user that the authentication handler names is added to the context and changes nothing
/// else of it: the route that asks for a user sees the request, the parameters and the
/// document that an open route would see. An event stream asks for a place, any other route
/// is run, with its own handler and the headers of its limit. Without a user the request is
/// answered 401, with those headers.
pub proof fn law_user_is_all_that_is_added(
    ctx: CtxView,
    rest: RestView,
    user: Option<SynValue>,
)
    ensures
        user matches Some(u) && !(u.data is Nothing) ==> if rest.streaming {
            auth_step(ctx, rest, user) matches StepView::AcquireStream { stream_handler, ctx: c }
                && stream_handler == rest.stream_handler && c.user == user && same_but_for_user(
                c,
                ctx,
            )
        } else {
            auth_step(ctx, rest, user) matches StepView::Run { handler, ctx: c, rest: r } && handler
                == rest.handler && r == rest && c.user == user && same_but_for_user(c, ctx)
        },
        (user is None || user->0.data is Nothing) ==> auth_step(ctx, rest, user) == StepView::Done(
            DispatchedView::Response {
                status: 401,
                body: BodyView::Json(
                    JsonTree::Object(
                        seq![
                            ("error"@, JsonTree::Str("unauthorized"@)),
                            ("status"@, JsonTree::Int(401)),
                        ],
                    ),
                ),
                headers: rest.rate_headers,
            },
        ),
{
}

/// A route that asks for no user is run at once: its handler sees the request as it came,
/// with the parameters of the match and the document in the body, and no user. What is left
/// to do is the match's and the limit's.
pub proof fn law_open_route_is_run(
    req: RequestView,
    m: MatchedView,
    h: Seq<(Seq<char>, Seq<char>)>,
    parsed: Option<serde_json::Value>,
)
    requires
        !m.requires_auth,
        req.body.len() == 0 || parsed is Some || !declares_json(req.headers),
    ensures
        m.streaming ==> (proceeding_with(req, m, h, parsed) matches StepView::AcquireStream {
            stream_handler,
            ctx: c,
        } && stream_handler == m.stream_handler && shows_request(c, req) && c.params == m.params
            && c.json == parsed && c.user is None),
        !m.streaming ==> (proceeding_with(req, m, h, parsed) matches StepView::Run {
            handler,
            ctx: c,
            rest,
        } && handler == m.handler && shows_request(c, req) && c.params == m.params && c.json
            == parsed && c.user is None && rest.explicit_fmt == m.explicit_fmt && rest.rate_headers
            == h && !rest.streaming && rest.handler == m.handler && rest.stream_handler
            == m.stream_handler),
{
}

/// A route that asks for a user goes to the authentication handler of its host with the
/// token of the request; once a user is named it is run exactly as it would be without the
/// question, but for the user. Where the host has no such handler, the answer is 401.
pub proof fn law_guarded_route_is_run_like_an_open_one(
    req: RequestView,
    m: MatchedView,
    h: Seq<(Seq<char>, Seq<char>)>,
    parsed: Option<serde_json::Value>,
    user: SynValue,
)
    requires
        m.requires_auth,
        !(user.data is Nothing),
        req.body.len() == 0 || parsed is Some || !declares_json(req.headers),
    ensures
        m.auth_handler is None ==> proceeding_with(req, m, h, parsed) == StepView::Done(
            DispatchedView::Response {
                status: 401,
                body: BodyView::Json(
                    JsonTree::Object(
                        seq![
                            ("error"@, JsonTree::Str("unauthorized"@)),
                            ("status"@, JsonTree::Int(401)),
                        ],
                    ),
                ),
                headers: h,
            },
        ),
        m.auth_handler matches Some(asked) ==> {
            let open = proceeding_with(req, MatchedView { requires_auth: false, ..m }, h, parsed);
            proceeding_with(req, m, h, parsed) matches StepView::Auth { handler, token, ctx, rest }
                && handler == asked && token == headers::token_in(
                headers::header(req.headers, "authorization"@),
            ) && shows_request(ctx, req) && ctx.params == m.params && ctx.json == parsed
                && match open {
                StepView::Run { handler: run, ctx: c, rest: r } => auth_step(ctx, rest, Some(user))
                    matches StepView::Run { handler: run2, ctx: c2, rest: r2 } && run2 == run && r2
                    == r && same_but_for_user(c, c2) && c2.user == Some(user),
                StepView::AcquireStream { stream_handler: run, ctx: c } => auth_step(
                    ctx,
                    rest,
                    Some(user),
                ) matches StepView::AcquireStream { stream_handler: run2, ctx: c2 } && run2 == run
                    && same_but_for_user(c, c2) && c2.user == Some(user),
                _ => false,
            }
        },
{
}

/// A body that is declared to be JSON and is none is answered 400, before any user is asked
/// for. A body that is not declared to be JSON is handed on without a document.
pub proof fn law_malformed_json_is_refused(
    req: RequestView,
    m: MatchedView,
    h: Seq<(Seq<char>, Seq<char>)>,
)
    ensures
        req.body.len() > 0 && text::contains_text(
            outside::lowercase(headers::header(req.headers, "content-type"@)),
            "json"@,
        ) && outside::parsed_json(req.body) is None ==> proceeding(req, m, h) == StepView::Done(
            DispatchedView::Response {
                status: 400,
                body: BodyView::Json(
                    JsonTree::Object(
                        seq![
                            ("error"@, JsonTree::Str("malformed JSON body"@)),
                            ("status"@, JsonTree::Int(400)),
                        ],
                    ),
                ),
                headers: seq![],
            },
        ),
        !m.requires_auth && !m.streaming && (req.body.len() == 0 || outside::parsed_json(
            req.body,
        ) is Some || !text::contains_text(
            outside::lowercase(headers::header(req.headers, "content-type"@)),
            "json"@,
        )) ==> (proceeding(req, m, h) matches StepView::Run { handler, ctx: c, rest } && handler
            == m.handler && c.json == if req.body.len() > 0 {
            outside::parsed_json(req.body)
        } else {
            None
        }),
{
}

/// A stream that gets a place is sent with the context that asked for it; one that gets none
/// is answered 503, with the time to wait.
pub proof fn law_stream_needs_a_place(stream_handler: Option<usize>, ctx: CtxView)
    ensures
        slot_step(stream_handler, ctx, true) matches StepView::Done(DispatchedView::Stream {
            stream_handler: s,
            ctx: c,
        }) && s == stream_handler && same_but_for_user(c, ctx) && c.user == ctx.user,
        slot_step(stream_handler, ctx, false) == StepView::Done(
            DispatchedView::Response {
                status: 503,
                body: BodyView::Json(
                    JsonTree::Object(
                        seq![
                            ("error"@, JsonTree::Str("too many concurrent streams"@)),
                            ("status"@, JsonTree::Int(503)),
                        ],
                    ),
                ),
                headers: seq![("Retry-After"@, "5"@)],
            },
        ),
{
}

/// A file that was found is answered as it was served, whatever it was looked for; where none
/// was found, the route goes on with the path without its suffix, or nothing answers.
pub proof fn law_found_file_is_the_answer(
    rt: ServeRuntime,
    index: Option<int>,
    req: RequestView,
    case: StaticCaseView,
    f: StaticView,
)
    ensures
        rt.static_step(index, req, case, Some(f)) == StepView::Done(
            DispatchedView::Response {
                status: f.status,
                body: BodyView::Raw(
                    RawView { body: f.body, content_type: f.content_type, status: f.status },
                ),
                headers: f.extra,
            },
        ),
        rt.static_step(index, req, StaticCaseView::Fallback, None) == rt.unanswered(req),
{
}

/// Where nothing answers, the server describes itself under its two paths, to GET alone;
/// anything else is answered 404, with the method and the path.
pub proof fn law_nothing_answers(rt: ServeRuntime, req: RequestView)
    ensures
        (req.method != "GET"@ || (req.path != "/llms.txt"@ && req.path != "/robots.txt"@) || (
        req.path == "/llms.txt"@ && rt.private)) ==> rt.unanswered(req) == StepView::Done(
            DispatchedView::Response {
                status: 404,
                body: BodyView::Json(
                    JsonTree::Object(
                        seq![
                            (
                                "error"@,
                                JsonTree::Str("no route for "@ + req.method + " "@ + req.path),
                            ),
                            ("status"@, JsonTree::Int(404)),
                        ],
                    ),
                ),
                headers: seq![],
            },
        ),
        req.method == "GET"@ && rt.discovery(req.path) is Some ==> (rt.unanswered(req)
            matches StepView::Done(DispatchedView::Response { status, body, headers }) && status
            == 200 && headers.len() == 0 && body == BodyView::Raw(rt.discovery(req.path)->0)),
{
    reveal_strlit("/llms.txt");
    reveal_strlit("/robots.txt");
    assert("/llms.txt"@.len() == 9 && "/robots.txt"@.len() == 11);
}

/// A route without a limit of its rate goes on at once; one with a limit asks for the client
/// first, under the key of its zone and the address, and hands on the request and the match.
pub proof fn law_rate_is_asked_for(req: RequestView, m: MatchedView)
    ensures
        m.rate_limit is None ==> routed(req, m) == proceeding(req, m, seq![]),
        m.rate_limit matches Some(limit) ==> (routed(req, m) matches StepView::RateCheck {
            key,
            rate,
            req: q,
            matched,
        } && rate == limit && q == req && matched == m && key == (match m.rate_zone {
            Some(z) => z,
            None => seq!['N', 'o', 'n', 'e'],
        }) + seq!['|'] + req.client_ip),
{
    reveal_strlit("None");
    reveal_strlit("|");
    assert("None"@ =~= seq!['N', 'o', 'n', 'e']);
    assert("|"@ =~= seq!['|']);
}

/// The match of a request is that of the first route that answers: it carries the route's
/// own settings, the host's authentication handler and the parameters of the path.
pub proof fn law_match_is_the_route(
    h: HostRouter,
    method: Seq<char>,
    path: Seq<char>,
    fmt: Option<Seq<char>>,
)
    ensures
        host::first_route(h.routes@, method, path, 0) is None ==> route_match(
            h,
            method,
            path,
            fmt,
        ) is None,
        host::first_route(h.routes@, method, path, 0) matches Some(i) ==> (route_match(
            h,
            method,
            path,
            fmt,
        ) matches Some(m) && {
            let route = h.routes@[i];
            &&& Some(m.params) == routing::path_params(route.path@, path)
            &&& m.explicit_fmt == fmt
            &&& m.requires_auth == route.requires_auth
            &&& m.streaming == route.streaming
            &&& m.rate_limit == route.rate_limit
            &&& m.rate_zone is Some == route.rate_zone is Some
            &&& (route.rate_zone matches Some(z) ==> m.rate_zone == Some(z@))
            &&& m.handler == route.handler
            &&& m.stream_handler == route.stream_handler
            &&& m.auth_handler == h.auth_handler
        }),
{
    host::lemma_first_route_answers(h.routes@, method, path, 0);
}

/// A request whose path carries no format suffix and that a route of its host answers goes to
/// that route, with no format named.
pub proof fn law_route_answers_its_request(rt: ServeRuntime, req: RequestView, i: int)
    requires
        host::first_route(
            rt.host_for(headers::header(req.headers, "host"@)).routes@,
            req.method,
            req.path,
            0,
        ) == Some(i),
        media::format_suffix(req.path).1 is None,
    ensures
        ({
            let h = rt.host_for(headers::header(req.headers, "host"@));
            &&& route_match(h, req.method, req.path, None) matches Some(m)
            &&& rt.first_step(req) == routed(req, m)
        }),
{
}

/// A parameter that ends a pattern does not take in a format suffix: the request is answered
/// as the path without it, in that format, unless a file of that name is there or no route
/// answers the shorter path, which then keeps its suffix.
pub proof fn law_suffix_names_the_format(rt: ServeRuntime, req: RequestView, i: int)
    requires
        ({
            let h = rt.host_for(headers::header(req.headers, "host"@));
            let last = routing::segments_of(h.routes@[i].path@);
            &&& host::first_route(h.routes@, req.method, req.path, 0) == Some(i)
            &&& media::format_suffix(req.path).1 is Some
            &&& last.len() > 0 && last.last().len() > 0 && last.last()[0] == ':'
        }),
    ensures
        ({
            let index = rt.host_index(headers::header(req.headers, "host"@));
            let h = rt.host_for(headers::header(req.headers, "host"@));
            let (shorter, fmt) = media::format_suffix(req.path);
            let whole = route_match(h, req.method, req.path, None)->0;
            let goes_to = match route_match(h, req.method, shorter, fmt) {
                Some(m) => m,
                None => whole,
            };
            if req.method == "GET"@ && h.static_mounts@.len() > 0 {
                &&& rt.first_step(req) matches StepView::Static { host: j, req: q, case }
                &&& j == index
                &&& q == req
                &&& case == StaticCaseView::Suffix(whole)
                &&& rt.static_step(j, q, case, None) == routed(req, goes_to)
            } else {
                rt.first_step(req) == routed(req, goes_to)
            }
        }),
{
}

/// A GET that no route of any method answers is looked for among the files of its host; the
/// others, and all where the host has no files, are left to what the server says of itself.
pub proof fn law_files_stand_behind_the_routes(rt: ServeRuntime, req: RequestView)
    requires
        forall|m: Seq<char>| #[trigger]
            host::first_route(
                rt.host_for(headers::header(req.headers, "host"@)).routes@,
                m,
                req.path,
                0,
            ) is None,
    ensures
        ({
            let h = rt.host_for(headers::header(req.headers, "host"@));
            if req.method == "GET"@ && h.static_mounts@.len() > 0 {
                rt.first_step(req) == (StepView::Static {
                    host: rt.host_index(headers::header(req.headers, "host"@)),
                    req,
                    case: StaticCaseView::Fallback,
                })
            } else {
                rt.first_step(req) == rt.unanswered(req)
            }
        }),
{
    let h = rt.host_for(headers::header(req.headers, "host"@));
    host::law_methods_are_listed(h.routes@, req.path);
    let allowed = host::methods_of(h.routes@, req.path);
    if allowed.len() > 0 {
        let m = allowed[0];
        assert(allowed.contains(m));
        host::law_methods_are_those_that_answer(h.routes@, req.path, m);
    }
    assert(host::first_route(h.routes@, req.method, req.path, 0) is None);
}

/// A handler's value becomes the response: content in the format that was named or that the
/// client accepts, with its own type, any other value by the response contract. What was
/// found wrong with a request is answered 400, with the field; an error 500. The headers of
/// the limit are on every one of them.
pub proof fn law_outcome_is_answered(
    rt: ServeRuntime,
    ctx: CtxView,
    rest: RestView,
    v: Option<SynValue>,
    message: String,
    field: Option<String>,
)
    ensures
        v matches Some(x) && x.data matches SynData::Server(s) && *s is Content ==> rt.run_step(
            ctx,
            rest,
            GiveOutcome::Give(v),
        ) == StepView::Done(
            DispatchedView::Response {
                status: 200,
                body: BodyView::Raw(
                    render::rendered(
                        v->0,
                        match rest.explicit_fmt {
                            Some(f) => f,
                            None => media::accepted_format(
                                headers::header(ctx.headers, "accept"@),
                            ),
                        },
                    ),
                ),
                headers: rest.rate_headers,
            },
        ),
        (v is None || !(v->0.data matches SynData::Server(s) && *s is Content)) ==> match
            respond::built(v, ctx.query) {
            BuiltView::Ready { status, body } => rt.run_step(ctx, rest, GiveOutcome::Give(v))
                == StepView::Done(
                DispatchedView::Response { status, body, headers: rest.rate_headers },
            ),
            BuiltView::Fetch { status, fetch, limit, offset } => rt.run_step(
                ctx,
                rest,
                GiveOutcome::Give(v),
            ) matches StepView::Fetch { fetch: f, limit: l, offset: o, page } && f == fetch && l
                == limit && o == offset && page.status == status && page.query == ctx.query
                && page.rate_headers == rest.rate_headers,
        },
        rt.run_step(ctx, rest, GiveOutcome::Validation { message, field }) == StepView::Done(
            DispatchedView::Response {
                status: 400,
                body: BodyView::Json(
                    JsonTree::Object(
                        seq![
                            ("error"@, JsonTree::Str(message@)),
                            ("status"@, JsonTree::Int(400)),
                            (
                                "field"@,
                                match field {
                                    Some(f) => JsonTree::Str(f@),
                                    None => JsonTree::Null,
                                },
                            ),
                        ],
                    ),
                ),
                headers: rest.rate_headers,
            },
        ),
        rt.run_step(ctx, rest, GiveOutcome::Error(message)) == StepView::Done(
            DispatchedView::Response {
                status: 500,
                body: BodyView::Json(
                    JsonTree::Object(
                        seq![
                            (
                                "error"@,
                                JsonTree::Str(
                                    if rt.secure {
                                        "internal server error"@
                                    } else {
                                        message@
                                    },
                                ),
                            ),
                            ("status"@, JsonTree::Int(500)),
                        ],
                    ),
                ),
                headers: rest.rate_headers,
            },
        ),
{
    assert(invalid(message@, text::maybe(field)) == BodyView::Json(
        JsonTree::Object(
            seq![
                ("error"@, JsonTree::Str(message@)),
                ("status"@, JsonTree::Int(400)),
                (
                    "field"@,
                    match field {
                        Some(f) => JsonTree::Str(f@),
                        None => JsonTree::Null,
                    },
                ),
            ],
        ),
    )) by {
        assert(invalid(message@, text::maybe(field))->Json_0->Object_0 =~= seq![
            ("error"@, JsonTree::Str(message@)),
            ("status"@, JsonTree::Int(400)),
            (
                "field"@,
                match field {
                    Some(f) => JsonTree::Str(f@),
                    None => JsonTree::Null,
                },
            ),
        ]);
    }
}

/// A page that was fetched is answered with the status that its value was given, a fetch that
/// failed with 500; both with the headers of the limit.
pub proof fn law_fetched_page_is_answered(
    rt: ServeRuntime,
    page: PendingPageView,
    rows: Vec<SynValue>,
    total: i64,
    e: String,
)
    ensures
        rt.fetch_step(page, Ok((rows, total))) == StepView::Done(
            DispatchedView::Response {
                status: page.status,
                body: BodyView::Json(respond::fetched_json(rows@, total as int, page.query)),
                headers: page.rate_headers,
            },
        ),
        rt.fetch_step(page, Err(e)) matches StepView::Done(DispatchedView::Response {
            status,
            body,
            headers,
        }) && status == 500 && headers == page.rate_headers && body == BodyView::Json(
            JsonTree::Object(
                seq![
                    (
                        "error"@,
                        JsonTree::Str(
                            if rt.secure {
                                "internal server error"@
                            } else {
                                e@
                            },
                        ),
                    ),
                    ("status"@, JsonTree::Int(500)),
                ],
            ),
        ),
{
}

/// A request that is over its rate is answered 429, with the limit, that nothing is left of
/// it, and the seconds until it is unused and until the next try, each rounded up.
pub proof fn law_over_the_rate(
    limit: RateLimit,
    req: RequestView,
    m: MatchedView,
    outcome: RateOutcome,
)
    requires
        !outcome.allowed,
    ensures
        rate_step(limit, req, m, outcome) == StepView::Done(
            DispatchedView::Response {
                status: 429,
                body: BodyView::Json(
                    JsonTree::Object(
                        seq![
                            ("error"@, JsonTree::Str("rate limit exceeded"@)),
                            ("status"@, JsonTree::Int(429)),
                        ],
                    ),
                ),
                headers: seq![
                    ("RateLimit-Limit"@, numeral::signed_decimal(limit.capacity as int)),
                    ("RateLimit-Remaining"@, "0"@),
                    ("RateLimit-Reset"@, numeral::signed_decimal(outcome.reset + 1)),
                    ("Retry-After"@, numeral::signed_decimal(outcome.retry_after + 1)),
                ],
            },
        ),
{
    law_rate_is_kept(limit, req, m, outcome);
}

/// A request within its rate goes on as it would without a limit, but that what answers it
/// tells the client of the limit: its handler sees the same request.
pub proof fn law_within_the_rate(
    limit: RateLimit,
    req: RequestView,
    m: MatchedView,
    outcome: RateOutcome,
)
    requires
        outcome.allowed,
    ensures
        match proceeding(req, m, seq![]) {
            StepView::Run { handler, ctx, rest } => rate_step(limit, req, m, outcome)
                matches StepView::Run { handler: h2, ctx: c2, rest: r2 } && h2 == handler && c2
                == ctx && r2.handler == rest.handler && r2.explicit_fmt == rest.explicit_fmt
                && r2.streaming == rest.streaming && r2.rate_headers == seq![
                ("RateLimit-Limit"@, numeral::signed_decimal(limit.capacity as int)),
                ("RateLimit-Remaining"@, numeral::signed_decimal(outcome.remaining as int)),
                ("RateLimit-Reset"@, numeral::signed_decimal(outcome.reset + 1)),
            ],
            StepView::AcquireStream { stream_handler, ctx } => rate_step(limit, req, m, outcome)
                == (StepView::AcquireStream { stream_handler, ctx }),
            StepView::Auth { handler, token, ctx, rest } => rate_step(limit, req, m, outcome)
                matches StepView::Auth { handler: h2, token: t2, ctx: c2, rest: r2 } && h2
                == handler && t2 == token && c2 == ctx && r2.handler == rest.handler
                && r2.rate_headers == seq![
                ("RateLimit-Limit"@, numeral::signed_decimal(limit.capacity as int)),
                ("RateLimit-Remaining"@, numeral::signed_decimal(outcome.remaining as int)),
                ("RateLimit-Reset"@, numeral::signed_decimal(outcome.reset + 1)),
            ],
            StepView::Done(_) => rate_step(limit, req, m, outcome) is Done,
            _ => false,
        },
{
    law_rate_is_kept(limit, req, m, outcome);
}

/// A path for which there are routes of other methods alone is answered 405, with the list of
/// those methods.
pub proof fn law_other_methods_are_listed(
    rt: ServeRuntime,
    req: RequestView,
    other: Seq<char>,
    l: Seq<Seq<char>>,
)
    requires
        ({
            let h = rt.host_for(headers::header(req.headers, "host"@));
            &&& host::first_route(h.routes@, req.method, req.path, 0) is None
            &&& host::first_route(h.routes@, other, req.path, 0) is Some
            &&& host::lists_methods(h.routes@, req.path, l)
        }),
    ensures
        rt.first_step(req) == StepView::Done(
            DispatchedView::Response {
                status: 405,
                body: BodyView::Json(
                    JsonTree::Object(
                        seq![
                            ("error"@, JsonTree::Str("method not allowed"@)),
                            ("status"@, JsonTree::Int(405)),
                        ],
                    ),
                ),
                headers: seq![("Allow"@, text::joined(l, ", "@))],
            },
        ),
        l.contains(other),
        !l.contains(req.method),
{
    let h = rt.host_for(headers::header(req.headers, "host"@));
    law_other_methods_are_named(rt, req, other);
    host::law_methods_are_unique(h.routes@, req.path, l);
}

/// A pattern that ends in a literal keeps a suffix that is part of it: the request goes to its
/// route as it is, with no format named.
pub proof fn law_literal_suffix_is_kept(rt: ServeRuntime, req: RequestView, i: int)
    requires
        ({
            let h = rt.host_for(headers::header(req.headers, "host"@));
            let last = routing::segments_of(h.routes@[i].path@);
            &&& host::first_route(h.routes@, req.method, req.path, 0) == Some(i)
            &&& last.len() == 0 || last.last().len() == 0 || last.last()[0] != ':'
        }),
    ensures
        ({
            let h = rt.host_for(headers::header(req.headers, "host"@));
            &&& route_match(h, req.method, req.path, None) matches Some(m)
            &&& rt.first_step(req) == routed(req, m)
            &&& m.explicit_fmt is None
        }),
{
}

} // verus!
