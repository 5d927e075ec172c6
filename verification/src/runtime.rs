//! The settings of a server: its hosts, its limits, and what it tells crawlers and agents
//! about itself.

use vstd::prelude::*;
use vstd::slice::slice_subrange;

use crate::headers;
use crate::host;
use crate::host::HostRouter;
use crate::host::Mount;
use crate::json;
use crate::json::Json;
use crate::json::JsonTree;
use crate::media;
use crate::media::RawResponse;
use crate::media::RawView;
use crate::order;
use crate::respond::BodyView;
use crate::respond::ResponseBody;
use crate::routing::RouteSpec;
use crate::text;
use crate::text::Trim;

verus! {

/// The number of concurrent event streams where the setting names none.
pub const DEFAULT_MAX_STREAMS: i64 = 100;

/// A server.
pub struct ServeRuntime {
    pub port: u16,
    pub host: String,
    pub secure: bool,
    /// Connections are encrypted: responses ask the client to stay with that.
    pub tls_enabled: bool,
    pub default_host: HostRouter,
    pub vhosts: Vec<HostRouter>,
    pub max_body: Option<i64>,
    pub max_streams: i64,
    pub cors_origin: Option<String>,
    pub intent: Option<String>,
    pub describe_about: Option<String>,
    pub describe_api: Vec<String>,
    pub private: bool,
}

/// `mounts` are the given mounts with normalised prefixes, the longest first.
pub open spec fn mounted(given: Seq<Mount>, mounts: Seq<Mount>) -> bool {
    exists|named: Seq<Mount>| #[trigger]
        host::normalised(given, named) && order::stably_sorted(named, mounts)
}

/// The name in a `Host` header, without the port.
pub open spec fn host_name(header: Seq<char>) -> Seq<char> {
    text::trimmed(text::before(header, ':'), Trim::Space)
}

/// The host has that name for its pattern.
pub open spec fn is_exactly(h: HostRouter, name: Seq<char>) -> bool {
    h.pattern matches Some(p) && !host::is_wildcard(p@) && text::same_ignoring_case(name, p@)
}

/// The host has a wildcard pattern that covers that name.
pub open spec fn is_wildcard_for(h: HostRouter, name: Seq<char>) -> bool {
    h.pattern matches Some(p) && host::is_wildcard(p@) && host::covers(p@, name)
}

/// The position of the first host from `i` on with that very name.
pub open spec fn exact_host(hosts: Seq<HostRouter>, name: Seq<char>, i: int) -> Option<int>
    decreases hosts.len() - i,
{
    if i < 0 || i >= hosts.len() {
        None
    } else if is_exactly(hosts[i], name) {
        Some(i)
    } else {
        exact_host(hosts, name, i + 1)
    }
}

/// The position of the first host from `i` on whose wildcard covers that name.
pub open spec fn wildcard_host(hosts: Seq<HostRouter>, name: Seq<char>, i: int) -> Option<int>
    decreases hosts.len() - i,
{
    if i < 0 || i >= hosts.len() {
        None
    } else if is_wildcard_for(hosts[i], name) {
        Some(i)
    } else {
        wildcard_host(hosts, name, i + 1)
    }
}

// ---------------------------------------------------------------------------
// What the server says of itself
// ---------------------------------------------------------------------------

/// The method and the path of a route.
pub open spec fn endpoint(r: RouteSpec) -> (Seq<char>, Seq<char>) {
    (r.method@, r.path@)
}

/// The methods and paths of routes.
pub open spec fn endpoints(routes: Seq<RouteSpec>) -> Seq<(Seq<char>, Seq<char>)> {
    routes.map_values(|r: RouteSpec| endpoint(r))
}

/// `l` lists the endpoints, each once, by path and then by method.
pub open spec fn lists_endpoints(
    routes: Seq<RouteSpec>,
    l: Seq<(Seq<char>, Seq<char>)>,
) -> bool {
    &&& order::pairs_ascend(l)
    &&& forall|e: (Seq<char>, Seq<char>)| #[trigger]
        l.contains(e) <==> endpoints(routes).contains(e)
}

/// The endpoints, each once, by path and then by method.
pub open spec fn endpoint_list(routes: Seq<RouteSpec>) -> Seq<(Seq<char>, Seq<char>)> {
    choose|l: Seq<(Seq<char>, Seq<char>)>| lists_endpoints(routes, l)
}

/// There is one list of the endpoints.
pub proof fn law_endpoint_list_is_unique(
    routes: Seq<RouteSpec>,
    l: Seq<(Seq<char>, Seq<char>)>,
)
    requires
        lists_endpoints(routes, l),
    ensures
        endpoint_list(routes) == l,
{
    let other = endpoint_list(routes);
    assert(lists_endpoints(routes, other));
    assert forall|e: (Seq<char>, Seq<char>)| other.contains(e) <==> l.contains(e) by {
        assert(other.contains(e) <==> endpoints(routes).contains(e));
        assert(l.contains(e) <==> endpoints(routes).contains(e));
    }
    order::law_ascending_pairs_are_unique(other, l);
}

/// Lines with a heading, or nothing where there are no lines.
pub open spec fn section(heading: Seq<char>, lines: Seq<Seq<char>>) -> Seq<Seq<char>> {
    if lines.len() == 0 {
        seq![]
    } else {
        seq![seq![], heading] + lines
    }
}

/// The line that lists an endpoint.
pub open spec fn endpoint_line(e: (Seq<char>, Seq<char>)) -> Seq<char> {
    "- "@ + e.0 + " "@ + e.1
}

/// The view of an optional position.
pub open spec fn index_view(i: Option<usize>) -> Option<int> {
    match i {
        Some(n) => Some(n as int),
        None => None,
    }
}

impl ServeRuntime {
    /// The tables of all hosts are in order.
    pub open spec fn wf(&self) -> bool {
        &&& self.default_host.wf()
        &&& forall|i: int| 0 <= i < self.vhosts@.len() ==> (#[trigger] self.vhosts@[i]).wf()
    }

    /// The position of the host that a `Host` header selects: one with that name, else one
    /// whose wildcard covers it, else none, which stands for the default host.
    pub open spec fn host_index(&self, header: Seq<char>) -> Option<int> {
        let name = host_name(header);
        match exact_host(self.vhosts@, name, 0) {
            Some(i) => Some(i),
            None => wildcard_host(self.vhosts@, name, 0),
        }
    }

    /// The host at a position.
    pub open spec fn host_at(&self, index: Option<int>) -> HostRouter {
        match index {
            Some(i) => self.vhosts@[i],
            None => self.default_host,
        }
    }

    /// The host that a `Host` header selects.
    pub open spec fn host_for(&self, header: Seq<char>) -> HostRouter {
        self.host_at(self.host_index(header))
    }

    /// The title under which the server describes itself.
    pub open spec fn title(&self) -> Seq<char> {
        match self.describe_about {
            Some(t) => t@,
            None => match self.intent {
                Some(t) => t@,
                None => "Syntecnia service"@,
            },
        }
    }

    /// The intent, where it is not the title.
    pub open spec fn intent_lines(&self) -> Seq<Seq<char>> {
        match self.intent {
            Some(i) => if i@ == self.title() {
                seq![]
            } else {
                seq![seq![], "> "@ + i@]
            },
            None => seq![],
        }
    }

    /// The lines of the description for agents.
    pub open spec fn llms_lines(&self) -> Seq<Seq<char>> {
        seq!["# "@ + self.title()] + self.intent_lines() + section(
            "## Endpoints"@,
            endpoint_list(self.default_host.routes@).map_values(
                |e: (Seq<char>, Seq<char>)| endpoint_line(e),
            ),
        ) + section(
            "## API"@,
            text::texts(self.describe_api@).map_values(|s: Seq<char>| "- "@ + s),
        )
    }

    /// The description for agents.
    pub open spec fn llms(&self) -> Seq<char> {
        text::joined(self.llms_lines(), "\n"@) + "\n"@
    }

    /// The rules for crawlers.
    pub open spec fn robots(&self) -> Seq<char> {
        if self.private {
            "User-agent: *\nDisallow: /\n"@
        } else {
            "User-agent: *\nAllow: /\n"@
        }
    }

    /// What is answered for the paths under which the server describes itself.
    pub open spec fn discovery(&self, path: Seq<char>) -> Option<RawView> {
        if path == "/llms.txt"@ && !self.private {
            Some(media::raw_text(self.llms(), "text/plain; charset=utf-8"@, 200))
        } else if path == "/robots.txt"@ {
            Some(media::raw_text(self.robots(), "text/plain; charset=utf-8"@, 200))
        } else {
            None
        }
    }

    /// The body that answers an internal error: a secure server keeps the detail to itself.
    pub open spec fn internal_error(&self, detail: Seq<char>) -> BodyView {
        error_view(
            if self.secure {
                "internal server error"@
            } else {
                detail
            },
            500,
        )
    }
}

/// A body that reports an error and its status.
pub open spec fn error_view(message: Seq<char>, status: int) -> BodyView {
    BodyView::Json(
        JsonTree::Object(seq![("error"@, JsonTree::Str(message)), ("status"@, JsonTree::Int(status))]),
    )
}

/// A body that reports an error and its status.
pub fn error_body(message: &str, status: i64) -> (r: ResponseBody)
    ensures
        r@ == error_view(message@, status as int),
{
    let words = json::string(message);
    let code = Json::Int(status);
    assert(code.tree() == JsonTree::Int(status as int));
    let j = json::object2("error", words, "status", code);
    assert(j.tree()->Object_0 =~= seq![
        ("error"@, JsonTree::Str(message@)),
        ("status"@, JsonTree::Int(status as int)),
    ]);
    ResponseBody::Json(j)
}

fn dashed(first: &str, gap: &str, second: &str) -> (r: String)
    ensures
        r@ == "- "@ + first@ + gap@ + second@,
{
    let mut r = "- ".to_owned();
    r.append(first);
    r.append(gap);
    r.append(second);
    r
}

impl ServeRuntime {
    /// A server with a default host and no others, without encryption.
    pub fn new(
        port: u16,
        host: String,
        routes: Vec<RouteSpec>,
        auth_handler: Option<usize>,
        max_body: Option<i64>,
        max_streams: i64,
        static_mounts: Vec<Mount>,
        cors_origin: Option<String>,
        intent: Option<String>,
        describe_about: Option<String>,
        describe_api: Vec<String>,
        private: bool,
        secure: bool,
    ) -> (rt: Self)
        ensures
            rt.wf(),
            rt.port == port,
            rt.host == host,
            rt.secure == secure,
            !rt.tls_enabled,
            rt.default_host.pattern is None,
            rt.default_host.auth_handler == auth_handler,
            order::stably_sorted(routes@, rt.default_host.routes@),
            mounted(static_mounts@, rt.default_host.static_mounts@),
            rt.vhosts@.len() == 0,
            rt.max_body == max_body,
            rt.max_streams == max_streams,
            rt.cors_origin == cors_origin,
            rt.intent == intent,
            rt.describe_about == describe_about,
            rt.describe_api == describe_api,
            rt.private == private,
    {
        let default_host = HostRouter::new(None, routes, static_mounts, auth_handler);
        ServeRuntime {
            port,
            host,
            secure,
            tls_enabled: false,
            default_host,
            vhosts: Vec::new(),
            max_body,
            max_streams,
            cors_origin,
            intent,
            describe_about,
            describe_api,
            private,
        }
    }

    /// Adds a host with a table of its own, by its name or by a wildcard.
    pub fn add_vhost(
        &mut self,
        pattern: String,
        routes: Vec<RouteSpec>,
        static_mounts: Vec<Mount>,
        auth_handler: Option<usize>,
    )
        requires
            old(self).wf(),
        ensures
            final(self).wf(),
            final(self).vhosts@.len() == old(self).vhosts@.len() + 1,
            final(self).vhosts@.drop_last() == old(self).vhosts@,
            final(self).vhosts@.last().pattern == Some(pattern),
            final(self).vhosts@.last().auth_handler == auth_handler,
            order::stably_sorted(routes@, final(self).vhosts@.last().routes@),
            mounted(static_mounts@, final(self).vhosts@.last().static_mounts@),
            *final(self) == (ServeRuntime { vhosts: final(self).vhosts, ..*old(self) }),
    {
        let host = HostRouter::new(Some(pattern), routes, static_mounts, auth_handler);
        let ghost before = self.vhosts@;
        self.vhosts.push(host);
        assert(self.vhosts@.drop_last() =~= before);
    }

    /// The position of the host that a `Host` header selects.
    pub fn select_index(&self, host_header: &str) -> (r: Option<usize>)
        ensures
            index_view(r) == self.host_index(host_header@),
            r matches Some(i) ==> i < self.vhosts@.len(),
    {
        let cs = text::chars_of(host_header);
        let k = text::find_char(cs.as_slice(), ':');
        let name = text::string_of(text::trim(slice_subrange(cs.as_slice(), 0, k), Trim::Space));
        assert(name@ == host_name(host_header@));
        let mut i: usize = 0;
        while i < self.vhosts.len()
            invariant
                i <= self.vhosts@.len(),
                name@ == host_name(host_header@),
                exact_host(self.vhosts@, name@, 0) == exact_host(self.vhosts@, name@, i as int),
            decreases self.vhosts.len() - i,
        {
            let vh = &self.vhosts[i];
            if !vh.is_wild() && vh.matches_host(name.as_str()) && vh.pattern.is_some() {
                assert(is_exactly(*vh, name@));
                return Some(i);
            }
            i = i + 1;
        }
        let mut j: usize = 0;
        while j < self.vhosts.len()
            invariant
                j <= self.vhosts@.len(),
                name@ == host_name(host_header@),
                exact_host(self.vhosts@, name@, 0) is None,
                wildcard_host(self.vhosts@, name@, 0) == wildcard_host(
                    self.vhosts@,
                    name@,
                    j as int,
                ),
            decreases self.vhosts.len() - j,
        {
            let vh = &self.vhosts[j];
            if vh.is_wild() && vh.matches_host(name.as_str()) {
                assert(is_wildcard_for(*vh, name@));
                return Some(j);
            }
            j = j + 1;
        }
        None
    }

    /// The host at a position.
    pub fn host_router(&self, index: Option<usize>) -> (r: &HostRouter)
        requires
            index matches Some(i) ==> i < self.vhosts@.len(),
        ensures
            *r == self.host_at(index_view(index)),
    {
        match index {
            Some(i) => &self.vhosts[i],
            None => &self.default_host,
        }
    }

    /// The host that a `Host` header selects.
    pub fn select_host(&self, host_header: &str) -> (r: &HostRouter)
        ensures
            *r == self.host_for(host_header@),
    {
        self.host_router(self.select_index(host_header))
    }

    /// The number of routes of the default host.
    pub fn route_count(&self) -> (n: usize)
        ensures
            n == self.default_host.routes@.len(),
    {
        self.default_host.routes.len()
    }

    /// The origin that responses admit.
    pub fn cors_origin(&self) -> (r: Option<&str>)
        ensures
            r is Some == self.cors_origin is Some,
            r matches Some(o) ==> text::maybe(self.cors_origin) == Some(o@),
    {
        match &self.cors_origin {
            Some(o) => Some(o.as_str()),
            None => None,
        }
    }

    /// The methods that the default host offers for a path.
    pub fn methods_for_path(&self, path: &str) -> (r: Vec<String>)
        ensures
            text::texts(r@) == host::methods_of(self.default_host.routes@, path@),
            host::lists_methods(self.default_host.routes@, path@, text::texts(r@)),
    {
        self.default_host.methods_for_path(path)
    }

    /// The endpoints of the default host, each once, by path and then by method.
    fn sorted_endpoints(&self) -> (r: Vec<(String, String)>)
        ensures
            headers::pairs(r@) == endpoint_list(self.default_host.routes@),
    {
        let routes = &self.default_host.routes;
        let mut all: Vec<(String, String)> = Vec::new();
        for i in 0..routes.len()
            invariant
                *routes == self.default_host.routes,
                headers::pairs(all@) == endpoints(routes@.take(i as int)),
        {
            let ghost before = all@;
            all.push((routes[i].method.as_str().to_owned(), routes[i].path.as_str().to_owned()));
            assert(headers::pairs(all@) =~= headers::pairs(before).push(endpoint(routes@[i as int])));
            assert(endpoints(routes@.take(i as int + 1)) =~= endpoints(routes@.take(i as int)).push(
                endpoint(routes@[i as int]),
            ));
        }
        assert(routes@.take(routes@.len() as int) =~= routes@);
        let ghost given = headers::pairs(all@);
        let r = order::sort_pairs(all);
        proof {
            let l = headers::pairs(r@);
            assert forall|e: (Seq<char>, Seq<char>)| #[trigger] l.contains(e) <==> endpoints(
                routes@,
            ).contains(e) by {
                assert(l.contains(e) <==> given.contains(e));
            }
            law_endpoint_list_is_unique(routes@, l);
        }
        r
    }

    /// The description for agents.
    pub fn llms_txt(&self) -> (r: String)
        ensures
            r@ == self.llms(),
    {
        let title = match &self.describe_about {
            Some(t) => t.as_str(),
            None => match &self.intent {
                Some(t) => t.as_str(),
                None => "Syntecnia service",
            },
        };
        let mut lines: Vec<String> = Vec::new();
        let mut first = "# ".to_owned();
        first.append(title);
        lines.push(first);
        let ghost mut want = seq!["# "@ + self.title()];
        assert(text::texts(lines@) =~= want);
        if let Some(intent) = &self.intent {
            if !text::str_eq(intent.as_str(), title) {
                lines.push(String::new());
                let mut line = "> ".to_owned();
                line.append(intent.as_str());
                lines.push(line);
                assert(text::texts(lines@) =~= want + seq![seq![], "> "@ + intent@]);
            }
        }
        proof {
            want = want + self.intent_lines();
            assert(text::texts(lines@) =~= want);
        }
        let eps = self.sorted_endpoints();
        let ghost eplines = endpoint_list(self.default_host.routes@).map_values(
            |e: (Seq<char>, Seq<char>)| endpoint_line(e),
        );
        if eps.len() > 0 {
            lines.push(String::new());
            lines.push("## Endpoints".to_owned());
            let ghost start = want + seq![seq![], "## Endpoints"@];
            assert(text::texts(lines@) =~= start);
            for i in 0..eps.len()
                invariant
                    headers::pairs(eps@) == endpoint_list(self.default_host.routes@),
                    eplines == endpoint_list(self.default_host.routes@).map_values(
                        |e: (Seq<char>, Seq<char>)| endpoint_line(e),
                    ),
                    text::texts(lines@) == start + eplines.take(i as int),
            {
                let ghost before = lines@;
                let line = dashed(eps[i].0.as_str(), " ", eps[i].1.as_str());
                proof {
                    assert(headers::pairs(eps@)[i as int] == (eps@[i as int].0@, eps@[i as int].1@));
                    assert(line@ == eplines[i as int]);
                }
                lines.push(line);
                assert(text::texts(lines@) =~= text::texts(before).push(line@));
                assert(start + eplines.take(i as int + 1) =~= (start + eplines.take(i as int)).push(
                    eplines[i as int],
                ));
            }
            assert(eplines.len() == eps@.len());
            assert(eplines.take(eplines.len() as int) =~= eplines);
            assert(start + eplines =~= want + section("## Endpoints"@, eplines));
        } else {
            assert(headers::pairs(eps@).len() == 0);
            assert(want + section("## Endpoints"@, eplines) =~= want);
        }
        proof {
            want = want + section("## Endpoints"@, eplines);
            assert(text::texts(lines@) =~= want);
        }
        let ghost apilines = text::texts(self.describe_api@).map_values(
            |s: Seq<char>| "- "@ + s,
        );
        if self.describe_api.len() > 0 {
            lines.push(String::new());
            lines.push("## API".to_owned());
            let ghost start = want + seq![seq![], "## API"@];
            assert(text::texts(lines@) =~= start);
            for i in 0..self.describe_api.len()
                invariant
                    apilines == text::texts(self.describe_api@).map_values(
                        |s: Seq<char>| "- "@ + s,
                    ),
                    text::texts(lines@) == start + apilines.take(i as int),
            {
                let ghost before = lines@;
                let mut line = "- ".to_owned();
                line.append(self.describe_api[i].as_str());
                proof {
                    assert(text::texts(self.describe_api@)[i as int] == self.describe_api@[i as int]@);
                    assert(line@ == apilines[i as int]);
                }
                lines.push(line);
                assert(text::texts(lines@) =~= text::texts(before).push(line@));
                assert(start + apilines.take(i as int + 1) =~= (start + apilines.take(
                    i as int,
                )).push(apilines[i as int]));
            }
            assert(apilines.len() == self.describe_api@.len());
            assert(apilines.take(apilines.len() as int) =~= apilines);
            assert(start + apilines =~= want + section("## API"@, apilines));
        } else {
            assert(apilines.len() == 0);
            assert(want + section("## API"@, apilines) =~= want);
        }
        assert(text::texts(lines@) =~= self.llms_lines());
        let mut r = text::join(&lines, "\n");
        r.append("\n");
        r
    }

    /// The rules for crawlers.
    pub fn robots_txt(&self) -> (r: String)
        ensures
            r@ == self.robots(),
    {
        if self.private {
            "User-agent: *\nDisallow: /\n".to_owned()
        } else {
            "User-agent: *\nAllow: /\n".to_owned()
        }
    }

    /// What is answered for the paths under which the server describes itself.
    pub fn discovery_response(&self, path: &str) -> (r: Option<RawResponse>)
        ensures
            r is Some == self.discovery(path@) is Some,
            r matches Some(raw) ==> self.discovery(path@) == Some(raw@),
    {
        if text::str_eq(path, "/llms.txt") && !self.private {
            return Some(
                RawResponse::text(self.llms_txt().as_str(), "text/plain; charset=utf-8", 200),
            );
        }
        if text::str_eq(path, "/robots.txt") {
            return Some(
                RawResponse::text(self.robots_txt().as_str(), "text/plain; charset=utf-8", 200),
            );
        }
        None
    }

    /// The body that answers an internal error.
    pub fn server_error(&self, detail: &str) -> (r: ResponseBody)
        ensures
            r@ == self.internal_error(detail@),
    {
        if self.secure {
            error_body("internal server error", 500)
        } else {
            error_body(detail, 500)
        }
    }
}

impl HostRouter {
    /// Whether the pattern of this host is a wildcard.
    pub fn is_wild(&self) -> (r: bool)
        ensures
            r == (self.pattern matches Some(p) && host::is_wildcard(p@)),
    {
        match &self.pattern {
            Some(p) => {
                let cs = text::chars_of(p.as_str());
                let r = cs.len() >= 2 && cs[0] == '*' && cs[1] == '.';
                proof {
                    if r {
                        assert(p@.take(2) =~= seq!['*', '.']);
                    } else if host::is_wildcard(p@) {
                        assert(p@.take(2)[0] == p@[0] && p@.take(2)[1] == p@[1]);
                    }
                }
                r
            },
            None => false,
        }
    }
}

// ---------------------------------------------------------------------------
// Event streams
// ---------------------------------------------------------------------------

/// How many event streams are open, and how many may be.
pub struct StreamSlots {
    pub active: i64,
    pub max: i64,
}

impl StreamSlots {
    /// No more streams are open than may be.
    pub open spec fn wf(&self) -> bool {
        0 <= self.active && (self.active > 0 ==> self.active <= self.max)
    }

    /// Whether a place is to be had, and what is left then.
    pub open spec fn taken(self) -> (bool, StreamSlots) {
        if self.active < self.max {
            (true, StreamSlots { active: (self.active + 1) as i64, max: self.max })
        } else {
            (false, self)
        }
    }

    /// What is left once a place was given back.
    pub open spec fn given_back(self) -> StreamSlots {
        if self.active > 0 {
            StreamSlots { active: (self.active - 1) as i64, max: self.max }
        } else {
            self
        }
    }

    /// What is left once so many have asked for a place.
    pub open spec fn after_asking(self, n: nat) -> StreamSlots
        decreases n,
    {
        if n == 0 {
            self
        } else {
            self.after_asking((n - 1) as nat).taken().1
        }
    }

    /// No stream is open.
    pub fn new(max: i64) -> (s: Self)
        ensures
            s.wf(),
            s.active == 0,
            s.max == max,
    {
        StreamSlots { active: 0, max }
    }

    /// Opens a stream, unless as many are open as may be.
    pub fn try_acquire_stream(&mut self) -> (r: bool)
        requires
            old(self).wf(),
        ensures
            final(self).wf(),
            final(self).max == old(self).max,
            (r, *final(self)) == old(self).taken(),
            r == (old(self).active < old(self).max),
            final(self).active == old(self).active + if r {
                1int
            } else {
                0
            },
    {
        if self.active >= self.max {
            return false;
        }
        self.active = self.active + 1;
        true
    }

    /// Closes a stream.
    pub fn release_stream(&mut self)
        requires
            old(self).wf(),
        ensures
            final(self).wf(),
            final(self).max == old(self).max,
            *final(self) == old(self).given_back(),
            final(self).active == if old(self).active > 0 {
                old(self).active - 1
            } else {
                0
            },
    {
        if self.active > 0 {
            self.active = self.active - 1;
        }
    }
}

// ---------------------------------------------------------------------------
// Laws
// ---------------------------------------------------------------------------

proof fn lemma_exact_host(hosts: Seq<HostRouter>, name: Seq<char>, from: int, j: int)
    requires
        0 <= from <= j < hosts.len(),
        is_exactly(hosts[j], name),
    ensures
        exact_host(hosts, name, from) matches Some(i) && from <= i <= j && is_exactly(
            hosts[i],
            name,
        ),
    decreases hosts.len() - from,
{
    if !is_exactly(hosts[from], name) {
        lemma_exact_host(hosts, name, from + 1, j);
    }
}

proof fn lemma_wildcard_host(hosts: Seq<HostRouter>, name: Seq<char>, from: int, j: int)
    requires
        0 <= from <= j < hosts.len(),
        is_wildcard_for(hosts[j], name),
    ensures
        wildcard_host(hosts, name, from) matches Some(i) && from <= i <= j && is_wildcard_for(
            hosts[i],
            name,
        ),
    decreases hosts.len() - from,
{
    if !is_wildcard_for(hosts[from], name) {
        lemma_wildcard_host(hosts, name, from + 1, j);
    }
}

proof fn lemma_no_host(hosts: Seq<HostRouter>, name: Seq<char>, from: int)
    requires
        0 <= from <= hosts.len(),
    ensures
        (forall|i: int| from <= i < hosts.len() ==> !is_exactly(#[trigger] hosts[i], name))
            ==> exact_host(hosts, name, from) is None,
        (forall|i: int| from <= i < hosts.len() ==> !is_wildcard_for(#[trigger] hosts[i], name))
            ==> wildcard_host(hosts, name, from) is None,
    decreases hosts.len() - from,
{
    if from < hosts.len() {
        lemma_no_host(hosts, name, from + 1);
    }
}

/// A host with the very name in the header is chosen before any wildcard, a wildcard that
/// covers the name before the default host, and the default host where neither is there.
pub proof fn law_host_choice(rt: ServeRuntime, header: Seq<char>, j: int)
    ensures
        0 <= j < rt.vhosts@.len() && is_exactly(rt.vhosts@[j], host_name(header)) ==> is_exactly(
            rt.host_for(header),
            host_name(header),
        ),
        (forall|i: int|
            0 <= i < rt.vhosts@.len() ==> !is_exactly(#[trigger] rt.vhosts@[i], host_name(header)))
            && 0 <= j < rt.vhosts@.len() && is_wildcard_for(rt.vhosts@[j], host_name(header))
            ==> is_wildcard_for(rt.host_for(header), host_name(header)),
        (forall|i: int|
            0 <= i < rt.vhosts@.len() ==> !is_exactly(#[trigger] rt.vhosts@[i], host_name(header))
                && !is_wildcard_for(rt.vhosts@[i], host_name(header))) ==> rt.host_for(header)
            == rt.default_host,
{
    let name = host_name(header);
    if 0 <= j < rt.vhosts@.len() && is_exactly(rt.vhosts@[j], name) {
        lemma_exact_host(rt.vhosts@, name, 0, j);
    }
    if 0 <= j < rt.vhosts@.len() && is_wildcard_for(rt.vhosts@[j], name) {
        lemma_wildcard_host(rt.vhosts@, name, 0, j);
    }
    lemma_no_host(rt.vhosts@, name, 0);
}

proof fn lemma_chosen_in_range(hosts: Seq<HostRouter>, name: Seq<char>, from: int)
    requires
        0 <= from,
    ensures
        exact_host(hosts, name, from) matches Some(i) ==> from <= i < hosts.len(),
        wildcard_host(hosts, name, from) matches Some(i) ==> from <= i < hosts.len(),
    decreases hosts.len() - from,
{
    if from < hosts.len() {
        lemma_chosen_in_range(hosts, name, from + 1);
    }
}

/// The table of the host that is chosen is in order.
pub proof fn law_chosen_host_is_in_order(rt: ServeRuntime, header: Seq<char>)
    requires
        rt.wf(),
    ensures
        rt.host_for(header).wf(),
{
    lemma_chosen_in_range(rt.vhosts@, host_name(header), 0);
}

/// A private server asks crawlers to stay away and does not describe itself to agents.
pub proof fn law_private_server_is_not_described(rt: ServeRuntime)
    requires
        rt.private,
    ensures
        rt.discovery("/llms.txt"@) is None,
        rt.discovery("/robots.txt"@) == Some(
            media::raw_text("User-agent: *\nDisallow: /\n"@, "text/plain; charset=utf-8"@, 200),
        ),
{
    reveal_strlit("/llms.txt");
    reveal_strlit("/robots.txt");
    assert("/llms.txt"@[1] == 'l' && "/robots.txt"@[1] == 'r');
}

/// A secure server answers all internal errors alike.
pub proof fn law_secure_server_hides_details(rt: ServeRuntime, a: Seq<char>, b: Seq<char>)
    requires
        rt.secure,
    ensures
        rt.internal_error(a) == rt.internal_error(b),
{
}

/// The body of an error holds its message and its status, under those names; an internal error
/// is told in full unless the server is secure.
pub proof fn law_error_bodies(rt: ServeRuntime, message: Seq<char>, status: int)
    ensures
        error_view(message, status) == BodyView::Json(
            JsonTree::Object(
                seq![("error"@, JsonTree::Str(message)), ("status"@, JsonTree::Int(status))],
            ),
        ),
        rt.internal_error(message) == error_view(
            if rt.secure {
                "internal server error"@
            } else {
                message
            },
            500,
        ),
{
}

/// The name of a host stands before its port, which may be missing, without white space around
/// it.
pub proof fn law_host_names_have_no_port(a: Seq<char>, name: Seq<char>, b: Seq<char>, port: Seq<char>)
    requires
        name.len() > 0,
        forall|i: int| 0 <= i < name.len() ==> #[trigger] name[i] != ':' && !text::is_space(name[i]),
        forall|i: int| 0 <= i < a.len() ==> text::is_space(#[trigger] a[i]),
        forall|i: int| 0 <= i < b.len() ==> text::is_space(#[trigger] b[i]),
    ensures
        host_name(a + name + b + seq![':'] + port) == name,
        host_name(a + name + b) == name,
{
    let s = a + name + b;
    assert forall|i: int| 0 <= i < s.len() implies s[i] != ':' by {
        if i < a.len() {
            assert(s[i] == a[i]);
        } else if i < a.len() + name.len() {
            assert(s[i] == name[i - a.len()]);
        } else {
            assert(s[i] == b[i - a.len() - name.len()]);
        }
    }
    text::law_text_is_cut_at_the_first(s, ':', port);
    text::law_trimming_undoes_padding(a, name, b, Trim::Space);
}

proof fn lemma_first_exact(hosts: Seq<HostRouter>, name: Seq<char>, i: int, j: int)
    requires
        0 <= i <= j < hosts.len(),
        is_exactly(hosts[j], name),
        forall|k: int| i <= k < j ==> !is_exactly(#[trigger] hosts[k], name),
    ensures
        exact_host(hosts, name, i) == Some(j),
    decreases j - i,
{
    if i < j {
        assert(!is_exactly(hosts[i], name));
        lemma_first_exact(hosts, name, i + 1, j);
    }
}

proof fn lemma_none_exact(hosts: Seq<HostRouter>, name: Seq<char>, i: int)
    requires
        0 <= i <= hosts.len(),
        forall|k: int| i <= k < hosts.len() ==> !is_exactly(#[trigger] hosts[k], name),
    ensures
        exact_host(hosts, name, i) is None,
    decreases hosts.len() - i,
{
    if i < hosts.len() {
        assert(!is_exactly(hosts[i], name));
        lemma_none_exact(hosts, name, i + 1);
    }
}

proof fn lemma_first_wildcard(hosts: Seq<HostRouter>, name: Seq<char>, i: int, j: int)
    requires
        0 <= i <= j < hosts.len(),
        is_wildcard_for(hosts[j], name),
        forall|k: int| i <= k < j ==> !is_wildcard_for(#[trigger] hosts[k], name),
    ensures
        wildcard_host(hosts, name, i) == Some(j),
    decreases j - i,
{
    if i < j {
        assert(!is_wildcard_for(hosts[i], name));
        lemma_first_wildcard(hosts, name, i + 1, j);
    }
}

/// A request goes to the first host that has its name for its pattern, whatever the case;
/// where none has, to the first one with a wildcard for a domain that the name is or lies
/// below.
pub proof fn law_request_goes_to_its_host(rt: ServeRuntime, header: Seq<char>, j: int, p: String)
    requires
        0 <= j < rt.vhosts@.len(),
        rt.vhosts@[j].pattern == Some(p),
    ensures
        p@.len() > 0 && p@[0] != '*' && text::lower_ascii(p@) == text::lower_ascii(
            host_name(header),
        ) && (forall|k: int| 0 <= k < j ==> !is_exactly(#[trigger] rt.vhosts@[k], host_name(header)))
            ==> rt.host_index(header) == Some(j) && rt.host_for(header) == rt.vhosts@[j],
        (forall|k: int|
            0 <= k < rt.vhosts@.len() ==> !is_exactly(#[trigger] rt.vhosts@[k], host_name(header)))
            && (forall|k: int|
            0 <= k < j ==> !is_wildcard_for(#[trigger] rt.vhosts@[k], host_name(header)))
            && text::has_prefix(p@, seq!['*', '.']) && host::covers(p@, host_name(header))
            ==> rt.host_index(header) == Some(j) && rt.host_for(header) == rt.vhosts@[j],
{
    let name = host_name(header);
    let hosts = rt.vhosts@;
    if p@.len() > 0 && p@[0] != '*' && text::lower_ascii(p@) == text::lower_ascii(name) && (forall|
        k: int,
    |
        0 <= k < j ==> !is_exactly(#[trigger] hosts[k], name)) {
        if host::is_wildcard(p@) {
            assert(p@.take(2)[0] == '*');
        }
        lemma_first_exact(hosts, name, 0, j);
    }
    if (forall|k: int| 0 <= k < hosts.len() ==> !is_exactly(#[trigger] hosts[k], name)) && (forall|
        k: int,
    |
        0 <= k < j ==> !is_wildcard_for(#[trigger] hosts[k], name)) && text::has_prefix(
        p@,
        seq!['*', '.'],
    ) && host::covers(p@, name) {
        lemma_none_exact(hosts, name, 0);
        lemma_first_wildcard(hosts, name, 0, j);
    }
}

/// The title of a server is what it says about itself, else its intent, else a general name.
pub proof fn law_title_of_a_server(rt: ServeRuntime)
    ensures
        rt.describe_about matches Some(t) ==> rt.title() == t@,
        rt.describe_about is None ==> (rt.intent matches Some(t) ==> rt.title() == t@),
        rt.describe_about is None && rt.intent is None ==> rt.title() == "Syntecnia service"@,
{
}

proof fn lemma_joined_tail(a: Seq<Seq<char>>, b: Seq<Seq<char>>, sep: Seq<char>)
    requires
        a.len() > 0,
    ensures
        text::joined(a + b, sep) == text::joined(a, sep) + b.map_values(
            |x: Seq<char>| sep + x,
        ).flatten(),
    decreases b.len(),
{
    let f = |x: Seq<char>| sep + x;
    if b.len() == 0 {
        assert(a + b =~= a);
        assert(b.map_values(f) =~= Seq::<Seq<char>>::empty());
        assert(text::joined(a, sep) + b.map_values(f).flatten() =~= text::joined(a, sep));
    } else {
        let c = b.drop_last();
        lemma_joined_tail(a, c, sep);
        assert((a + b).drop_last() =~= a + c);
        assert(b.map_values(f) =~= c.map_values(f).push(sep + b.last()));
        c.map_values(f).lemma_flatten_push(sep + b.last());
        assert(text::joined(a + b, sep) =~= text::joined(a, sep) + b.map_values(f).flatten());
    }
}

proof fn lemma_section_laid(
    a: Seq<Seq<char>>,
    heading: Seq<char>,
    lines: Seq<Seq<char>>,
)
    requires
        a.len() > 0,
    ensures
        text::joined(a + section(heading, lines), seq!['\n']) == text::joined(a, seq!['\n']) + (
        if lines.len() > 0 {
            seq!['\n', '\n'] + heading + lines.map_values(
                |x: Seq<char>| seq!['\n'] + x,
            ).flatten()
        } else {
            seq![]
        }),
{
    let nl = seq!['\n'];
    let none = Seq::<char>::empty();
    if lines.len() > 0 {
        let head = a + seq![none, heading];
        assert(a + section(heading, lines) =~= head + lines);
        lemma_joined_tail(head, lines, nl);
        assert(head.drop_last() =~= a.push(none));
        assert(a.push(none).drop_last() =~= a);
        assert(text::joined(a.push(none), nl) == text::joined(a, nl) + nl + none);
        assert(head.last() == heading);
        assert(text::joined(head, nl) == text::joined(a.push(none), nl) + nl + heading);
        assert(text::joined(head, nl) =~= text::joined(a, nl) + seq!['\n', '\n'] + heading);
        let rest = lines.map_values(|x: Seq<char>| nl + x).flatten();
        assert(text::joined(head, nl) + rest =~= text::joined(a, nl) + (seq!['\n', '\n'] + heading
            + rest));
    } else {
        assert(a + section(heading, lines) =~= a);
        assert(text::joined(a, nl) + none =~= text::joined(a, nl));
    }
}

/// The description for agents names the server, its intent where that is another text, every
/// endpoint on a line of its own, in order, and every line about its interface; a part of which
/// there is nothing is left out.
pub proof fn law_description_names_every_endpoint(
    rt: ServeRuntime,
    l: Seq<(Seq<char>, Seq<char>)>,
)
    requires
        lists_endpoints(rt.default_host.routes@, l),
    ensures
        ({
            let api = rt.describe_api@;
            rt.llms() == seq!['#', ' '] + rt.title() + (if rt.intent is Some && rt.intent->0@
                != rt.title() {
                seq!['\n', '\n', '>', ' '] + rt.intent->0@
            } else {
                seq![]
            }) + (if l.len() > 0 {
                seq!['\n', '\n'] + "## Endpoints"@ + l.map_values(
                    |e: (Seq<char>, Seq<char>)| seq!['\n', '-', ' '] + e.0 + seq![' '] + e.1,
                ).flatten()
            } else {
                seq![]
            }) + (if api.len() > 0 {
                seq!['\n', '\n'] + "## API"@ + api.map_values(
                    |s: String| seq!['\n', '-', ' '] + s@,
                ).flatten()
            } else {
                seq![]
            }) + seq!['\n']
        }),
        forall|i: int|
            0 <= i < rt.default_host.routes@.len() ==> l.contains(
                #[trigger] endpoint(rt.default_host.routes@[i]),
            ),
        forall|i: int|
            0 <= i < rt.default_host.routes@.len() ==> #[trigger] endpoint(
                rt.default_host.routes@[i],
            ) == (rt.default_host.routes@[i].method@, rt.default_host.routes@[i].path@),
{
    law_endpoint_list_is_unique(rt.default_host.routes@, l);
    let routes = rt.default_host.routes@;
    assert forall|i: int| 0 <= i < routes.len() implies l.contains(
        #[trigger] endpoint(routes[i]),
    ) by {
        assert(endpoints(routes)[i] == endpoint(routes[i]));
        assert(endpoints(routes).contains(endpoint(routes[i])));
    }
    reveal_strlit("\n");
    reveal_strlit("# ");
    reveal_strlit("> ");
    reveal_strlit("- ");
    reveal_strlit(" ");
    let nl = seq!['\n'];
    assert("\n"@ =~= nl);
    assert("# "@ =~= seq!['#', ' ']);
    assert("> "@ =~= seq!['>', ' ']);
    assert("- "@ =~= seq!['-', ' ']);
    assert(" "@ =~= seq![' ']);
    let none = Seq::<char>::empty();
    let api = rt.describe_api@;
    let first = seq!["# "@ + rt.title()];
    let a = first + rt.intent_lines();
    let intent = if rt.intent is Some && rt.intent->0@ != rt.title() {
        seq!['\n', '\n', '>', ' '] + rt.intent->0@
    } else {
        none
    };
    assert(text::joined(a, nl) =~= seq!['#', ' '] + rt.title() + intent) by {
        if rt.intent is Some && rt.intent->0@ != rt.title() {
            let x = "> "@ + rt.intent->0@;
            assert(a =~= first.push(none).push(x));
            assert(a.drop_last() =~= first.push(none));
            assert(first.push(none).drop_last() =~= first);
            assert(text::joined(first, nl) == "# "@ + rt.title());
            assert(text::joined(first.push(none), nl) == text::joined(first, nl) + nl + none);
            assert(text::joined(a, nl) == text::joined(first.push(none), nl) + nl + x);
        } else {
            assert(a =~= first);
        }
    }
    let elines = l.map_values(|e: (Seq<char>, Seq<char>)| endpoint_line(e));
    let alines = text::texts(api).map_values(|s: Seq<char>| "- "@ + s);
    lemma_section_laid(a, "## Endpoints"@, elines);
    let b = a + section("## Endpoints"@, elines);
    lemma_section_laid(b, "## API"@, alines);
    let ef = elines.map_values(|x: Seq<char>| nl + x);
    let eg = l.map_values(
        |e: (Seq<char>, Seq<char>)| seq!['\n', '-', ' '] + e.0 + seq![' '] + e.1,
    );
    assert forall|i: int| 0 <= i < l.len() implies #[trigger] ef[i] == eg[i] by {
        assert(nl + ("- "@ + l[i].0 + " "@ + l[i].1) =~= seq!['\n', '-', ' '] + l[i].0 + seq![' ']
            + l[i].1);
    }
    assert(ef =~= eg);
    let af = alines.map_values(|x: Seq<char>| nl + x);
    let ag = api.map_values(|s: String| seq!['\n', '-', ' '] + s@);
    assert forall|i: int| 0 <= i < api.len() implies #[trigger] af[i] == ag[i] by {
        assert(nl + ("- "@ + api[i]@) =~= seq!['\n', '-', ' '] + api[i]@);
    }
    assert(af =~= ag);
    assert(rt.llms_lines() == b + section("## API"@, alines));
}

/// The server describes itself under two paths, as plain text in UTF-8: to agents unless it is
/// private, and to crawlers always, whom a private server turns away.
pub proof fn law_what_a_server_says_of_itself(rt: ServeRuntime, path: Seq<char>)
    ensures
        !rt.private ==> (rt.discovery("/llms.txt"@) matches Some(r) && r.body
            == vstd::utf8::encode_utf8(rt.llms()) && r.content_type == "text/plain; charset=utf-8"@
            && r.status == 200),
        rt.discovery("/robots.txt"@) matches Some(r) && r.status == 200 && r.content_type
            == "text/plain; charset=utf-8"@ && r.body == vstd::utf8::encode_utf8(
            if rt.private {
                "User-agent: *\nDisallow: /\n"@
            } else {
                "User-agent: *\nAllow: /\n"@
            },
        ),
        path != "/llms.txt"@ && path != "/robots.txt"@ ==> rt.discovery(path) is None,
        rt.private ==> rt.discovery("/llms.txt"@) is None,
{
    reveal_strlit("/llms.txt");
    reveal_strlit("/robots.txt");
    assert("/llms.txt"@.len() == 9 && "/robots.txt"@.len() == 11);
}

/// Every mount of a host is there, under its normal prefix and with its own directory.
pub proof fn law_every_mount_is_there(given: Seq<Mount>, mounts: Seq<Mount>, i: int)
    requires
        mounted(given, mounts),
        0 <= i < given.len(),
    ensures
        mounts.len() == given.len(),
        exists|j: int|
            0 <= j < mounts.len() && (#[trigger] mounts[j]).prefix@ == host::normal_prefix(
                given[i].prefix@,
            ) && mounts[j].dir == given[i].dir && mounts[j].base == given[i].base,
{
    let named = choose|named: Seq<Mount>| #[trigger]
        host::normalised(given, named) && order::stably_sorted(named, mounts);
    order::law_sorting_keeps_the_elements(named, mounts, named[i]);
    assert(named.contains(named[i]));
    let j = choose|j: int| 0 <= j < mounts.len() && mounts[j] == named[i];
    assert(mounts[j].prefix@ == host::normal_prefix(given[i].prefix@));
}

/// Of those that ask for a place when no stream is open, as many get one as may be, and no
/// more; a place that is given back can be had again.
pub proof fn law_places_for_streams(max: i64, n: nat, s: StreamSlots)
    requires
        max >= 0,
    ensures
        ({
            let empty = StreamSlots { active: 0, max };
            &&& empty.after_asking(n) == (StreamSlots {
                active: if n < max {
                    n as i64
                } else {
                    max
                },
                max,
            })
            &&& empty.after_asking(n).taken().0 <==> n < max
        }),
        s.wf() && s.taken().0 ==> s.taken().1.given_back() == s,
        s.wf() && s.active > 0 ==> s.given_back().taken() == (true, s),
        s.wf() ==> s.taken().1.wf() && s.given_back().wf(),
    decreases n,
{
    if n > 0 {
        law_places_for_streams(max, (n - 1) as nat, s);
    }
}

/// The host that is chosen by its pattern covers the name that was asked for; the default host
/// is chosen only where no other host does.
pub proof fn law_chosen_host_covers_the_name(rt: ServeRuntime, header: Seq<char>, j: int)
    ensures
        match rt.host_index(header) {
            Some(i) => 0 <= i < rt.vhosts@.len() && rt.host_for(header) == rt.vhosts@[i] && (
            rt.vhosts@[i].pattern matches Some(p) && host::covers(p@, host_name(header))),
            None => rt.host_for(header) == rt.default_host && (0 <= j < rt.vhosts@.len() ==> (
            rt.vhosts@[j].pattern matches Some(p) ==> !host::covers(p@, host_name(header)))),
        },
{
    let name = host_name(header);
    lemma_found_exact(rt.vhosts@, name, 0);
    lemma_found_wildcard(rt.vhosts@, name, 0);
    if rt.host_index(header) is None && 0 <= j < rt.vhosts@.len() {
        assert(!is_exactly(rt.vhosts@[j], name));
        assert(!is_wildcard_for(rt.vhosts@[j], name));
    }
}

proof fn lemma_found_exact(hosts: Seq<HostRouter>, name: Seq<char>, i: int)
    requires
        0 <= i,
    ensures
        match exact_host(hosts, name, i) {
            Some(k) => i <= k < hosts.len() && is_exactly(hosts[k], name),
            None => forall|k: int| i <= k < hosts.len() ==> !is_exactly(#[trigger] hosts[k], name),
        },
    decreases hosts.len() - i,
{
    if i < hosts.len() && !is_exactly(hosts[i], name) {
        lemma_found_exact(hosts, name, i + 1);
    }
}

proof fn lemma_found_wildcard(hosts: Seq<HostRouter>, name: Seq<char>, i: int)
    requires
        0 <= i,
    ensures
        match wildcard_host(hosts, name, i) {
            Some(k) => i <= k < hosts.len() && is_wildcard_for(hosts[k], name),
            None => forall|k: int|
                i <= k < hosts.len() ==> !is_wildcard_for(#[trigger] hosts[k], name),
        },
    decreases hosts.len() - i,
{
    if i < hosts.len() && !is_wildcard_for(hosts[i], name) {
        lemma_found_wildcard(hosts, name, i + 1);
    }
}

} // verus!
