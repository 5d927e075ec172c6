//! The routing table of one host, and the choice of a host by the `Host` header.

use indexmap::IndexMap;
use vstd::prelude::*;
use vstd::slice::slice_subrange;
use vstd::utf8::*;

use crate::order;
use crate::order::Ranked;
use crate::outside;
use crate::routing;
use crate::routing::RouteSpec;
use crate::text;
use crate::text::Trim;

verus! {

/// A directory whose files are served under a path prefix. `dir` is the number by which
/// the embedding program finds the directory again, `base` its real path as a list of
/// components.
pub struct Mount {
    pub prefix: String,
    pub dir: usize,
    pub base: Vec<Vec<u8>>,
}

/// Mounts are ordered by the length of their prefixes in bytes, the longest first.
impl Ranked for Mount {
    open spec fn upto(&self, other: &Self) -> bool {
        encode_utf8(self.prefix@).len() >= encode_utf8(other.prefix@).len()
    }

    proof fn lemma_total(a: &Self, b: &Self) {
    }

    proof fn lemma_transitive(a: &Self, b: &Self, c: &Self) {
    }

    fn is_upto(&self, other: &Self) -> (r: bool) {
        self.prefix.as_str().as_bytes().len() >= other.prefix.as_str().as_bytes().len()
    }
}

/// The prefix of a mount between single slashes.
pub open spec fn normal_prefix(prefix: Seq<char>) -> Seq<char> {
    if prefix.len() == 0 || prefix == seq!['/'] {
        seq!['/']
    } else {
        seq!['/'] + text::trimmed(prefix, Trim::Slash) + seq!['/']
    }
}

/// Normalises the prefix of a mount.
pub fn norm_prefix(prefix: &str) -> (r: String)
    ensures
        r@ == normal_prefix(prefix@),
{
    let cs = text::chars_of(prefix);
    let mut r = String::new();
    r.push('/');
    if cs.len() == 0 || (cs.len() == 1 && cs[0] == '/') {
        assert(cs.len() == 1 ==> prefix@ == seq!['/']);
        return r;
    }
    assert(prefix@ != seq!['/']) by {
        if prefix@ == seq!['/'] {
            assert(cs@[0] == '/');
        }
    }
    let inner = text::string_of(text::trim(cs.as_slice(), Trim::Slash));
    r.append(inner.as_str());
    r.push('/');
    r
}

/// What a request path names below a mount prefix, where it lies below it.
pub open spec fn below(prefix: Seq<char>, path: Seq<char>) -> Option<Seq<char>> {
    if prefix == seq!['/'] {
        Some(path)
    } else if path == text::trim_right(prefix, Trim::Slash) {
        Some(seq![])
    } else if text::has_prefix(path, prefix) {
        Some(path.skip(prefix.len() as int))
    } else {
        None
    }
}

impl Mount {
    /// What a request path names below this mount.
    pub fn relative(&self, path: &str) -> (r: Option<String>)
        ensures
            r is Some == below(self.prefix@, path@) is Some,
            r matches Some(s) ==> below(self.prefix@, path@) == Some(s@),
    {
        let prefix = text::chars_of(self.prefix.as_str());
        let cs = text::chars_of(path);
        if prefix.len() == 1 && prefix[0] == '/' {
            assert(self.prefix@ == seq!['/']);
            return Some(text::string_of(cs.as_slice()));
        }
        assert(self.prefix@ != seq!['/']) by {
            if self.prefix@ == seq!['/'] {
                assert(prefix@[0] == '/');
            }
        }
        if text::chars_eq(cs.as_slice(), text::trim_end(prefix.as_slice(), Trim::Slash)) {
            return Some(String::new());
        }
        if text::starts_with(cs.as_slice(), prefix.as_slice()) {
            return Some(text::string_of(slice_subrange(cs.as_slice(), prefix.len(), cs.len())));
        }
        None
    }
}

/// The routing table of a host. Without a pattern it is the default host; `a.com` is that
/// host alone, `*.a.com` is `a.com` and all hosts below it.
pub struct HostRouter {
    pub pattern: Option<String>,
    pub routes: Vec<RouteSpec>,
    pub static_mounts: Vec<Mount>,
    pub auth_handler: Option<usize>,
}

/// A pattern of the form `*.domain`.
pub open spec fn is_wildcard(pattern: Seq<char>) -> bool {
    text::has_prefix(pattern, seq!['*', '.'])
}

/// A host pattern covers a host name.
pub open spec fn covers(pattern: Seq<char>, host: Seq<char>) -> bool {
    if is_wildcard(pattern) {
        let domain = text::lower_ascii(pattern.skip(2));
        let name = text::lower_ascii(host);
        name == domain || text::has_suffix(name, seq!['.'] + domain)
    } else {
        text::same_ignoring_case(host, pattern)
    }
}

/// A route of that method matches the path.
pub open spec fn answers(route: RouteSpec, method: Seq<char>, path: Seq<char>) -> bool {
    route.method@ == method && routing::path_params(route.path@, path) is Some
}

/// The position of the first route that answers, from position `i` on.
pub open spec fn first_route(
    routes: Seq<RouteSpec>,
    method: Seq<char>,
    path: Seq<char>,
    i: int,
) -> Option<int>
    decreases routes.len() - i,
{
    if i < 0 || i >= routes.len() {
        None
    } else if answers(routes[i], method, path) {
        Some(i)
    } else {
        first_route(routes, method, path, i + 1)
    }
}

/// Some route of method `m` has a pattern that matches the path.
pub open spec fn offers(routes: Seq<RouteSpec>, path: Seq<char>, m: Seq<char>) -> bool {
    exists|k: int| 0 <= k < routes.len() && #[trigger] answers(routes[k], m, path)
}

/// `methods` are the methods that are offered for the path, each once, in ascending order.
pub open spec fn lists_methods(
    routes: Seq<RouteSpec>,
    path: Seq<char>,
    methods: Seq<Seq<char>>,
) -> bool {
    &&& order::texts_ascend(methods)
    &&& forall|m: Seq<char>| #[trigger] methods.contains(m) <==> offers(routes, path, m)
}

/// The methods that are offered for the path, each once, in ascending order.
pub open spec fn methods_of(routes: Seq<RouteSpec>, path: Seq<char>) -> Seq<Seq<char>> {
    choose|methods: Seq<Seq<char>>| lists_methods(routes, path, methods)
}

/// There is one list of the methods that are offered for a path.
pub proof fn law_methods_are_unique(
    routes: Seq<RouteSpec>,
    path: Seq<char>,
    methods: Seq<Seq<char>>,
)
    requires
        lists_methods(routes, path, methods),
    ensures
        methods_of(routes, path) == methods,
{
    let other = methods_of(routes, path);
    assert(lists_methods(routes, path, other));
    assert forall|m: Seq<char>| other.contains(m) <==> methods.contains(m) by {
        assert(other.contains(m) <==> offers(routes, path, m));
        assert(methods.contains(m) <==> offers(routes, path, m));
    }
    order::law_ascending_texts_are_unique(other, methods);
}

proof fn lemma_offers_step(routes: Seq<RouteSpec>, path: Seq<char>, n: int, m: Seq<char>)
    requires
        0 <= n < routes.len(),
    ensures
        offers(routes.take(n + 1), path, m) <==> offers(routes.take(n), path, m) || answers(
            routes[n],
            m,
            path,
        ),
{
    let now = routes.take(n + 1);
    let was = routes.take(n);
    if offers(was, path, m) {
        let k = choose|k: int| 0 <= k < was.len() && #[trigger] answers(was[k], m, path);
        assert(answers(now[k], m, path));
    }
    if answers(routes[n], m, path) {
        assert(answers(now[n], m, path));
    }
    if offers(now, path, m) {
        let k = choose|k: int| 0 <= k < now.len() && #[trigger] answers(now[k], m, path);
        if k < n {
            assert(answers(was[k], m, path));
        }
    }
}

/// `named` are the given mounts with their prefixes normalised.
pub open spec fn normalised(given: Seq<Mount>, named: Seq<Mount>) -> bool {
    &&& named.len() == given.len()
    &&& forall|i: int|
        0 <= i < named.len() ==> {
            &&& (#[trigger] named[i]).prefix@ == normal_prefix(given[i].prefix@)
            &&& named[i].dir == given[i].dir
            &&& named[i].base == given[i].base
        }
}

impl HostRouter {
    /// The routes stand in order of specificity and the mounts in order of prefix length.
    pub open spec fn wf(&self) -> bool {
        &&& forall|i: int, j: int|
            #![trigger self.routes@[i], self.routes@[j]]
            0 <= i < j < self.routes@.len() ==> self.routes@[i].upto(&self.routes@[j])
        &&& forall|i: int, j: int|
            #![trigger self.static_mounts@[i], self.static_mounts@[j]]
            0 <= i < j < self.static_mounts@.len() ==> self.static_mounts@[i].upto(
                &self.static_mounts@[j],
            )
    }

    /// A routing table: routes in order of specificity, mounts with normalised prefixes in
    /// order of length, equals in the order given.
    pub fn new(
        pattern: Option<String>,
        routes: Vec<RouteSpec>,
        static_mounts: Vec<Mount>,
        auth_handler: Option<usize>,
    ) -> (h: Self)
        ensures
            h.wf(),
            h.pattern == pattern,
            h.auth_handler == auth_handler,
            order::stably_sorted(routes@, h.routes@),
            exists|named: Seq<Mount>| #[trigger]
                normalised(static_mounts@, named) && order::stably_sorted(named, h.static_mounts@),
    {
        let mut left = static_mounts;
        let ghost given = left@;
        let mut named: Vec<Mount> = Vec::new();
        while left.len() > 0
            invariant
                left@ == given.take(left@.len() as int),
                left@.len() <= given.len(),
                named@.len() == given.len() - left@.len(),
                forall|i: int|
                    0 <= i < named@.len() ==> (#[trigger] named@[i]).prefix@ == normal_prefix(
                        given[left@.len() + i].prefix@,
                    ) && named@[i].dir == given[left@.len() + i].dir && named@[i].base == given[left@.len()
                        + i].base,
            decreases left.len(),
        {
            let ghost old_named = named@;
            let ghost n = left@.len();
            match left.pop() {
                Some(m) => {
                    let prefix = norm_prefix(m.prefix.as_str());
                    named.insert(0, Mount { prefix, dir: m.dir, base: m.base });
                    assert forall|i: int| 0 <= i < named@.len() implies (#[trigger] named@[i]).prefix@
                        == normal_prefix(given[left@.len() + i].prefix@) && named@[i].dir
                        == given[left@.len() + i].dir && named@[i].base == given[left@.len() + i].base by {
                        if i > 0 {
                            assert(named@[i] == old_named[i - 1]);
                        }
                    }
                },
                None => {},
            }
        }
        let ghost all_named = named@;
        let routes = order::stable_sort(routes);
        let mounts = order::stable_sort(named);
        assert(normalised(given, all_named));
        assert(order::stably_sorted(all_named, mounts@));
        HostRouter { pattern, routes, static_mounts: mounts, auth_handler }
    }

    /// Whether this host covers a host name. The default host covers all.
    pub fn matches_host(&self, host: &str) -> (r: bool)
        ensures
            r == (self.pattern matches Some(p) ==> covers(p@, host@)),
    {
        match &self.pattern {
            None => true,
            Some(p) => {
                let cs = text::chars_of(p.as_str());
                if cs.len() >= 2 && cs[0] == '*' && cs[1] == '.' {
                    assert(p@.take(2) == seq!['*', '.']);
                    let domain = text::to_lower_ascii(slice_subrange(cs.as_slice(), 2, cs.len()));
                    assert(domain@ == text::lower_ascii(p@.skip(2)));
                    let name = text::to_lower_ascii(text::chars_of(host).as_slice());
                    if text::chars_eq(name.as_slice(), domain.as_slice()) {
                        return true;
                    }
                    let mut dotted: Vec<char> = Vec::new();
                    dotted.push('.');
                    dotted.extend_from_slice(domain.as_slice());
                    assert(dotted@ == seq!['.'] + domain@);
                    text::ends_with(name.as_slice(), dotted.as_slice())
                } else {
                    assert(!is_wildcard(p@)) by {
                        if is_wildcard(p@) {
                            assert(p@.take(2)[0] == p@[0] && p@.take(2)[1] == p@[1]);
                        }
                    }
                    text::eq_ignore_ascii_case(host, p.as_str())
                }
            },
        }
    }

    /// The first route of that method whose pattern matches, with the parameters captured.
    pub fn match_route(&self, method: &str, path: &str) -> (r: Option<
        (usize, IndexMap<String, String>),
    >)
        ensures
            r is Some == first_route(self.routes@, method@, path@, 0) is Some,
            r matches Some((i, params)) ==> {
                &&& i < self.routes@.len()
                &&& first_route(self.routes@, method@, path@, 0) == Some(i as int)
                &&& routing::path_params(self.routes@[i as int].path@, path@) == Some(
                    outside::entries(params),
                )
            },
    {
        let mut i: usize = 0;
        while i < self.routes.len()
            invariant
                i <= self.routes@.len(),
                first_route(self.routes@, method@, path@, 0) == first_route(
                    self.routes@,
                    method@,
                    path@,
                    i as int,
                ),
            decreases self.routes.len() - i,
        {
            let route = &self.routes[i];
            if text::str_eq(route.method.as_str(), method) {
                if let Some(params) = routing::path_match(route.path.as_str(), path) {
                    return Some((i, params));
                }
            }
            i = i + 1;
        }
        None
    }

    /// The methods of the routes that match the path, sorted.
    pub fn methods_for_path(&self, path: &str) -> (r: Vec<String>)
        ensures
            lists_methods(self.routes@, path@, text::texts(r@)),
            text::texts(r@) == methods_of(self.routes@, path@),
    {
        let mut methods: Vec<String> = Vec::new();
        for n in 0..self.routes.len()
            invariant
                forall|m: Seq<char>| #[trigger]
                    text::texts(methods@).contains(m) <==> offers(
                        self.routes@.take(n as int),
                        path@,
                        m,
                    ),
        {
            let route = &self.routes[n];
            let ghost before = text::texts(methods@);
            let ghost name = route.method@;
            if routing::path_match(route.path.as_str(), path).is_some() {
                methods.push(route.method.as_str().to_owned());
                proof {
                    let now = text::texts(methods@);
                    assert(now == before.push(name));
                    assert(now.last() == name);
                    assert(now.contains(name));
                    assert forall|m: Seq<char>| #[trigger] now.contains(m) <==> before.contains(m)
                        || m == name by {
                        if before.contains(m) {
                            let i = choose|i: int| 0 <= i < before.len() && before[i] == m;
                            assert(now[i] == m);
                        }
                    }
                }
            }
            proof {
                let now = text::texts(methods@);
                assert forall|m: Seq<char>| #[trigger] now.contains(m) <==> offers(
                    self.routes@.take(n + 1),
                    path@,
                    m,
                ) by {
                    lemma_offers_step(self.routes@, path@, n as int, m);
                    assert(before.contains(m) <==> offers(self.routes@.take(n as int), path@, m));
                }
            }
        }
        let ghost found = text::texts(methods@);
        let sorted = order::sort_texts(methods);
        proof {
            assert(self.routes@.take(self.routes@.len() as int) == self.routes@);
            assert forall|m: Seq<char>| #[trigger] text::texts(sorted@).contains(m) <==> offers(
                self.routes@,
                path@,
                m,
            ) by {
                assert(found.contains(m) <==> offers(self.routes@, path@, m));
            }
            law_methods_are_unique(self.routes@, path@, text::texts(sorted@));
        }
        sorted
    }
}

// ---------------------------------------------------------------------------
// Laws
// ---------------------------------------------------------------------------

proof fn lemma_first_route(
    routes: Seq<RouteSpec>,
    method: Seq<char>,
    path: Seq<char>,
    from: int,
    j: int,
)
    requires
        0 <= from <= j < routes.len(),
        answers(routes[j], method, path),
    ensures
        first_route(routes, method, path, from) matches Some(i) && from <= i <= j && answers(
            routes[i],
            method,
            path,
        ),
    decreases routes.len() - from,
{
    if !answers(routes[from], method, path) {
        lemma_first_route(routes, method, path, from + 1, j);
    }
}

/// The route that answers a request is at least as specific as every other route that could
/// answer it.
pub proof fn law_most_specific_route_wins(
    h: HostRouter,
    method: Seq<char>,
    path: Seq<char>,
    j: int,
)
    requires
        h.wf(),
        0 <= j < h.routes@.len(),
        answers(h.routes@[j], method, path),
    ensures
        first_route(h.routes@, method, path, 0) matches Some(i) && answers(
            h.routes@[i],
            method,
            path,
        ) && routing::ranks_upto(
            routing::ranks(h.routes@[i].path@),
            routing::ranks(h.routes@[j].path@),
        ),
{
    lemma_first_route(h.routes@, method, path, 0, j);
    let i = first_route(h.routes@, method, path, 0)->0;
    if i < j {
        assert(h.routes@[i].upto(&h.routes@[j]));
    } else {
        RouteSpec::lemma_total(&h.routes@[j], &h.routes@[j]);
    }
}

/// No method is offered for a path that no route answers, and the other way round.
pub proof fn law_methods_are_those_that_answer(
    routes: Seq<RouteSpec>,
    path: Seq<char>,
    m: Seq<char>,
)
    ensures
        offers(routes, path, m) <==> first_route(routes, m, path, 0) is Some,
{
    if offers(routes, path, m) {
        let k = choose|k: int| 0 <= k < routes.len() && #[trigger] answers(routes[k], m, path);
        lemma_first_route(routes, m, path, 0, k);
    }
    if first_route(routes, m, path, 0) is Some {
        lemma_first_route_answers(routes, m, path, 0);
    }
}

pub proof fn lemma_first_route_answers(
    routes: Seq<RouteSpec>,
    method: Seq<char>,
    path: Seq<char>,
    from: int,
)
    requires
        0 <= from,
    ensures
        first_route(routes, method, path, from) matches Some(i) ==> from <= i < routes.len()
            && answers(routes[i], method, path),
    decreases routes.len() - from,
{
    if from < routes.len() && !answers(routes[from], method, path) {
        lemma_first_route_answers(routes, method, path, from + 1);
    }
}

/// The methods of the routes that match a path.
spec fn matching(routes: Seq<RouteSpec>, path: Seq<char>) -> Seq<Seq<char>> {
    routes.filter(|r: RouteSpec| routing::path_params(r.path@, path) is Some).map_values(
        |r: RouteSpec| r.method@,
    )
}

/// The list of the methods that are offered for a path holds exactly those, in order.
pub proof fn law_methods_are_listed(routes: Seq<RouteSpec>, path: Seq<char>)
    ensures
        lists_methods(routes, path, methods_of(routes, path)),
{
    let keep = |r: RouteSpec| routing::path_params(r.path@, path) is Some;
    let kept = routes.filter(keep);
    let all = matching(routes, path);
    let l = order::law_ascending_list_exists(all);
    broadcast use vstd::seq_lib::group_filter_ensures;

    assert forall|m: Seq<char>| #[trigger] l.contains(m) <==> offers(routes, path, m) by {
        if l.contains(m) {
            assert(all.contains(m));
            let i = choose|i: int| 0 <= i < all.len() && all[i] == m;
            assert(kept.contains(kept[i]));
            routes.lemma_filter_contains_rev(keep, kept[i]);
            assert(routes.contains(kept[i]));
            let k = choose|k: int| 0 <= k < routes.len() && routes[k] == kept[i];
            assert(keep(kept[i]));
            assert(answers(routes[k], m, path));
        }
        if offers(routes, path, m) {
            let k = choose|k: int| 0 <= k < routes.len() && #[trigger] answers(routes[k], m, path);
            assert(keep(routes[k]));
            assert(kept.contains(routes[k]));
            let i = choose|i: int| 0 <= i < kept.len() && kept[i] == routes[k];
            assert(all[i] == m);
            assert(all.contains(m));
        }
    }
    law_methods_are_unique(routes, path, l);
}

/// Host names are compared without regard to the case of their letters.
pub proof fn law_hosts_ignore_case(pattern: Seq<char>, a: Seq<char>, b: Seq<char>)
    requires
        text::same_ignoring_case(a, b),
    ensures
        covers(pattern, a) == covers(pattern, b),
{
}

/// A wildcard pattern covers its domain and every host below it.
pub proof fn law_wildcard_covers_its_domain(domain: Seq<char>, sub: Seq<char>)
    ensures
        covers(seq!['*', '.'] + domain, domain),
        covers(seq!['*', '.'] + domain, sub + seq!['.'] + domain),
{
    let pattern = seq!['*', '.'] + domain;
    assert(pattern.take(2) =~= seq!['*', '.']);
    assert(pattern.skip(2) =~= domain);
    let low = text::lower_ascii(domain);
    let name = text::lower_ascii(sub + seq!['.'] + domain);
    let tail = seq!['.'] + low;
    assert(text::lower_char('.') == '.');
    assert(name.skip(name.len() - tail.len()) =~= tail);
}

/// The prefix of a mount stands between single slashes, however many it was given with; an
/// empty prefix is the root.
pub proof fn law_prefixes_are_normal(a: Seq<char>, name: Seq<char>, b: Seq<char>)
    requires
        forall|i: int| 0 <= i < a.len() ==> #[trigger] a[i] == '/',
        forall|i: int| 0 <= i < b.len() ==> #[trigger] b[i] == '/',
        name.len() > 0,
        name[0] != '/',
        name.last() != '/',
    ensures
        normal_prefix(a + name + b) == seq!['/'] + name + seq!['/'],
        normal_prefix(seq![]) == seq!['/'],
        normal_prefix(seq!['/']) == seq!['/'],
{
    let p = a + name + b;
    text::law_trimming_undoes_padding(a, name, b, Trim::Slash);
    assert(p[a.len() as int] == name[0]);
    if p == seq!['/'] {
        assert(p[a.len() as int] == '/');
    }
}

/// A path lies below a mount where it is the prefix and something behind it, which is what it
/// names there, or the prefix without its last slash; every path lies below the root, and no
/// other path below another mount.
pub proof fn law_paths_below_a_mount(name: Seq<char>, rest: Seq<char>, path: Seq<char>)
    requires
        name.len() > 0,
        name.last() != '/',
    ensures
        ({
            let prefix = seq!['/'] + name + seq!['/'];
            &&& below(prefix, prefix + rest) == Some(rest)
            &&& below(prefix, seq!['/'] + name) == Some(Seq::<char>::empty())
            &&& below(prefix, path) matches Some(r) ==> path == prefix + r || path == seq!['/']
                + name
            &&& below(seq!['/'], path) == Some(path)
        }),
{
    let bare = seq!['/'] + name;
    let prefix = bare + seq!['/'];
    assert(prefix != seq!['/']) by {
        assert(prefix.len() > 1);
    }
    assert(bare.last() == name.last());
    assert(prefix.drop_last() =~= bare);
    assert(text::trim_right(bare, Trim::Slash) == bare);
    assert(text::trim_right(prefix, Trim::Slash) == bare);
    let all = prefix + rest;
    assert(all.take(prefix.len() as int) =~= prefix);
    assert(all.skip(prefix.len() as int) =~= rest);
    assert(all.len() > bare.len());
    assert(all != bare);
    if text::has_prefix(path, prefix) {
        assert(path =~= prefix + path.skip(prefix.len() as int));
    }
}

/// A pattern without a wildcard covers the host of its name, whatever the case, and no other;
/// a wildcard covers nothing but its domain and the hosts below it.
pub proof fn law_patterns_cover_their_hosts(pattern: Seq<char>, name: Seq<char>)
    ensures
        pattern.len() > 0 && pattern[0] != '*' ==> (covers(pattern, name) <==> text::lower_ascii(
            pattern,
        ) == text::lower_ascii(name)),
        covers(seq!['*', '.'] + pattern, name) ==> text::lower_ascii(name) == text::lower_ascii(
            pattern,
        ) || exists|k: int|
            0 <= k < name.len() && text::lower_ascii(name) == #[trigger] text::lower_ascii(
                name,
            ).take(k) + seq!['.'] + text::lower_ascii(pattern),
        text::lower_ascii(name) == text::lower_ascii(pattern) ==> covers(
            seq!['*', '.'] + pattern,
            name,
        ),
{
    let wild = seq!['*', '.'] + pattern;
    assert(wild.take(2) =~= seq!['*', '.']);
    assert(wild.skip(2) =~= pattern);
    if pattern.len() > 0 && pattern[0] != '*' && is_wildcard(pattern) {
        assert(pattern.take(2)[0] == '*');
    }
    let n = text::lower_ascii(name);
    let d = text::lower_ascii(pattern);
    let end = seq!['.'] + d;
    if covers(wild, name) && n != d {
        let k = n.len() - end.len();
        assert(n =~= n.take(k) + n.skip(k));
        assert(n =~= n.take(k) + seq!['.'] + d);
    }
}

proof fn lemma_no_earlier_route(routes: Seq<RouteSpec>, method: Seq<char>, path: Seq<char>, from: int)
    requires
        0 <= from,
    ensures
        match first_route(routes, method, path, from) {
            Some(i) => from <= i < routes.len() && answers(routes[i], method, path) && forall|j: int|
                from <= j < i ==> !answers(#[trigger] routes[j], method, path),
            None => forall|j: int|
                from <= j < routes.len() ==> !answers(#[trigger] routes[j], method, path),
        },
    decreases routes.len() - from,
{
    if from < routes.len() && !answers(routes[from], method, path) {
        lemma_no_earlier_route(routes, method, path, from + 1);
    }
}

/// The route that answers is the first one in the table with the method of the request whose
/// pattern matches the path; there is none exactly where no route has that method and matches.
pub proof fn law_first_route_answers(routes: Seq<RouteSpec>, method: Seq<char>, path: Seq<char>)
    ensures
        match first_route(routes, method, path, 0) {
            Some(i) => 0 <= i < routes.len() && routes[i].method@ == method
                && routing::path_params(routes[i].path@, path) is Some && forall|j: int|
                0 <= j < i && (#[trigger] routes[j]).method@ == method ==> routing::path_params(
                    routes[j].path@,
                    path,
                ) is None,
            None => forall|j: int|
                0 <= j < routes.len() && (#[trigger] routes[j]).method@ == method
                    ==> routing::path_params(routes[j].path@, path) is None,
        },
{
    lemma_no_earlier_route(routes, method, path, 0);
    match first_route(routes, method, path, 0) {
        Some(i) => {
            assert forall|j: int|
                0 <= j < i && (#[trigger] routes[j]).method@ == method implies routing::path_params(
                routes[j].path@,
                path,
            ) is None by {
                assert(!answers(routes[j], method, path));
            }
        },
        None => {
            assert forall|j: int|
                0 <= j < routes.len() && (#[trigger] routes[j]).method@
                    == method implies routing::path_params(routes[j].path@, path) is None by {
                assert(!answers(routes[j], method, path));
            }
        },
    }
}

/// Of two routes that both answer, the one with a literal goes before the one that has a
/// parameter or a catch-all in its place, and a parameter before a catch-all: the other is not
/// chosen.
pub proof fn law_literal_route_wins(
    h: HostRouter,
    method: Seq<char>,
    path: Seq<char>,
    a: int,
    b: int,
    i: int,
)
    requires
        h.wf(),
        0 <= a < h.routes@.len(),
        0 <= b < h.routes@.len(),
        h.routes@[a].method@ == method,
        routing::path_params(h.routes@[a].path@, path) is Some,
        ({
            let p = routing::segments_of(h.routes@[a].path@);
            let q = routing::segments_of(h.routes@[b].path@);
            &&& 0 <= i < p.len()
            &&& i < q.len()
            &&& forall|j: int| 0 <= j < i ==> routing::rank(#[trigger] p[j]) == routing::rank(q[j])
            &&& p[i][0] != ':' && p[i][0] != '*' && (q[i][0] == ':' || q[i][0] == '*') || p[i][0]
                == ':' && q[i][0] == '*'
        }),
    ensures
        first_route(h.routes@, method, path, 0) is Some,
        first_route(h.routes@, method, path, 0) != Some(b),
{
    law_most_specific_route_wins(h, method, path, a);
    routing::law_literals_come_first(h.routes@[a].path@, h.routes@[b].path@, i);
}

/// Of two mounts that a path lies below, the one with the longer prefix is tried first.
pub proof fn law_longest_mount_comes_first(h: HostRouter, i: int, j: int)
    requires
        h.wf(),
        0 <= i < j < h.static_mounts@.len(),
    ensures
        encode_utf8(h.static_mounts@[i].prefix@).len() >= encode_utf8(
            h.static_mounts@[j].prefix@,
        ).len(),
{
    assert(h.static_mounts@[i].upto(&h.static_mounts@[j]));
}

/// A mount keeps its directory when its prefix is made normal.
pub proof fn law_mounts_keep_their_directories(given: Seq<Mount>, named: Seq<Mount>, i: int)
    requires
        normalised(given, named),
    ensures
        named.len() == given.len(),
        0 <= i < given.len() ==> named[i].dir == given[i].dir && named[i].base == given[i].base
            && named[i].prefix@ == normal_prefix(given[i].prefix@),
{
}

} // verus!
