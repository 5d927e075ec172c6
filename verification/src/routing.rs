//! Routes: patterns, how specific they are, what they match, and the routing table of a
//! host.

use indexmap::IndexMap;
use vstd::prelude::*;
use vstd::slice::slice_subrange;

use crate::order::Ranked;
use crate::outside;
use crate::text;
use crate::url;

verus! {

// ---------------------------------------------------------------------------
// Patterns
// ---------------------------------------------------------------------------

/// The non-empty pieces of a path between its slashes.
pub open spec fn segments_of(path: Seq<char>) -> Seq<Seq<char>> {
    text::pieces(path, '/').filter(|p: Seq<char>| p.len() > 0)
}

/// A segment of the form `:name`.
pub open spec fn is_param(seg: Seq<char>) -> bool {
    seg.len() > 0 && seg[0] == ':'
}

/// A segment of the form `*name`.
pub open spec fn is_catchall(seg: Seq<char>) -> bool {
    seg.len() > 0 && seg[0] == '*'
}

/// The rank of a pattern segment: a literal before a parameter before a catch-all.
pub open spec fn rank(seg: Seq<char>) -> i32 {
    if is_catchall(seg) {
        2
    } else if is_param(seg) {
        1
    } else {
        0
    }
}

/// The ranks of the segments of a pattern.
pub open spec fn ranks(pattern: Seq<char>) -> Seq<i32> {
    segments_of(pattern).map_values(|s: Seq<char>| rank(s))
}

/// The texts of segments, each with its percent-encoding undone.
pub open spec fn all_unquoted(segs: Seq<Seq<char>>) -> Seq<Seq<char>> {
    segs.map_values(|s: Seq<char>| url::unquoted(s))
}

/// Matches the segments of a path against those of a pattern, from the left, and adds what
/// the pattern captures to `params`. A literal matches itself, `:name` captures one
/// segment, `*name` captures all that are left, of which there must be one.
pub open spec fn captures(
    pattern: Seq<Seq<char>>,
    path: Seq<Seq<char>>,
    params: Seq<(Seq<char>, Seq<char>)>,
) -> Option<Seq<(Seq<char>, Seq<char>)>>
    decreases pattern.len(),
{
    if pattern.len() == 0 {
        if path.len() == 0 {
            Some(params)
        } else {
            None
        }
    } else if path.len() == 0 {
        None
    } else if is_catchall(pattern[0]) {
        Some(
            outside::put(
                params,
                pattern[0].drop_first(),
                text::joined(all_unquoted(path), seq!['/']),
            ),
        )
    } else if is_param(pattern[0]) {
        captures(
            pattern.drop_first(),
            path.drop_first(),
            outside::put(params, pattern[0].drop_first(), url::unquoted(path[0])),
        )
    } else if pattern[0] == path[0] {
        captures(pattern.drop_first(), path.drop_first(), params)
    } else {
        None
    }
}

/// The parameters that `path` gives to `pattern`, where it matches.
pub open spec fn path_params(pattern: Seq<char>, path: Seq<char>) -> Option<
    Seq<(Seq<char>, Seq<char>)>,
> {
    captures(segments_of(pattern), segments_of(path), seq![])
}

/// The non-empty segments of a path.
pub fn segments(pattern: &str) -> (v: Vec<Vec<char>>)
    ensures
        text::rows(v@) == segments_of(pattern@),
{
    let cs = text::chars_of(pattern);
    let all = text::split(cs.as_slice(), '/');
    let mut v: Vec<Vec<char>> = Vec::new();
    let ghost given = text::rows(all@);
    let ghost keep = |p: Seq<char>| p.len() > 0;
    let mut i: usize = 0;
    proof {
        assert(text::rows(v@) == Seq::<Seq<char>>::empty());
        assert(given.take(0).filter(keep) == Seq::<Seq<char>>::empty()) by {
            reveal(Seq::filter);
        }
    }
    while i < all.len()
        invariant
            i <= all.len(),
            given == text::rows(all@),
            keep == |p: Seq<char>| p.len() > 0,
            text::rows(v@) == given.take(i as int).filter(keep),
        decreases all.len() - i,
    {
        let piece = all[i].as_slice();
        let ghost old_v = v@;
        proof {
            reveal(Seq::filter);
            assert(given.take(i as int + 1).drop_last() == given.take(i as int));
            assert(given.take(i as int + 1).last() == piece@);
        }
        if piece.len() > 0 {
            let copy = vstd::slice::slice_to_vec(piece);
            v.push(copy);
            assert(text::rows(v@) == text::rows(old_v).push(piece@));
        }
        i = i + 1;
    }
    assert(given.take(all@.len() as int) == given);
    v
}

/// The ranks of the segments of a pattern. In ascending order of these lists the most
/// specific pattern comes first.
pub fn specificity(pattern: &str) -> (v: Vec<i32>)
    ensures
        v@ == ranks(pattern@),
{
    let segs = segments(pattern);
    let mut v: Vec<i32> = Vec::new();
    for i in 0..segs.len()
        invariant
            text::rows(segs@) == segments_of(pattern@),
            v@ == ranks(pattern@).take(i as int),
    {
        let seg = &segs[i];
        assert(segments_of(pattern@)[i as int] == seg@);
        let r: i32 = if seg.len() > 0 && seg[0] == '*' {
            2
        } else if seg.len() > 0 && seg[0] == ':' {
            1
        } else {
            0
        };
        v.push(r);
    }
    assert(segs@.len() == ranks(pattern@).len());
    assert(ranks(pattern@).take(segs@.len() as int) == ranks(pattern@));
    v
}

/// Whether the last segment of a pattern is a `:param`, which may take in a format suffix.
pub fn param_last_segment(pattern: &str) -> (r: bool)
    ensures
        r == (segments_of(pattern@).len() > 0 && is_param(segments_of(pattern@).last())),
{
    let segs = segments(pattern);
    assert(segs@.len() == segments_of(pattern@).len());
    if segs.len() == 0 {
        return false;
    }
    let last = &segs[segs.len() - 1];
    assert(segments_of(pattern@).last() == last@);
    last.len() > 0 && last[0] == ':'
}

fn unquote_joined(segs: &Vec<Vec<char>>, from: usize) -> (r: String)
    requires
        from <= segs@.len(),
    ensures
        r@ == text::joined(all_unquoted(text::rows(segs@).skip(from as int)), seq!['/']),
{
    let mut parts: Vec<String> = Vec::new();
    let ghost want = all_unquoted(text::rows(segs@).skip(from as int));
    for i in from..segs.len()
        invariant
            from <= segs@.len(),
            want == all_unquoted(text::rows(segs@).skip(from as int)),
            text::texts(parts@) == want.take(i - from),
    {
        let s = text::string_of(segs[i].as_slice());
        let ghost old_parts = parts@;
        parts.push(url::unquote(s.as_str()));
        assert(text::texts(parts@) == text::texts(old_parts).push(want[i - from]));
        assert(want.take(i - from + 1) == want.take(i - from).push(want[i - from]));
    }
    assert(want.take(segs@.len() - from) == want);
    proof {
        reveal_strlit("/");
        assert("/"@ == seq!['/']);
    }
    text::join(&parts, "/")
}

/// The parameters that `pattern` captures from `path`, or nothing where it does not match.
/// A `*name` takes all the segments that are left, one at least.
pub fn path_match(pattern: &str, path: &str) -> (r: Option<IndexMap<String, String>>)
    ensures
        r is Some == path_params(pattern@, path@) is Some,
        r matches Some(m) ==> path_params(pattern@, path@) == Some(outside::entries(m)),
{
    let actual = segments(path);
    let segs = segments(pattern);
    let ghost a = text::rows(actual@);
    let ghost p = text::rows(segs@);
    let mut params = outside::map_new();
    let mut i: usize = 0;
    assert(a.skip(0) == a && p.skip(0) == p);
    while i < segs.len()
        invariant
            i <= segs@.len(),
            i <= actual@.len(),
            a == text::rows(actual@),
            p == text::rows(segs@),
            captures(p, a, seq![]) == captures(
                p.skip(i as int),
                a.skip(i as int),
                outside::entries(params),
            ),
            p == segments_of(pattern@),
            a == segments_of(path@),
        decreases segs.len() - i,
    {
        let ghost ps = p.skip(i as int);
        let ghost acts = a.skip(i as int);
        if i >= actual.len() {
            return None;
        }
        let pat = segs[i].as_slice();
        let act = actual[i].as_slice();
        proof {
            assert(ps[0] == pat@ && acts[0] == act@);
            assert(ps.drop_first() == p.skip(i + 1));
            assert(acts.drop_first() == a.skip(i + 1));
        }
        if pat.len() > 0 && pat[0] == '*' {
            let name = text::string_of(slice_subrange(pat, 1, pat.len()));
            assert(name@ == pat@.drop_first());
            let rest = unquote_joined(&actual, i);
            outside::map_insert(&mut params, name, rest);
            return Some(params);
        }
        if pat.len() > 0 && pat[0] == ':' {
            let name = text::string_of(slice_subrange(pat, 1, pat.len()));
            assert(name@ == pat@.drop_first());
            let value = url::unquote(text::string_of(act).as_str());
            outside::map_insert(&mut params, name, value);
        } else if !text::chars_eq(pat, act) {
            return None;
        }
        i = i + 1;
    }
    if actual.len() != segs.len() {
        None
    } else {
        Some(params)
    }
}

// ---------------------------------------------------------------------------
// Routes
// ---------------------------------------------------------------------------

/// A limit on the rate of requests: so many in a window of time. The window is held as the
/// bits of its length in seconds, an IEEE double.
#[derive(Clone, Copy)]
pub struct RateLimit {
    pub capacity: i64,
    pub window_bits: u64,
}

/// A route. The handlers themselves belong to the embedding program, which finds them
/// again by number.
pub struct RouteSpec {
    pub method: String,
    pub path: String,
    pub param_names: Vec<String>,
    pub requires_auth: bool,
    pub streaming: bool,
    pub rate_limit: Option<RateLimit>,
    pub rate_zone: Option<String>,
    pub handler: usize,
    pub stream_handler: Option<usize>,
}

/// Lexicographic order of lists of ranks; a list stands before its extensions.
pub open spec fn ranks_upto(a: Seq<i32>, b: Seq<i32>) -> bool
    decreases a.len(),
{
    if a.len() == 0 {
        true
    } else if b.len() == 0 {
        false
    } else if a[0] == b[0] {
        ranks_upto(a.drop_first(), b.drop_first())
    } else {
        a[0] < b[0]
    }
}

proof fn lemma_ranks_total(a: Seq<i32>, b: Seq<i32>)
    ensures
        ranks_upto(a, b) || ranks_upto(b, a),
    decreases a.len(),
{
    if a.len() > 0 && b.len() > 0 && a[0] == b[0] {
        lemma_ranks_total(a.drop_first(), b.drop_first());
    }
}

proof fn lemma_ranks_transitive(a: Seq<i32>, b: Seq<i32>, c: Seq<i32>)
    requires
        ranks_upto(a, b),
        ranks_upto(b, c),
    ensures
        ranks_upto(a, c),
    decreases a.len(),
{
    if a.len() > 0 && a[0] == b[0] && b[0] == c[0] {
        lemma_ranks_transitive(a.drop_first(), b.drop_first(), c.drop_first());
    }
}

fn is_ranks_upto(a: &Vec<i32>, b: &Vec<i32>) -> (r: bool)
    ensures
        r == ranks_upto(a@, b@),
{
    let mut i: usize = 0;
    assert(a@.skip(0) == a@ && b@.skip(0) == b@);
    while i < a.len()
        invariant
            i <= a@.len(),
            i <= b@.len(),
            ranks_upto(a@, b@) == ranks_upto(a@.skip(i as int), b@.skip(i as int)),
        decreases a.len() - i,
    {
        let ghost x = a@.skip(i as int);
        let ghost y = b@.skip(i as int);
        if i == b.len() {
            return false;
        }
        assert(x[0] == a@[i as int] && y[0] == b@[i as int]);
        if a[i] != b[i] {
            return a[i] < b[i];
        }
        assert(x.drop_first() == a@.skip(i + 1) && y.drop_first() == b@.skip(i + 1));
        i = i + 1;
    }
    true
}

/// Routes are ordered by how specific their patterns are, the most specific first.
impl Ranked for RouteSpec {
    open spec fn upto(&self, other: &Self) -> bool {
        ranks_upto(ranks(self.path@), ranks(other.path@))
    }

    proof fn lemma_total(a: &Self, b: &Self) {
        lemma_ranks_total(ranks(a.path@), ranks(b.path@));
    }

    proof fn lemma_transitive(a: &Self, b: &Self, c: &Self) {
        lemma_ranks_transitive(ranks(a.path@), ranks(b.path@), ranks(c.path@));
    }

    fn is_upto(&self, other: &Self) -> (r: bool) {
        is_ranks_upto(&specificity(self.path.as_str()), &specificity(other.path.as_str()))
    }
}

// ---------------------------------------------------------------------------
// Laws
// ---------------------------------------------------------------------------

proof fn lemma_literal_captures(
    pattern: Seq<Seq<char>>,
    path: Seq<Seq<char>>,
    params: Seq<(Seq<char>, Seq<char>)>,
)
    requires
        forall|i: int| 0 <= i < pattern.len() ==> rank(#[trigger] pattern[i]) == 0,
    ensures
        captures(pattern, path, params) == if pattern == path {
            Some(params)
        } else {
            None
        },
    decreases pattern.len(),
{
    if pattern.len() == 0 {
        if path.len() == 0 {
            assert(pattern =~= path);
        }
    } else if path.len() > 0 {
        assert(rank(pattern[0]) == 0);
        let rest = pattern.drop_first();
        assert forall|i: int| 0 <= i < rest.len() implies rank(#[trigger] rest[i]) == 0 by {
            assert(rest[i] == pattern[i + 1]);
        }
        lemma_literal_captures(rest, path.drop_first(), params);
        if pattern[0] == path[0] && rest == path.drop_first() {
            assert(pattern =~= seq![pattern[0]] + rest);
            assert(path =~= seq![path[0]] + path.drop_first());
        }
    }
}

/// A pattern of literals matches the paths with the same segments, and captures nothing.
pub proof fn law_literal_pattern_matches_itself(pattern: Seq<char>, path: Seq<char>)
    requires
        forall|i: int|
            0 <= i < segments_of(pattern).len() ==> rank(#[trigger] segments_of(pattern)[i]) == 0,
    ensures
        path_params(pattern, path) == if segments_of(pattern) == segments_of(path) {
            Some(Seq::<(Seq<char>, Seq<char>)>::empty())
        } else {
            None
        },
{
    lemma_literal_captures(segments_of(pattern), segments_of(path), seq![]);
}

proof fn lemma_captures_length(
    pattern: Seq<Seq<char>>,
    path: Seq<Seq<char>>,
    params: Seq<(Seq<char>, Seq<char>)>,
)
    requires
        captures(pattern, path, params) is Some,
    ensures
        path.len() >= pattern.len() || exists|i: int|
            0 <= i < pattern.len() - 1 && is_catchall(#[trigger] pattern[i]),
        (forall|i: int| 0 <= i < pattern.len() ==> !is_catchall(#[trigger] pattern[i]))
            ==> path.len() == pattern.len(),
    decreases pattern.len(),
{
    if pattern.len() > 0 && !is_catchall(pattern[0]) {
        let rest = pattern.drop_first();
        let next = if is_param(pattern[0]) {
            outside::put(params, pattern[0].drop_first(), url::unquoted(path[0]))
        } else {
            params
        };
        lemma_captures_length(rest, path.drop_first(), next);
        if exists|i: int| 0 <= i < rest.len() - 1 && is_catchall(#[trigger] rest[i]) {
            let i = choose|i: int| 0 <= i < rest.len() - 1 && is_catchall(#[trigger] rest[i]);
            assert(is_catchall(pattern[i + 1]));
        }
        if forall|i: int| 0 <= i < pattern.len() ==> !is_catchall(#[trigger] pattern[i]) {
            assert forall|i: int| 0 <= i < rest.len() implies !is_catchall(#[trigger] rest[i]) by {
                assert(rest[i] == pattern[i + 1]);
            }
        }
    }
}

/// Without a catch-all a pattern matches only paths of as many segments as it has; with a
/// catch-all at its end it matches only paths of as many segments or more, so that the
/// catch-all takes one at least.
pub proof fn law_match_length(pattern: Seq<char>, path: Seq<char>)
    requires
        path_params(pattern, path) is Some,
    ensures
        (forall|i: int|
            0 <= i < segments_of(pattern).len() ==> !is_catchall(
                #[trigger] segments_of(pattern)[i],
            )) ==> segments_of(path).len() == segments_of(pattern).len(),
        (forall|i: int|
            0 <= i < segments_of(pattern).len() - 1 ==> !is_catchall(
                #[trigger] segments_of(pattern)[i],
            )) ==> segments_of(path).len() >= segments_of(pattern).len(),
{
    lemma_captures_length(segments_of(pattern), segments_of(path), seq![]);
}

proof fn lemma_filter_concat(a: Seq<Seq<char>>, b: Seq<Seq<char>>)
    ensures
        (a + b).filter(|p: Seq<char>| p.len() > 0) == a.filter(|p: Seq<char>| p.len() > 0)
            + b.filter(|p: Seq<char>| p.len() > 0),
    decreases b.len(),
{
    reveal(Seq::filter);
    let f = |p: Seq<char>| p.len() > 0;
    if b.len() == 0 {
        assert(a + b =~= a);
        assert(b.filter(f) =~= Seq::<Seq<char>>::empty());
        assert(a.filter(f) + b.filter(f) =~= a.filter(f));
    } else {
        lemma_filter_concat(a, b.drop_last());
        assert((a + b).drop_last() =~= a + b.drop_last());
        assert((a + b).last() == b.last());
        assert((a + b).filter(f) =~= a.filter(f) + b.filter(f));
    }
}

/// The segments of a path are those before a slash and those behind it; a name without a slash
/// is one segment, and nothing is none. So slashes at the start, at the end and beside one
/// another make no difference.
pub proof fn law_segments_stand_between_slashes(a: Seq<char>, b: Seq<char>)
    ensures
        segments_of(a + seq!['/'] + b) == segments_of(a) + segments_of(b),
        (forall|i: int| 0 <= i < a.len() ==> a[i] != '/') ==> segments_of(a) == if a.len() > 0 {
            seq![a]
        } else {
            seq![]
        },
{
    reveal(Seq::filter);
    text::law_pieces_of_parts(a, '/', b);
    lemma_filter_concat(text::pieces(a, '/'), text::pieces(b, '/'));
    if forall|i: int| 0 <= i < a.len() ==> a[i] != '/' {
        let f = |p: Seq<char>| p.len() > 0;
        let one = seq![a];
        assert(one.drop_last() =~= Seq::<Seq<char>>::empty());
        assert(one.drop_last().filter(f) =~= Seq::<Seq<char>>::empty());
        assert(one.filter(f) =~= if a.len() > 0 {
            seq![a]
        } else {
            seq![]
        });
    }
}

/// A segment of a pattern fits a segment of a path: `:name` fits any, another one only itself.
pub open spec fn fits(pattern: Seq<char>, segment: Seq<char>) -> bool {
    pattern.len() > 0 && pattern[0] == ':' || pattern == segment
}

/// The name of the parameter at position `i` stands again further on.
pub open spec fn named_later(pattern: Seq<Seq<char>>, i: int) -> bool {
    exists|j: int|
        i < j < pattern.len() && (#[trigger] pattern[j]).len() > 0 && (pattern[j][0] == ':'
            || pattern[j][0] == '*') && pattern[j].drop_first() == pattern[i].drop_first()
}

proof fn lemma_captures(
    pattern: Seq<Seq<char>>,
    path: Seq<Seq<char>>,
    params: Seq<(Seq<char>, Seq<char>)>,
)
    requires
        forall|i: int| 0 <= i < pattern.len() ==> (#[trigger] pattern[i]).len() > 0,
        forall|i: int| 0 <= i < pattern.len() - 1 ==> (#[trigger] pattern[i])[0] != '*',
    ensures
        ({
            let open = pattern.len() > 0 && pattern.last()[0] == '*';
            let n = if open {
                pattern.len() - 1
            } else {
                pattern.len() as int
            };
            captures(pattern, path, params) is Some <==> (if open {
                path.len() >= pattern.len()
            } else {
                path.len() == pattern.len()
            }) && (forall|i: int| 0 <= i < n ==> fits(#[trigger] pattern[i], path[i]))
        }),
        captures(pattern, path, params) matches Some(p) ==> {
            &&& forall|i: int|
                0 <= i < pattern.len() && (#[trigger] pattern[i])[0] == ':' && !named_later(pattern, i)
                    ==> outside::lookup(p, pattern[i].drop_first()) == Some(url::unquoted(path[i]))
            &&& pattern.len() > 0 && pattern.last()[0] == '*' ==> outside::lookup(
                p,
                pattern.last().drop_first(),
            ) == Some(
                text::joined(
                    path.skip(pattern.len() - 1).map_values(|s: Seq<char>| url::unquoted(s)),
                    seq!['/'],
                ),
            )
            &&& forall|k: Seq<char>|
                (forall|i: int|
                    0 <= i < pattern.len() && ((#[trigger] pattern[i])[0] == ':' || pattern[i][0]
                        == '*') ==> pattern[i].drop_first() != k) ==> #[trigger] outside::lookup(
                    p,
                    k,
                ) == outside::lookup(params, k)
        },
    decreases pattern.len(),
{
    if pattern.len() > 0 && path.len() > 0 {
        let name = pattern[0].drop_first();
        let rest = pattern.drop_first();
        let more = path.drop_first();
        assert forall|i: int| 0 <= i < rest.len() implies (#[trigger] rest[i]).len() > 0 by {
            assert(rest[i] == pattern[i + 1]);
        }
        assert forall|i: int| 0 <= i < rest.len() - 1 implies (#[trigger] rest[i])[0] != '*' by {
            assert(rest[i] == pattern[i + 1]);
        }
        assert(rest.len() > 0 ==> rest.last() == pattern.last());
        if is_catchall(pattern[0]) {
            assert(pattern.len() == 1);
            let v = text::joined(all_unquoted(path), seq!['/']);
            assert(path.skip(0) =~= path);
            assert forall|k: Seq<char>| k != name implies #[trigger] outside::lookup(
                outside::put(params, name, v),
                k,
            ) == outside::lookup(params, k) by {
                outside::law_put_then_lookup(params, name, v, k);
            }
            outside::law_put_then_lookup(params, name, v, name);
            assert(pattern[0] == pattern.last());
        } else {
            let next = if is_param(pattern[0]) {
                outside::put(params, name, url::unquoted(path[0]))
            } else {
                params
            };
            lemma_captures(rest, more, next);
            lemma_captures_step(pattern, path, params, next);
        }
    }
}

proof fn lemma_captures_step(
    pattern: Seq<Seq<char>>,
    path: Seq<Seq<char>>,
    params: Seq<(Seq<char>, Seq<char>)>,
    next: Seq<(Seq<char>, Seq<char>)>,
)
    requires
        pattern.len() > 0,
        path.len() > 0,
        forall|i: int| 0 <= i < pattern.len() ==> (#[trigger] pattern[i]).len() > 0,
        pattern[0][0] != '*',
        next == if is_param(pattern[0]) {
            outside::put(params, pattern[0].drop_first(), url::unquoted(path[0]))
        } else {
            params
        },
        ({
            let rest = pattern.drop_first();
            let more = path.drop_first();
            let open = rest.len() > 0 && rest.last()[0] == '*';
            let n = if open {
                rest.len() - 1
            } else {
                rest.len() as int
            };
            captures(rest, more, next) is Some <==> (if open {
                more.len() >= rest.len()
            } else {
                more.len() == rest.len()
            }) && (forall|i: int| 0 <= i < n ==> fits(#[trigger] rest[i], more[i]))
        }),
        captures(pattern.drop_first(), path.drop_first(), next) matches Some(p) ==> {
            let rest = pattern.drop_first();
            let more = path.drop_first();
            &&& forall|i: int|
                0 <= i < rest.len() && (#[trigger] rest[i])[0] == ':' && !named_later(rest, i)
                    ==> outside::lookup(p, rest[i].drop_first()) == Some(url::unquoted(more[i]))
            &&& rest.len() > 0 && rest.last()[0] == '*' ==> outside::lookup(
                p,
                rest.last().drop_first(),
            ) == Some(
                text::joined(
                    more.skip(rest.len() - 1).map_values(|s: Seq<char>| url::unquoted(s)),
                    seq!['/'],
                ),
            )
            &&& forall|k: Seq<char>|
                (forall|i: int|
                    0 <= i < rest.len() && ((#[trigger] rest[i])[0] == ':' || rest[i][0] == '*')
                        ==> rest[i].drop_first() != k) ==> #[trigger] outside::lookup(p, k)
                    == outside::lookup(next, k)
        },
    ensures
        ({
            let open = pattern.len() > 0 && pattern.last()[0] == '*';
            let n = if open {
                pattern.len() - 1
            } else {
                pattern.len() as int
            };
            captures(pattern, path, params) is Some <==> (if open {
                path.len() >= pattern.len()
            } else {
                path.len() == pattern.len()
            }) && (forall|i: int| 0 <= i < n ==> fits(#[trigger] pattern[i], path[i]))
        }),
        captures(pattern, path, params) matches Some(p) ==> {
            &&& forall|i: int|
                0 <= i < pattern.len() && (#[trigger] pattern[i])[0] == ':' && !named_later(pattern, i)
                    ==> outside::lookup(p, pattern[i].drop_first()) == Some(url::unquoted(path[i]))
            &&& pattern.len() > 0 && pattern.last()[0] == '*' ==> outside::lookup(
                p,
                pattern.last().drop_first(),
            ) == Some(
                text::joined(
                    path.skip(pattern.len() - 1).map_values(|s: Seq<char>| url::unquoted(s)),
                    seq!['/'],
                ),
            )
            &&& forall|k: Seq<char>|
                (forall|i: int|
                    0 <= i < pattern.len() && ((#[trigger] pattern[i])[0] == ':' || pattern[i][0]
                        == '*') ==> pattern[i].drop_first() != k) ==> #[trigger] outside::lookup(
                    p,
                    k,
                ) == outside::lookup(params, k)
        },
{
    let rest = pattern.drop_first();
    let more = path.drop_first();
    let name = pattern[0].drop_first();
    let open = rest.len() > 0 && rest.last()[0] == '*';
    let n = if open {
        rest.len() - 1
    } else {
        rest.len() as int
    };
    assert(rest.len() > 0 ==> rest.last() == pattern.last());
    if rest.len() == 0 {
        assert(pattern.last() == pattern[0]);
    }
    assert(forall|i: int| 0 <= i < rest.len() ==> #[trigger] rest[i] == pattern[i + 1]);
    assert(forall|i: int| 0 <= i < more.len() ==> #[trigger] more[i] == path[i + 1]);
    if captures(pattern, path, params) is Some {
        assert forall|i: int| 0 <= i < n + 1 implies fits(#[trigger] pattern[i], path[i]) by {
            if i > 0 {
                assert(fits(rest[i - 1], more[i - 1]));
            }
        }
    }
    if (if open {
        path.len() >= pattern.len()
    } else {
        path.len() == pattern.len()
    }) && (forall|i: int| 0 <= i < n + 1 ==> fits(#[trigger] pattern[i], path[i])) {
        assert forall|i: int| 0 <= i < n implies fits(#[trigger] rest[i], more[i]) by {
            assert(fits(pattern[i + 1], path[i + 1]));
        }
        assert(fits(pattern[0], path[0]));
    }
    if let Some(p) = captures(pattern, path, params) {
        assert forall|i: int|
            0 <= i < pattern.len() && (#[trigger] pattern[i])[0] == ':' && !named_later(
                pattern,
                i,
            ) implies outside::lookup(p, pattern[i].drop_first()) == Some(
            url::unquoted(path[i]),
        ) by {
            if i == 0 {
                assert forall|j: int|
                    0 <= j < rest.len() && ((#[trigger] rest[j])[0] == ':' || rest[j][0]
                        == '*') implies rest[j].drop_first() != name by {
                    assert(pattern[j + 1].drop_first() != name);
                }
                outside::law_put_then_lookup(params, name, url::unquoted(path[0]), name);
                assert(outside::lookup(p, name) == outside::lookup(next, name));
            } else {
                assert(!named_later(rest, i - 1)) by {
                    if named_later(rest, i - 1) {
                        let j = choose|j: int|
                            i - 1 < j < rest.len() && (#[trigger] rest[j]).len() > 0 && (rest[j][0]
                                == ':' || rest[j][0] == '*') && rest[j].drop_first()
                                == rest[i - 1].drop_first();
                        assert(pattern[j + 1].len() > 0);
                    }
                }
                assert(rest[i - 1][0] == ':');
            }
        }
        assert forall|k: Seq<char>|
            (forall|i: int|
                0 <= i < pattern.len() && ((#[trigger] pattern[i])[0] == ':' || pattern[i][0]
                    == '*') ==> pattern[i].drop_first() != k) implies #[trigger] outside::lookup(
            p,
            k,
        ) == outside::lookup(params, k) by {
            assert forall|j: int|
                0 <= j < rest.len() && ((#[trigger] rest[j])[0] == ':' || rest[j][0]
                    == '*') implies rest[j].drop_first() != k by {
                assert(pattern[j + 1].drop_first() != k);
            }
            if is_param(pattern[0]) {
                assert(pattern[0].drop_first() != k);
                outside::law_put_then_lookup(params, name, url::unquoted(path[0]), k);
            }
        }
        if pattern.last()[0] == '*' {
            assert(more.skip(rest.len() - 1) =~= path.skip(pattern.len() - 1));
        }
    }
}

/// A pattern answers a path exactly where they have as many segments and each literal segment
/// of the pattern is that of the path; a last segment `*name` takes all that are left, one at
/// least. Each `:name` is given the segment of the path that stands in its place, with its
/// escapes undone, and `*name` those that are left, joined by slashes; of a name that stands
/// twice the last one counts. No other name is given anything.
pub proof fn law_patterns_give_their_parameters(pattern: Seq<char>, path: Seq<char>)
    requires
        forall|i: int|
            0 <= i < segments_of(pattern).len() - 1 ==> (#[trigger] segments_of(pattern)[i])[0]
                != '*',
    ensures
        ({
            let p = segments_of(pattern);
            let s = segments_of(path);
            let open = p.len() > 0 && p.last()[0] == '*';
            let n = if open {
                p.len() - 1
            } else {
                p.len() as int
            };
            &&& path_params(pattern, path) is Some <==> (if open {
                s.len() >= p.len()
            } else {
                s.len() == p.len()
            }) && (forall|i: int| 0 <= i < n ==> fits(#[trigger] p[i], s[i]))
            &&& path_params(pattern, path) matches Some(given) ==> {
                &&& forall|i: int|
                    0 <= i < p.len() && (#[trigger] p[i])[0] == ':' && !named_later(p, i)
                        ==> outside::lookup(given, p[i].drop_first()) == Some(url::unquoted(s[i]))
                &&& open ==> outside::lookup(given, p.last().drop_first()) == Some(
                    text::joined(
                        s.skip(p.len() - 1).map_values(|x: Seq<char>| url::unquoted(x)),
                        seq!['/'],
                    ),
                )
                &&& forall|k: Seq<char>|
                    (forall|i: int|
                        0 <= i < p.len() && ((#[trigger] p[i])[0] == ':' || p[i][0] == '*')
                            ==> p[i].drop_first() != k) ==> #[trigger] outside::lookup(given, k)
                        is None
            }
        }),
{
    let p = segments_of(pattern);
    let s = segments_of(path);
    lemma_segments_filled(pattern);
    lemma_captures(p, s, seq![]);
}

proof fn lemma_segments_filled(path: Seq<char>)
    ensures
        forall|i: int|
            0 <= i < segments_of(path).len() ==> (#[trigger] segments_of(path)[i]).len() > 0,
{
    let f = |p: Seq<char>| p.len() > 0;
    let all = text::pieces(path, '/');
    assert forall|i: int| 0 <= i < segments_of(path).len() implies (#[trigger] segments_of(
        path,
    )[i]).len() > 0 by {
        all.lemma_filter_pred(f, i);
    }
}

/// Of two patterns the more specific one comes first: at the first segment where their kinds
/// differ it has a literal where the other has a parameter or a catch-all, or a parameter
/// where the other has a catch-all.
pub proof fn law_literals_come_first(a: Seq<char>, b: Seq<char>, i: int)
    requires
        0 <= i < segments_of(a).len(),
        0 <= i < segments_of(b).len(),
        forall|j: int|
            0 <= j < i ==> rank(#[trigger] segments_of(a)[j]) == rank(segments_of(b)[j]),
        ({
            let x = segments_of(a)[i][0];
            let y = segments_of(b)[i][0];
            x != ':' && x != '*' && (y == ':' || y == '*') || x == ':' && y == '*'
        }),
    ensures
        ranks_upto(ranks(a), ranks(b)),
        !ranks_upto(ranks(b), ranks(a)),
{
    lemma_segments_filled(a);
    lemma_segments_filled(b);
    assert(segments_of(a)[i].len() > 0 && segments_of(b)[i].len() > 0);
    assert(ranks(a)[i] < ranks(b)[i]);
    assert forall|j: int| 0 <= j < i implies #[trigger] ranks(a)[j] == ranks(b)[j] by {
        assert(rank(segments_of(a)[j]) == rank(segments_of(b)[j]));
    }
    lemma_ranks_differ(ranks(a), ranks(b), i);
}

proof fn lemma_ranks_differ(a: Seq<i32>, b: Seq<i32>, i: int)
    requires
        0 <= i < a.len(),
        i < b.len(),
        forall|j: int| 0 <= j < i ==> #[trigger] a[j] == b[j],
        a[i] < b[i],
    ensures
        ranks_upto(a, b),
        !ranks_upto(b, a),
    decreases i,
{
    if i > 0 {
        assert(a[0] == b[0]);
        let x = a.drop_first();
        let y = b.drop_first();
        assert forall|j: int| 0 <= j < i - 1 implies #[trigger] x[j] == y[j] by {
            assert(a[j + 1] == b[j + 1]);
        }
        lemma_ranks_differ(x, y, i - 1);
    }
}

/// The kinds of segments are told by their first character.
pub proof fn law_kinds_of_segments(name: Seq<char>, c: char)
    ensures
        rank(seq![':'] + name) == 1,
        rank(seq!['*'] + name) == 2,
        c != ':' && c != '*' ==> rank(seq![c] + name) == 0,
{
    assert((seq![':'] + name)[0] == ':');
    assert((seq!['*'] + name)[0] == '*');
    assert((seq![c] + name)[0] == c);
}

} // verus!
