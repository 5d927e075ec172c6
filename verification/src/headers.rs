//! Request headers.

use vstd::prelude::*;
use vstd::slice::slice_subrange;

use crate::text;
use crate::text::Trim;

verus! {

/// The views of a list of headers, or of other pairs of texts.
pub open spec fn pairs(v: Seq<(String, String)>) -> Seq<(Seq<char>, Seq<char>)> {
    v.map_values(|p: (String, String)| (p.0@, p.1@))
}

/// The value of the first header with that name, whatever the case of its letters, or
/// nothing.
pub open spec fn header(h: Seq<(Seq<char>, Seq<char>)>, name: Seq<char>) -> Seq<char>
    decreases h.len(),
{
    if h.len() == 0 {
        seq![]
    } else if text::same_ignoring_case(h[0].0, name) {
        h[0].1
    } else {
        header(h.drop_first(), name)
    }
}

/// The value of the first header with that name, or nothing.
pub fn header_value(headers: &Vec<(String, String)>, name: &str) -> (r: String)
    ensures
        r@ == header(pairs(headers@), name@),
{
    let ghost all = pairs(headers@);
    let mut i: usize = 0;
    assert(all.skip(0) == all);
    while i < headers.len()
        invariant
            i <= headers@.len(),
            all == pairs(headers@),
            header(all, name@) == header(all.skip(i as int), name@),
        decreases headers.len() - i,
    {
        let ghost rest = all.skip(i as int);
        assert(rest[0] == (headers@[i as int].0@, headers@[i as int].1@));
        if text::eq_ignore_ascii_case(headers[i].0.as_str(), name) {
            return headers[i].1.as_str().to_owned();
        }
        assert(rest.drop_first() == all.skip(i + 1));
        i = i + 1;
    }
    String::new()
}

/// Adds a header at the end.
pub fn push_header(v: &mut Vec<(String, String)>, name: &str, val: String)
    ensures
        pairs(final(v)@) == pairs(old(v)@).push((name@, val@)),
{
    let ghost before = v@;
    v.push((name.to_owned(), val));
    assert(pairs(v@) =~= pairs(before).push((name@, val@)));
}

/// No headers.
pub fn new_headers() -> (v: Vec<(String, String)>)
    ensures
        pairs(v@) == Seq::<(Seq<char>, Seq<char>)>::empty(),
{
    let v: Vec<(String, String)> = Vec::new();
    assert(pairs(v@) =~= Seq::<(Seq<char>, Seq<char>)>::empty());
    v
}

/// The position of the first white space, or the length.
pub open spec fn first_space(s: Seq<char>) -> int
    decreases s.len(),
{
    if s.len() == 0 || text::is_space(s[0]) {
        0
    } else {
        1 + first_space(s.drop_first())
    }
}

/// The token in an `Authorization` header: what follows the scheme `Bearer`, or the whole
/// header where there is no such scheme.
pub open spec fn token_in(auth: Seq<char>) -> Seq<char> {
    let k = first_space(auth);
    if k < auth.len() && text::same_ignoring_case(auth.take(k), "bearer"@) {
        text::trimmed(auth.skip(k + 1), Trim::Space)
    } else {
        text::trimmed(auth, Trim::Space)
    }
}

fn find_space(s: &[char]) -> (k: usize)
    ensures
        k == first_space(s@),
        k <= s@.len(),
{
    let mut i: usize = 0;
    assert(s@.skip(0) == s@);
    while i < s.len() && !text::is_whitespace(s[i])
        invariant
            i <= s@.len(),
            first_space(s@) == i + first_space(s@.skip(i as int)),
        decreases s.len() - i,
    {
        let ghost rest = s@.skip(i as int);
        assert(rest[0] == s@[i as int]);
        assert(rest.drop_first() == s@.skip(i + 1));
        i = i + 1;
    }
    proof {
        let rest = s@.skip(i as int);
        if i < s@.len() {
            assert(rest[0] == s@[i as int]);
        }
    }
    i
}

/// The token with which a request identifies its user.
pub fn bearer_token(headers: &Vec<(String, String)>) -> (r: String)
    ensures
        r@ == token_in(header(pairs(headers@), "authorization"@)),
{
    let auth = header_value(headers, "authorization");
    let cs = text::chars_of(auth.as_str());
    let k = find_space(cs.as_slice());
    if k < cs.len() {
        let scheme = text::string_of(slice_subrange(cs.as_slice(), 0, k));
        if text::eq_ignore_ascii_case(scheme.as_str(), "bearer") {
            let rest = slice_subrange(cs.as_slice(), k + 1, cs.len());
            assert(rest@ == auth@.skip(k + 1));
            return text::string_of(text::trim(rest, Trim::Space));
        }
    }
    text::string_of(text::trim(cs.as_slice(), Trim::Space))
}

/// Headers whose names differ only in case are the same header.
pub proof fn law_header_names_ignore_case(
    h: Seq<(Seq<char>, Seq<char>)>,
    a: Seq<char>,
    b: Seq<char>,
)
    requires
        text::same_ignoring_case(a, b),
    ensures
        header(h, a) == header(h, b),
    decreases h.len(),
{
    if h.len() > 0 {
        law_header_names_ignore_case(h.drop_first(), a, b);
    }
}

/// A header is the first one with its name, whatever the case of its letters, and nothing
/// where there is none of that name.
pub proof fn law_first_header_counts(
    before: Seq<(Seq<char>, Seq<char>)>,
    found: (Seq<char>, Seq<char>),
    after: Seq<(Seq<char>, Seq<char>)>,
    name: Seq<char>,
)
    requires
        forall|i: int|
            0 <= i < before.len() ==> text::lower_ascii((#[trigger] before[i]).0)
                != text::lower_ascii(name),
    ensures
        text::lower_ascii(found.0) == text::lower_ascii(name) ==> header(
            before + seq![found] + after,
            name,
        ) == found.1,
        header(before, name).len() == 0,
    decreases before.len(),
{
    let all = before + seq![found] + after;
    if before.len() > 0 {
        let rest = before.drop_first();
        assert forall|i: int| 0 <= i < rest.len() implies text::lower_ascii((#[trigger] rest[i]).0)
            != text::lower_ascii(name) by {
            assert(rest[i] == before[i + 1]);
        }
        law_first_header_counts(rest, found, after, name);
        assert(all.drop_first() =~= rest + seq![found] + after);
        assert(all[0] == before[0]);
    } else {
        assert(all[0] == found);
    }
}

proof fn lemma_first_space(s: Seq<char>, k: int)
    requires
        0 <= k <= s.len(),
        forall|i: int| 0 <= i < k ==> !text::is_space(#[trigger] s[i]),
        k < s.len() ==> text::is_space(s[k]),
    ensures
        first_space(s) == k,
    decreases s.len(),
{
    if k > 0 {
        let t = s.drop_first();
        assert forall|i: int| 0 <= i < k - 1 implies !text::is_space(#[trigger] t[i]) by {
            assert(t[i] == s[i + 1]);
        }
        assert(k < s.len() ==> t[k - 1] == s[k]);
        assert(!text::is_space(s[0]));
        lemma_first_space(t, k - 1);
    }
}

/// The token stands behind the word `Bearer`, whatever its case, and white space; white space
/// around it is not part of it. A header without that word is the token itself.
pub proof fn law_token_stands_behind_bearer(
    scheme: Seq<char>,
    gap: Seq<char>,
    token: Seq<char>,
    end: Seq<char>,
)
    requires
        token.len() > 0,
        forall|i: int| 0 <= i < token.len() ==> !text::is_space(#[trigger] token[i]),
        forall|i: int| 0 <= i < gap.len() ==> text::is_space(#[trigger] gap[i]),
        forall|i: int| 0 <= i < end.len() ==> text::is_space(#[trigger] end[i]),
    ensures
        text::lower_ascii(scheme) == seq!['b', 'e', 'a', 'r', 'e', 'r'] && gap.len() > 0
            ==> token_in(scheme + gap + token + end) == token,
        token_in(token) == token,
        text::lower_ascii(scheme) != seq!['b', 'e', 'a', 'r', 'e', 'r'] && scheme.len() > 0
            && gap.len() > 0 && (forall|i: int|
            0 <= i < scheme.len() ==> !text::is_space(#[trigger] scheme[i])) ==> token_in(
            scheme + gap + token,
        ) == scheme + gap + token,
        token_in(seq![]).len() == 0,
{
    reveal_strlit("bearer");
    assert("bearer"@ =~= seq!['b', 'e', 'a', 'r', 'e', 'r']);
    assert(text::lower_ascii("bearer"@) =~= "bearer"@);
    lemma_first_space(token, token.len() as int);
    text::lemma_trimmed_same(token, Trim::Space);
    let all = scheme + gap + token + end;
    if text::lower_ascii(scheme) == seq!['b', 'e', 'a', 'r', 'e', 'r'] && gap.len() > 0 {
        assert(scheme.len() == text::lower_ascii(scheme).len());
        assert forall|i: int| 0 <= i < scheme.len() implies !text::is_space(#[trigger] all[i]) by {
            assert(all[i] == scheme[i]);
            assert(text::lower_ascii(scheme)[i] == text::lower_char(scheme[i]));
        }
        assert(all[scheme.len() as int] == gap[0]);
        lemma_first_space(all, scheme.len() as int);
        assert(all.take(scheme.len() as int) =~= scheme);
        let gap2 = gap.drop_first();
        assert forall|i: int| 0 <= i < gap2.len() implies text::is_space(#[trigger] gap2[i]) by {
            assert(gap2[i] == gap[i + 1]);
        }
        assert(all.skip(scheme.len() as int + 1) =~= gap2 + token + end);
        text::law_trimming_undoes_padding(gap2, token, end, Trim::Space);
    }
    if text::lower_ascii(scheme) != seq!['b', 'e', 'a', 'r', 'e', 'r'] && scheme.len() > 0
        && gap.len() > 0 && (forall|i: int|
        0 <= i < scheme.len() ==> !text::is_space(#[trigger] scheme[i])) {
        let s = scheme + gap + token;
        assert forall|i: int| 0 <= i < scheme.len() implies !text::is_space(#[trigger] s[i]) by {
            assert(s[i] == scheme[i]);
        }
        assert(s[scheme.len() as int] == gap[0]);
        lemma_first_space(s, scheme.len() as int);
        assert(s.take(scheme.len() as int) =~= scheme);
        assert(s[0] == scheme[0]);
        assert(s.last() == token.last());
        text::lemma_trimmed_same(s, Trim::Space);
    }
}

/// The views of headers are theirs, one for one.
pub proof fn law_headers_are_viewed(v: Seq<(String, String)>)
    ensures
        pairs(v).len() == v.len(),
        forall|i: int| 0 <= i < v.len() ==> #[trigger] pairs(v)[i] == (v[i].0@, v[i].1@),
{
}

} // verus!
