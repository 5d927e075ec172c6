//! The choice of a certificate by the name that a client asks for when it connects.

use vstd::prelude::*;
use vstd::slice::slice_subrange;

use crate::text;

verus! {

/// The certificates of a server beside its default one, each by the number under which the
/// embedding program keeps it: those of a host, and those of all hosts below a domain.
pub struct SniTable {
    pub by_name: Vec<(String, usize)>,
    pub wildcards: Vec<(String, usize)>,
}

/// The views of names with their certificates.
pub open spec fn named(v: Seq<(String, usize)>) -> Seq<(Seq<char>, usize)> {
    v.map_values(|p: (String, usize)| (p.0@, p.1))
}

/// The certificate of the last entry with that name.
pub open spec fn last_named(v: Seq<(Seq<char>, usize)>, name: Seq<char>) -> Option<usize>
    decreases v.len(),
{
    if v.len() == 0 {
        None
    } else if v.last().0 == name {
        Some(v.last().1)
    } else {
        last_named(v.drop_last(), name)
    }
}

/// The certificate of the first entry whose suffix the name has.
pub open spec fn first_suffix(v: Seq<(Seq<char>, usize)>, name: Seq<char>) -> Option<usize>
    decreases v.len(),
{
    if v.len() == 0 {
        None
    } else if text::has_suffix(name, v[0].0) {
        Some(v[0].1)
    } else {
        first_suffix(v.drop_first(), name)
    }
}

/// The certificate for a server name, where it is not the default one: that of the very
/// name, else that of the first domain that the name lies below.
pub open spec fn certificate(
    by_name: Seq<(Seq<char>, usize)>,
    wildcards: Seq<(Seq<char>, usize)>,
    server_name: Option<Seq<char>>,
) -> Option<usize> {
    match server_name {
        None => None,
        Some(n) => {
            let name = text::lower_ascii(n);
            match last_named(by_name, name) {
                Some(c) => Some(c),
                None => first_suffix(wildcards, name),
            }
        },
    }
}

impl SniTable {
    /// No certificates but the default one.
    pub fn new() -> (t: Self)
        ensures
            t.by_name@.len() == 0,
            t.wildcards@.len() == 0,
    {
        SniTable { by_name: Vec::new(), wildcards: Vec::new() }
    }

    /// Adds the certificate of a host, or with `*.domain` that of all hosts below a domain.
    pub fn add_host(&mut self, pattern: &str, cert: usize)
        ensures
            text::has_prefix(pattern@, seq!['*', '.']) ==> {
                &&& named(final(self).wildcards@) == named(old(self).wildcards@).push(
                    (seq!['.'] + text::lower_ascii(pattern@.skip(2)), cert),
                )
                &&& final(self).by_name == old(self).by_name
            },
            !text::has_prefix(pattern@, seq!['*', '.']) ==> {
                &&& named(final(self).by_name@) == named(old(self).by_name@).push(
                    (text::lower_ascii(pattern@), cert),
                )
                &&& final(self).wildcards == old(self).wildcards
            },
    {
        let cs = text::chars_of(pattern);
        if cs.len() >= 2 && cs[0] == '*' && cs[1] == '.' {
            assert(pattern@.take(2) =~= seq!['*', '.']);
            let domain = text::to_lower_ascii(slice_subrange(cs.as_slice(), 2, cs.len()));
            let mut suffix = String::new();
            suffix.push('.');
            suffix.append(text::string_of(domain.as_slice()).as_str());
            let ghost before = self.wildcards@;
            assert(cs@.subrange(2, cs@.len() as int) =~= pattern@.skip(2));
            assert(suffix@ =~= seq!['.'] + text::lower_ascii(pattern@.skip(2)));
            self.wildcards.push((suffix, cert));
            assert(named(self.wildcards@) =~= named(before).push((suffix@, cert)));
        } else {
            assert(!text::has_prefix(pattern@, seq!['*', '.'])) by {
                if text::has_prefix(pattern@, seq!['*', '.']) {
                    assert(pattern@.take(2)[0] == pattern@[0] && pattern@.take(2)[1] == pattern@[1]);
                }
            }
            let name = text::to_lower_ascii(cs.as_slice());
            let key = text::string_of(name.as_slice());
            let ghost before = self.by_name@;
            self.by_name.push((key, cert));
            assert(named(self.by_name@) =~= named(before).push((key@, cert)));
        }
    }

    /// The certificate for a server name, or nothing for the default one.
    pub fn resolve(&self, server_name: Option<&str>) -> (r: Option<usize>)
        ensures
            r == certificate(
                named(self.by_name@),
                named(self.wildcards@),
                match server_name {
                    Some(n) => Some(n@),
                    None => None,
                },
            ),
    {
        let name = match server_name {
            None => {
                return None;
            },
            Some(n) => text::to_lower_ascii(text::chars_of(n).as_slice()),
        };
        let key = text::string_of(name.as_slice());
        let ghost names = named(self.by_name@);
        let mut i: usize = self.by_name.len();
        assert(names.take(i as int) =~= names);
        while i > 0
            invariant
                i <= self.by_name@.len(),
                names == named(self.by_name@),
                server_name matches Some(n) && key@ == text::lower_ascii(n@),
                last_named(names, key@) == last_named(names.take(i as int), key@),
            decreases i,
        {
            i = i - 1;
            let ghost part = names.take(i as int + 1);
            assert(part.last() == (self.by_name@[i as int].0@, self.by_name@[i as int].1));
            assert(part.drop_last() =~= names.take(i as int));
            if text::str_eq(self.by_name[i].0.as_str(), key.as_str()) {
                return Some(self.by_name[i].1);
            }
        }
        let ghost wild = named(self.wildcards@);
        let mut j: usize = 0;
        assert(wild.skip(0) =~= wild);
        while j < self.wildcards.len()
            invariant
                j <= self.wildcards@.len(),
                wild == named(self.wildcards@),
                name@ == key@,
                server_name matches Some(n) && key@ == text::lower_ascii(n@),
                last_named(named(self.by_name@), key@) is None,
                first_suffix(wild, key@) == first_suffix(wild.skip(j as int), key@),
            decreases self.wildcards.len() - j,
        {
            let ghost part = wild.skip(j as int);
            assert(part[0] == (self.wildcards@[j as int].0@, self.wildcards@[j as int].1));
            assert(part.drop_first() =~= wild.skip(j + 1));
            let suffix = text::chars_of(self.wildcards[j].0.as_str());
            if text::ends_with(name.as_slice(), suffix.as_slice()) {
                return Some(self.wildcards[j].1);
            }
            j = j + 1;
        }
        None
    }
}

/// The certificate of a name goes before those of domains, and the default one is used where
/// neither is there; a later certificate for a name takes the place of an earlier one.
pub proof fn law_certificate_choice(
    by_name: Seq<(Seq<char>, usize)>,
    wildcards: Seq<(Seq<char>, usize)>,
    name: Seq<char>,
    cert: usize,
)
    ensures
        certificate(by_name.push((text::lower_ascii(name), cert)), wildcards, Some(name)) == Some(
            cert,
        ),
        certificate(by_name, wildcards, None) is None,
{
    let v = by_name.push((text::lower_ascii(name), cert));
    assert(v.last() == (text::lower_ascii(name), cert));
}

/// A name gets the certificate that was added last for it, whatever its case; a name that has
/// none of its own that of the first domain that it lies below; any other name none.
pub proof fn law_names_get_their_certificates(
    by_name: Seq<(Seq<char>, usize)>,
    wildcards: Seq<(Seq<char>, usize)>,
    name: Seq<char>,
    i: int,
)
    ensures
        0 <= i < by_name.len() && by_name[i].0 == text::lower_ascii(name) && (forall|j: int|
            i < j < by_name.len() ==> (#[trigger] by_name[j]).0 != text::lower_ascii(name))
            ==> certificate(by_name, wildcards, Some(name)) == Some(by_name[i].1),
        (forall|j: int|
            0 <= j < by_name.len() ==> (#[trigger] by_name[j]).0 != text::lower_ascii(name)) ==> {
            &&& 0 <= i < wildcards.len() && text::has_suffix(
                text::lower_ascii(name),
                wildcards[i].0,
            ) && (forall|j: int|
                0 <= j < i ==> !text::has_suffix(
                    text::lower_ascii(name),
                    (#[trigger] wildcards[j]).0,
                )) ==> certificate(by_name, wildcards, Some(name)) == Some(wildcards[i].1)
            &&& (forall|j: int|
                0 <= j < wildcards.len() ==> !text::has_suffix(
                    text::lower_ascii(name),
                    (#[trigger] wildcards[j]).0,
                )) ==> certificate(by_name, wildcards, Some(name)) is None
        },
{
    let n = text::lower_ascii(name);
    if 0 <= i < by_name.len() && by_name[i].0 == n && (forall|j: int|
        i < j < by_name.len() ==> (#[trigger] by_name[j]).0 != n) {
        lemma_last_of_name(by_name, n, i);
    }
    if forall|j: int| 0 <= j < by_name.len() ==> (#[trigger] by_name[j]).0 != n {
        lemma_none_of_name(by_name, n);
        if 0 <= i < wildcards.len() && text::has_suffix(n, wildcards[i].0) && (forall|j: int|
            0 <= j < i ==> !text::has_suffix(n, (#[trigger] wildcards[j]).0)) {
            lemma_first_of_suffix(wildcards, n, i);
        }
        if forall|j: int|
            0 <= j < wildcards.len() ==> !text::has_suffix(n, (#[trigger] wildcards[j]).0) {
            lemma_none_of_suffix(wildcards, n);
        }
    }
}

proof fn lemma_last_of_name(v: Seq<(Seq<char>, usize)>, n: Seq<char>, i: int)
    requires
        0 <= i < v.len(),
        v[i].0 == n,
        forall|j: int| i < j < v.len() ==> (#[trigger] v[j]).0 != n,
    ensures
        last_named(v, n) == Some(v[i].1),
    decreases v.len(),
{
    if i < v.len() - 1 {
        assert(v[v.len() - 1].0 != n);
        let t = v.drop_last();
        assert forall|j: int| i < j < t.len() implies (#[trigger] t[j]).0 != n by {
            assert(t[j] == v[j]);
        }
        lemma_last_of_name(t, n, i);
    }
}

proof fn lemma_none_of_name(v: Seq<(Seq<char>, usize)>, n: Seq<char>)
    requires
        forall|j: int| 0 <= j < v.len() ==> (#[trigger] v[j]).0 != n,
    ensures
        last_named(v, n) is None,
    decreases v.len(),
{
    if v.len() > 0 {
        assert(v[v.len() - 1].0 != n);
        let t = v.drop_last();
        assert forall|j: int| 0 <= j < t.len() implies (#[trigger] t[j]).0 != n by {
            assert(t[j] == v[j]);
        }
        lemma_none_of_name(t, n);
    }
}

proof fn lemma_first_of_suffix(v: Seq<(Seq<char>, usize)>, n: Seq<char>, i: int)
    requires
        0 <= i < v.len(),
        text::has_suffix(n, v[i].0),
        forall|j: int| 0 <= j < i ==> !text::has_suffix(n, (#[trigger] v[j]).0),
    ensures
        first_suffix(v, n) == Some(v[i].1),
    decreases v.len(),
{
    if i > 0 {
        assert(!text::has_suffix(n, v[0].0));
        let t = v.drop_first();
        assert forall|j: int| 0 <= j < i - 1 implies !text::has_suffix(n, (#[trigger] t[j]).0) by {
            assert(t[j] == v[j + 1]);
        }
        lemma_first_of_suffix(t, n, i - 1);
    }
}

proof fn lemma_none_of_suffix(v: Seq<(Seq<char>, usize)>, n: Seq<char>)
    requires
        forall|j: int| 0 <= j < v.len() ==> !text::has_suffix(n, (#[trigger] v[j]).0),
    ensures
        first_suffix(v, n) is None,
    decreases v.len(),
{
    if v.len() > 0 {
        assert(!text::has_suffix(n, v[0].0));
        let t = v.drop_first();
        assert forall|j: int| 0 <= j < t.len() implies !text::has_suffix(n, (#[trigger] t[j]).0) by {
            assert(t[j] == v[j + 1]);
        }
        lemma_none_of_suffix(t, n);
    }
}

} // verus!
