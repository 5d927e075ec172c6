//! Stable sorting by a total preorder.

use vstd::prelude::*;

use crate::headers;
use crate::text;

verus! {

/// Values with a total preorder.
pub trait Ranked: Sized {
    /// `self` may stand before `other`.
    spec fn upto(&self, other: &Self) -> bool;

    proof fn lemma_total(a: &Self, b: &Self)
        ensures
            a.upto(b) || b.upto(a),
    ;

    proof fn lemma_transitive(a: &Self, b: &Self, c: &Self)
        requires
            a.upto(b),
            b.upto(c),
        ensures
            a.upto(c),
    ;

    /// Whether `self` may stand before `other`.
    fn is_upto(&self, other: &Self) -> (r: bool)
        ensures
            r == self.upto(other),
    ;
}

/// `perm` lists the positions in `a` of the elements of `b`, each position once.
pub open spec fn arranges<T>(a: Seq<T>, b: Seq<T>, perm: Seq<int>) -> bool {
    &&& perm.len() == a.len()
    &&& b.len() == a.len()
    &&& forall|i: int| 0 <= i < perm.len() ==> 0 <= #[trigger] perm[i] < a.len()
    &&& forall|i: int, j: int| 0 <= i < j < perm.len() ==> perm[i] != perm[j]
    &&& forall|i: int| 0 <= i < perm.len() ==> #[trigger] b[i] == a[perm[i]]
}

/// `b` is in order, and equals keep the order that `perm` gives them.
pub open spec fn in_order<T: Ranked>(b: Seq<T>, perm: Seq<int>) -> bool {
    forall|i: int, j: int|
        #![trigger b[i], b[j]]
        0 <= i < j < b.len() ==> b[i].upto(&b[j]) && (b[j].upto(&b[i]) ==> perm[i] < perm[j])
}

/// `b` holds the elements of `a` in order, equals in the order that they have in `a`.
pub open spec fn stably_sorted<T: Ranked>(a: Seq<T>, b: Seq<T>) -> bool {
    exists|perm: Seq<int>| #[trigger] arranges(a, b, perm) && in_order(b, perm)
}

/// An arrangement reaches every position of `a`.
pub proof fn lemma_arranges_onto<T>(a: Seq<T>, b: Seq<T>, perm: Seq<int>, k: int)
    requires
        arranges(a, b, perm),
        0 <= k < a.len(),
    ensures
        exists|j: int| 0 <= j < perm.len() && #[trigger] perm[j] == k,
{
    lemma_onto(perm, a.len() as int, k);
}

/// As many different numbers below `n` as `n` itself are all of them.
proof fn lemma_onto(perm: Seq<int>, n: int, k: int)
    requires
        perm.len() == n,
        forall|i: int| 0 <= i < perm.len() ==> 0 <= #[trigger] perm[i] < n,
        forall|i: int, j: int| 0 <= i < j < perm.len() ==> perm[i] != perm[j],
        0 <= k < n,
    ensures
        exists|j: int| 0 <= j < perm.len() && #[trigger] perm[j] == k,
{
    assert(perm.no_duplicates());
    perm.unique_seq_to_set();
    let all = vstd::set_lib::set_int_range(0, n);
    vstd::set_lib::lemma_int_range(0, n);
    assert forall|x: int| perm.to_set().contains(x) implies all.contains(x) by {
        let i = choose|i: int| 0 <= i < perm.len() && perm[i] == x;
        assert(0 <= perm[i] < n);
    }
    vstd::set_lib::lemma_len_subset(perm.to_set(), all);
    vstd::set_lib::lemma_subset_equality(perm.to_set(), all);
    assert(perm.to_set().contains(k));
}

/// Sorts stably.
pub fn stable_sort<T: Ranked>(items: Vec<T>) -> (sorted: Vec<T>)
    ensures
        stably_sorted(items@, sorted@),
{
    let ghost all = items@;
    let mut rest = items;
    let mut out: Vec<T> = Vec::new();
    let ghost mut perm: Seq<int> = seq![];
    while rest.len() > 0
        invariant
            rest@ == all.take(rest@.len() as int),
            rest@.len() <= all.len(),
            out@.len() == perm.len(),
            perm.len() == all.len() - rest@.len(),
            forall|i: int| 0 <= i < perm.len() ==> rest@.len() <= #[trigger] perm[i] < all.len(),
            forall|i: int, j: int| 0 <= i < j < perm.len() ==> perm[i] != perm[j],
            forall|i: int| 0 <= i < perm.len() ==> #[trigger] out@[i] == all[perm[i]],
            in_order(out@, perm),
        decreases rest.len(),
    {
        let ghost left = rest@;
        match rest.pop() {
            Some(x) => {
                let k: usize = rest.len();
                assert(x == all[k as int]);
                assert(rest@ == all.take(k as int));
                let mut pos: usize = 0;
                while pos < out.len() && !x.is_upto(&out[pos])
                    invariant
                        pos <= out@.len(),
                        forall|i: int| 0 <= i < pos ==> !x.upto(&#[trigger] out@[i]),
                    decreases out.len() - pos,
                {
                    pos = pos + 1;
                }
                let ghost old_out = out@;
                let ghost old_perm = perm;
                proof {
                    assert forall|i: int| pos <= i < old_out.len() implies x.upto(
                        &#[trigger] old_out[i],
                    ) by {
                        if i > pos {
                            assert(old_out[pos as int].upto(&old_out[i]));
                            T::lemma_transitive(&x, &old_out[pos as int], &old_out[i]);
                        }
                    }
                    assert forall|i: int| 0 <= i < pos implies (#[trigger] old_out[i]).upto(&x) by {
                        T::lemma_total(&old_out[i], &x);
                    }
                }
                out.insert(pos, x);
                proof {
                    perm = old_perm.insert(pos as int, k as int);
                    assert(out@ == old_out.insert(pos as int, all[k as int]));
                    let p = pos as int;
                    assert forall|i: int| 0 <= i < perm.len() implies rest@.len() <= #[trigger] perm[i]
                        < all.len() && out@[i] == all[perm[i]] by {
                        if i < p {
                            assert(perm[i] == old_perm[i] && out@[i] == old_out[i]);
                        } else if i > p {
                            assert(perm[i] == old_perm[i - 1] && out@[i] == old_out[i - 1]);
                        }
                    }
                    assert forall|i: int, j: int| 0 <= i < j < perm.len() implies perm[i] != perm[j] by {
                        let i0 = if i < p { i } else { i - 1 };
                        let j0 = if j < p { j } else { j - 1 };
                        if i != p && j != p {
                            assert(perm[i] == old_perm[i0] && perm[j] == old_perm[j0]);
                        } else if i == p {
                            assert(perm[j] == old_perm[j0]);
                        } else {
                            assert(perm[i] == old_perm[i0]);
                        }
                    }
                    assert forall|i: int, j: int|
                        #![trigger out@[i], out@[j]]
                        0 <= i < j < out@.len() implies out@[i].upto(&out@[j]) && (out@[j].upto(
                        &out@[i],
                    ) ==> perm[i] < perm[j]) by {
                        let i0 = if i < p { i } else { i - 1 };
                        let j0 = if j < p { j } else { j - 1 };
                        if i != p && j != p {
                            assert(out@[i] == old_out[i0] && out@[j] == old_out[j0]);
                            assert(perm[i] == old_perm[i0] && perm[j] == old_perm[j0]);
                        } else if i == p {
                            assert(out@[j] == old_out[j0]);
                            assert(perm[j] == old_perm[j0]);
                        } else {
                            assert(out@[i] == old_out[i0]);
                        }
                    }
                }
            },
            None => {},
        }
    }
    assert(arranges(all, out@, perm));
    out
}

// ---------------------------------------------------------------------------
// Texts in order
// ---------------------------------------------------------------------------

/// Lexicographic order by the code points of the characters.
pub open spec fn text_upto(a: Seq<char>, b: Seq<char>) -> bool
    decreases a.len(),
{
    if a.len() == 0 {
        true
    } else if b.len() == 0 {
        false
    } else if a[0] == b[0] {
        text_upto(a.drop_first(), b.drop_first())
    } else {
        a[0] < b[0]
    }
}

pub proof fn lemma_text_total(a: Seq<char>, b: Seq<char>)
    ensures
        text_upto(a, b) || text_upto(b, a),
        text_upto(a, b) && text_upto(b, a) ==> a == b,
    decreases a.len(),
{
    if a.len() > 0 && b.len() > 0 && a[0] == b[0] {
        lemma_text_total(a.drop_first(), b.drop_first());
        if text_upto(a, b) && text_upto(b, a) {
            assert(a == seq![a[0]] + a.drop_first());
            assert(b == seq![b[0]] + b.drop_first());
        }
    } else if a.len() == 0 && b.len() == 0 {
        assert(a == b);
    }
}

pub proof fn lemma_text_transitive(a: Seq<char>, b: Seq<char>, c: Seq<char>)
    requires
        text_upto(a, b),
        text_upto(b, c),
    ensures
        text_upto(a, c),
    decreases a.len(),
{
    if a.len() > 0 && a[0] == b[0] && b[0] == c[0] {
        lemma_text_transitive(a.drop_first(), b.drop_first(), c.drop_first());
    }
}

/// Whether `a` stands before `b` in lexicographic order, or is `b`.
pub fn chars_upto(a: &[char], b: &[char]) -> (r: bool)
    ensures
        r == text_upto(a@, b@),
{
    let mut i: usize = 0;
    assert(a@.skip(0) == a@ && b@.skip(0) == b@);
    while i < a.len()
        invariant
            i <= a.len(),
            i <= b.len(),
            text_upto(a@, b@) == text_upto(a@.skip(i as int), b@.skip(i as int)),
        decreases a.len() - i,
    {
        let ghost x = a@.skip(i as int);
        let ghost y = b@.skip(i as int);
        if i == b.len() {
            return false;
        }
        assert(x[0] == a@[i as int] && y[0] == b@[i as int]);
        if a[i] != b[i] {
            return a[i] < b[i];
        }
        assert(x.drop_first() == a@.skip(i + 1) && y.drop_first() == b@.skip(i + 1));
        i = i + 1;
    }
    true
}

impl Ranked for String {
    open spec fn upto(&self, other: &Self) -> bool {
        text_upto(self@, other@)
    }

    proof fn lemma_total(a: &Self, b: &Self) {
        lemma_text_total(a@, b@);
    }

    proof fn lemma_transitive(a: &Self, b: &Self, c: &Self) {
        lemma_text_transitive(a@, b@, c@);
    }

    fn is_upto(&self, other: &Self) -> (r: bool) {
        let x = text::chars_of(self.as_str());
        let y = text::chars_of(other.as_str());
        chars_upto(x.as_slice(), y.as_slice())
    }
}

/// Order of pairs: by the second component, then by the first.
impl Ranked for (String, String) {
    open spec fn upto(&self, other: &Self) -> bool {
        if self.1@ == other.1@ {
            text_upto(self.0@, other.0@)
        } else {
            text_upto(self.1@, other.1@)
        }
    }

    proof fn lemma_total(a: &Self, b: &Self) {
        lemma_text_total(a.0@, b.0@);
        lemma_text_total(a.1@, b.1@);
    }

    proof fn lemma_transitive(a: &Self, b: &Self, c: &Self) {
        if a.1@ == b.1@ && b.1@ == c.1@ {
            lemma_text_transitive(a.0@, b.0@, c.0@);
        } else {
            lemma_text_total(a.1@, c.1@);
            lemma_text_total(a.1@, b.1@);
            lemma_text_total(b.1@, c.1@);
            if a.1@ != b.1@ && b.1@ != c.1@ {
                lemma_text_transitive(a.1@, b.1@, c.1@);
            }
        }
    }

    fn is_upto(&self, other: &Self) -> (r: bool) {
        if text::str_eq(self.1.as_str(), other.1.as_str()) {
            self.0.is_upto(&other.0)
        } else {
            self.1.is_upto(&other.1)
        }
    }
}

// ---------------------------------------------------------------------------
// Sorting without repetitions
// ---------------------------------------------------------------------------

/// `b` ascends strictly.
pub open spec fn ascends<T: Ranked>(b: Seq<T>) -> bool {
    forall|i: int, j: int|
        #![trigger b[i], b[j]]
        0 <= i < j < b.len() ==> b[i].upto(&b[j]) && !b[j].upto(&b[i])
}

/// `x` is among the elements of `a`, or one that ranks with it is.
pub open spec fn ranks_in<T: Ranked>(a: Seq<T>, x: T) -> bool {
    exists|i: int| 0 <= i < a.len() && x.upto(&#[trigger] a[i]) && a[i].upto(&x)
}

/// `b` holds one element of each rank that occurs in `a`, in ascending order.
pub open spec fn distilled<T: Ranked>(a: Seq<T>, b: Seq<T>) -> bool {
    &&& ascends(b)
    &&& forall|i: int| 0 <= i < b.len() ==> a.contains(#[trigger] b[i])
    &&& forall|i: int| 0 <= i < a.len() ==> ranks_in(b, #[trigger] a[i])
}

/// Sorts, and keeps one element of each rank.
pub fn sort_dedup<T: Ranked>(items: Vec<T>) -> (r: Vec<T>)
    ensures
        distilled(items@, r@),
{
    let ghost given = items@;
    let mut rest = stable_sort(items);
    let ghost sorted = rest@;
    let ghost perm = choose|perm: Seq<int>|
        #[trigger] arranges(given, sorted, perm) && in_order(sorted, perm);
    let mut r: Vec<T> = Vec::new();
    while rest.len() > 0
        invariant
            arranges(given, sorted, perm),
            in_order(sorted, perm),
            rest@ == sorted.take(rest@.len() as int),
            rest@.len() <= sorted.len(),
            ascends(r@),
            forall|i: int| 0 <= i < r@.len() ==> given.contains(#[trigger] r@[i]),
            forall|i: int|
                rest@.len() <= i < sorted.len() ==> ranks_in(r@, #[trigger] sorted[i]),
            r@.len() > 0 ==> (forall|i: int|
                0 <= i < rest@.len() ==> (#[trigger] sorted[i]).upto(&r@[0])),
        decreases rest.len(),
    {
        let ghost old_r = r@;
        let ghost n = rest@.len() - 1;
        if let Some(x) = rest.pop() {
            assert(x == sorted[n]);
            assert(sorted[n] == given[perm[n]]);
            assert(rest@ =~= sorted.take(n));
            let again = r.len() > 0 && r[0].is_upto(&x);
            proof {
                T::lemma_total(&x, &x);
            }
            if again {
                proof {
                    assert(x.upto(&r@[0]));
                    assert(ranks_in(r@, x));
                }
            } else {
                r.insert(0, x);
                proof {
                    assert(r@ =~= seq![x] + old_r);
                    assert forall|i: int, j: int|
                        #![trigger r@[i], r@[j]]
                        0 <= i < j < r@.len() implies r@[i].upto(&r@[j]) && !r@[j].upto(&r@[i]) by {
                        assert(r@[j] == old_r[j - 1]);
                        if i > 0 {
                            assert(r@[i] == old_r[i - 1]);
                        } else {
                            assert(x.upto(&old_r[0]) && !old_r[0].upto(&x));
                            if j > 1 {
                                T::lemma_transitive(&x, &old_r[0], &old_r[j - 1]);
                                if old_r[j - 1].upto(&x) {
                                    T::lemma_transitive(&old_r[j - 1], &x, &old_r[0]);
                                }
                            }
                        }
                    }
                    assert forall|i: int| 0 <= i < r@.len() implies given.contains(
                        #[trigger] r@[i],
                    ) by {
                        if i > 0 {
                            assert(r@[i] == old_r[i - 1]);
                        }
                    }
                    assert forall|i: int| n <= i < sorted.len() implies ranks_in(
                        r@,
                        #[trigger] sorted[i],
                    ) by {
                        if i == n {
                            assert(r@[0] == x);
                        } else {
                            let k = choose|k: int|
                                0 <= k < old_r.len() && sorted[i].upto(&#[trigger] old_r[k])
                                    && old_r[k].upto(&sorted[i]);
                            assert(r@[k + 1] == old_r[k]);
                        }
                    }
                    assert forall|i: int| 0 <= i < n implies (#[trigger] sorted[i]).upto(&r@[0]) by {
                        assert(sorted[i].upto(&sorted[n]));
                    }
                }
            }
        }
    }
    proof {
        assert forall|i: int| 0 <= i < given.len() implies ranks_in(r@, #[trigger] given[i]) by {
            lemma_arranges_onto(given, sorted, perm, i);
            let j = choose|j: int| 0 <= j < perm.len() && #[trigger] perm[j] == i;
            assert(sorted[j] == given[i]);
        }
    }
    r
}

/// `l` ascends strictly.
pub open spec fn texts_ascend(l: Seq<Seq<char>>) -> bool {
    forall|i: int, j: int|
        #![trigger l[i], l[j]]
        0 <= i < j < l.len() ==> text_upto(l[i], l[j]) && l[i] != l[j]
}

/// Order of pairs: by the second component, then by the first.
pub open spec fn pair_upto(a: (Seq<char>, Seq<char>), b: (Seq<char>, Seq<char>)) -> bool {
    if a.1 == b.1 {
        text_upto(a.0, b.0)
    } else {
        text_upto(a.1, b.1)
    }
}

/// `l` ascends strictly.
pub open spec fn pairs_ascend(l: Seq<(Seq<char>, Seq<char>)>) -> bool {
    forall|i: int, j: int|
        #![trigger l[i], l[j]]
        0 <= i < j < l.len() ==> pair_upto(l[i], l[j]) && l[i] != l[j]
}

/// Two lists that ascend strictly and have the same members are equal.
pub proof fn law_ascending_texts_are_unique(a: Seq<Seq<char>>, b: Seq<Seq<char>>)
    requires
        texts_ascend(a),
        texts_ascend(b),
        forall|x: Seq<char>| a.contains(x) <==> b.contains(x),
    ensures
        a == b,
    decreases a.len(),
{
    if a.len() == 0 {
        if b.len() > 0 {
            assert(b.contains(b[0]));
        }
    } else {
        assert(a.contains(a.last()));
        assert(b.contains(a.last()));
        assert(b.contains(b.last()));
        assert(a.contains(b.last()));
        let i = choose|i: int| 0 <= i < b.len() && b[i] == a.last();
        let j = choose|j: int| 0 <= j < a.len() && a[j] == b.last();
        lemma_text_total(a.last(), b.last());
        assert(i < b.len() - 1 ==> text_upto(b[i], b[b.len() - 1]));
        assert(j < a.len() - 1 ==> text_upto(a[j], a[a.len() - 1]));
        assert(a.last() == b.last());
        let c = a.drop_last();
        let d = b.drop_last();
        assert forall|x: Seq<char>| c.contains(x) <==> d.contains(x) by {
            if c.contains(x) {
                let k = choose|k: int| 0 <= k < c.len() && c[k] == x;
                assert(a[k] == x && a[k] != a[a.len() - 1]);
                assert(a.contains(x) && b.contains(x));
                let m = choose|m: int| 0 <= m < b.len() && b[m] == x;
                assert(d[m] == x);
            }
            if d.contains(x) {
                let k = choose|k: int| 0 <= k < d.len() && d[k] == x;
                assert(b[k] == x && b[k] != b[b.len() - 1]);
                assert(b.contains(x) && a.contains(x));
                let m = choose|m: int| 0 <= m < a.len() && a[m] == x;
                assert(c[m] == x);
            }
        }
        law_ascending_texts_are_unique(c, d);
        assert(a =~= c.push(a.last()));
        assert(b =~= d.push(b.last()));
    }
}

/// Two lists of pairs that ascend strictly and have the same members are equal.
pub proof fn law_ascending_pairs_are_unique(
    a: Seq<(Seq<char>, Seq<char>)>,
    b: Seq<(Seq<char>, Seq<char>)>,
)
    requires
        pairs_ascend(a),
        pairs_ascend(b),
        forall|x: (Seq<char>, Seq<char>)| a.contains(x) <==> b.contains(x),
    ensures
        a == b,
    decreases a.len(),
{
    if a.len() == 0 {
        if b.len() > 0 {
            assert(b.contains(b[0]));
        }
    } else {
        assert(a.contains(a.last()));
        assert(b.contains(a.last()));
        assert(b.contains(b.last()));
        assert(a.contains(b.last()));
        let i = choose|i: int| 0 <= i < b.len() && b[i] == a.last();
        let j = choose|j: int| 0 <= j < a.len() && a[j] == b.last();
        lemma_text_total(a.last().0, b.last().0);
        lemma_text_total(a.last().1, b.last().1);
        assert(i < b.len() - 1 ==> pair_upto(b[i], b[b.len() - 1]));
        assert(j < a.len() - 1 ==> pair_upto(a[j], a[a.len() - 1]));
        assert(a.last() == b.last());
        let c = a.drop_last();
        let d = b.drop_last();
        assert forall|x: (Seq<char>, Seq<char>)| c.contains(x) <==> d.contains(x) by {
            if c.contains(x) {
                let k = choose|k: int| 0 <= k < c.len() && c[k] == x;
                assert(a[k] == x && a[k] != a[a.len() - 1]);
                assert(a.contains(x) && b.contains(x));
                let m = choose|m: int| 0 <= m < b.len() && b[m] == x;
                assert(d[m] == x);
            }
            if d.contains(x) {
                let k = choose|k: int| 0 <= k < d.len() && d[k] == x;
                assert(b[k] == x && b[k] != b[b.len() - 1]);
                assert(b.contains(x) && a.contains(x));
                let m = choose|m: int| 0 <= m < a.len() && a[m] == x;
                assert(c[m] == x);
            }
        }
        law_ascending_pairs_are_unique(c, d);
        assert(a =~= c.push(a.last()));
        assert(b =~= d.push(b.last()));
    }
}

/// Sorts texts, and keeps each once.
pub fn sort_texts(items: Vec<String>) -> (r: Vec<String>)
    ensures
        texts_ascend(text::texts(r@)),
        forall|x: Seq<char>| #[trigger]
            text::texts(r@).contains(x) <==> text::texts(items@).contains(x),
{
    let ghost given = items@;
    let r = sort_dedup(items);
    proof {
        let g = text::texts(given);
        let t = text::texts(r@);
        assert forall|i: int, j: int|
            #![trigger t[i], t[j]]
            0 <= i < j < t.len() implies text_upto(t[i], t[j]) && t[i] != t[j] by {
            assert(r@[i].upto(&r@[j]) && !r@[j].upto(&r@[i]));
        }
        assert forall|x: Seq<char>| #[trigger] t.contains(x) <==> g.contains(x) by {
            if t.contains(x) {
                let i = choose|i: int| 0 <= i < t.len() && t[i] == x;
                assert(given.contains(r@[i]));
                let k = choose|k: int| 0 <= k < given.len() && given[k] == r@[i];
                assert(g[k] == x);
            }
            if g.contains(x) {
                let k = choose|k: int| 0 <= k < g.len() && g[k] == x;
                assert(ranks_in(r@, given[k]));
                let i = choose|i: int|
                    0 <= i < r@.len() && given[k].upto(&#[trigger] r@[i]) && r@[i].upto(&given[k]);
                lemma_text_total(given[k]@, r@[i]@);
                assert(t[i] == x);
            }
        }
    }
    r
}

/// Sorts pairs, and keeps each once.
pub fn sort_pairs(items: Vec<(String, String)>) -> (r: Vec<(String, String)>)
    ensures
        pairs_ascend(headers::pairs(r@)),
        forall|x: (Seq<char>, Seq<char>)| #[trigger]
            headers::pairs(r@).contains(x) <==> headers::pairs(items@).contains(x),
{
    let ghost given = items@;
    let r = sort_dedup(items);
    proof {
        let g = headers::pairs(given);
        let t = headers::pairs(r@);
        assert forall|i: int, j: int|
            #![trigger t[i], t[j]]
            0 <= i < j < t.len() implies pair_upto(t[i], t[j]) && t[i] != t[j] by {
            assert(r@[i].upto(&r@[j]) && !r@[j].upto(&r@[i]));
        }
        assert forall|x: (Seq<char>, Seq<char>)| #[trigger] t.contains(x) <==> g.contains(x) by {
            if t.contains(x) {
                let i = choose|i: int| 0 <= i < t.len() && t[i] == x;
                assert(given.contains(r@[i]));
                let k = choose|k: int| 0 <= k < given.len() && given[k] == r@[i];
                assert(g[k] == x);
            }
            if g.contains(x) {
                let k = choose|k: int| 0 <= k < g.len() && g[k] == x;
                assert(ranks_in(r@, given[k]));
                let i = choose|i: int|
                    0 <= i < r@.len() && given[k].upto(&#[trigger] r@[i]) && r@[i].upto(&given[k]);
                lemma_text_total(given[k].0@, r@[i].0@);
                lemma_text_total(given[k].1@, r@[i].1@);
                assert(t[i] == x);
            }
        }
    }
    r
}

/// The number of leading elements that do not come after `x`.
spec fn place(l: Seq<Seq<char>>, x: Seq<char>) -> int
    decreases l.len(),
{
    if l.len() == 0 || !text_upto(l[0], x) {
        0
    } else {
        1 + place(l.drop_first(), x)
    }
}

proof fn lemma_place(l: Seq<Seq<char>>, x: Seq<char>)
    requires
        texts_ascend(l),
    ensures
        0 <= place(l, x) <= l.len(),
        forall|i: int| 0 <= i < place(l, x) ==> text_upto(#[trigger] l[i], x),
        forall|i: int| place(l, x) <= i < l.len() ==> !text_upto(#[trigger] l[i], x),
    decreases l.len(),
{
    if l.len() > 0 {
        let rest = l.drop_first();
        assert(texts_ascend(rest)) by {
            assert forall|i: int, j: int|
                #![trigger rest[i], rest[j]]
                0 <= i < j < rest.len() implies text_upto(rest[i], rest[j]) && rest[i] != rest[j] by {
                assert(rest[i] == l[i + 1] && rest[j] == l[j + 1]);
            }
        }
        lemma_place(rest, x);
        if text_upto(l[0], x) {
            assert forall|i: int| 0 <= i < place(l, x) implies text_upto(#[trigger] l[i], x) by {
                if i > 0 {
                    assert(rest[i - 1] == l[i]);
                }
            }
            assert forall|i: int| place(l, x) <= i < l.len() implies !text_upto(#[trigger] l[i], x) by {
                assert(rest[i - 1] == l[i]);
            }
        } else {
            assert forall|i: int| 0 <= i < l.len() implies !text_upto(#[trigger] l[i], x) by {
                if i > 0 && text_upto(l[i], x) {
                    assert(text_upto(l[0], l[i]));
                    lemma_text_transitive(l[0], l[i], x);
                }
            }
        }
    }
}

/// Every list of texts has an ascending list with the same members.
pub proof fn law_ascending_list_exists(items: Seq<Seq<char>>) -> (l: Seq<Seq<char>>)
    ensures
        texts_ascend(l),
        forall|x: Seq<char>| #[trigger] l.contains(x) <==> items.contains(x),
    decreases items.len(),
{
    if items.len() == 0 {
        items
    } else {
        let last = items.last();
        let init = items.drop_last();
        let k = law_ascending_list_exists(init);
        assert forall|x: Seq<char>| #[trigger] items.contains(x) <==> k.contains(x) || x == last by {
            if items.contains(x) {
                let i = choose|i: int| 0 <= i < items.len() && items[i] == x;
                if i < init.len() {
                    assert(init[i] == x);
                    assert(init.contains(x));
                }
            }
            if k.contains(x) {
                assert(init.contains(x));
                let i = choose|i: int| 0 <= i < init.len() && init[i] == x;
                assert(items[i] == x);
            }
            if x == last {
                assert(items[items.len() - 1] == x);
            }
        }
        if k.contains(last) {
            assert forall|x: Seq<char>| #[trigger] k.contains(x) <==> items.contains(x) by {
                assert(items.contains(x) <==> k.contains(x) || x == last);
            }
            k
        } else {
            lemma_place(k, last);
            let p = place(k, last);
            let l = k.insert(p, last);
            assert forall|i: int, j: int|
                #![trigger l[i], l[j]]
                0 <= i < j < l.len() implies text_upto(l[i], l[j]) && l[i] != l[j] by {
                let i0 = if i < p {
                    i
                } else {
                    i - 1
                };
                let j0 = if j < p {
                    j
                } else {
                    j - 1
                };
                if i == p {
                    assert(l[j] == k[j0]);
                    assert(k.contains(k[j0]));
                    lemma_text_total(last, k[j0]);
                } else if j == p {
                    assert(l[i] == k[i0]);
                    assert(k.contains(k[i0]));
                } else {
                    assert(l[i] == k[i0] && l[j] == k[j0]);
                }
            }
            assert forall|x: Seq<char>| #[trigger] l.contains(x) <==> items.contains(x) by {
                assert(items.contains(x) <==> k.contains(x) || x == last);
                if l.contains(x) {
                    let i = choose|i: int| 0 <= i < l.len() && l[i] == x;
                    if i < p {
                        assert(k[i] == x);
                    } else if i > p {
                        assert(k[i - 1] == x);
                    }
                }
                if k.contains(x) {
                    let i = choose|i: int| 0 <= i < k.len() && k[i] == x;
                    if i < p {
                        assert(l[i] == x);
                    } else {
                        assert(l[i + 1] == x);
                    }
                }
                if x == last {
                    assert(l[p] == x);
                }
            }
            l
        }
    }
}

/// Texts are ordered by the first character in which they differ, and a text stands before its
/// extensions. Pairs are ordered by what stands second, and by what stands first where that is
/// the same.
pub proof fn law_order_of_texts(
    start: Seq<char>,
    a: char,
    x: Seq<char>,
    b: char,
    y: Seq<char>,
)
    ensures
        a != b ==> (text_upto(start + seq![a] + x, start + seq![b] + y) <==> (a as u32) < (b as u32)),
        text_upto(start, start + x),
        x.len() > 0 ==> !text_upto(start + x, start),
        pair_upto((x, start), (y, start)) == text_upto(x, y),
        a != b ==> pair_upto((x, start + seq![a]), (y, start + seq![b])) == ((a as u32) < (
        b as u32)),
    decreases start.len(),
{
    let p = start + seq![a] + x;
    let q = start + seq![b] + y;
    let none = Seq::<char>::empty();
    if start.len() > 0 {
        let rest = start.drop_first();
        law_order_of_texts(rest, a, x, b, y);
        assert(p[0] == start[0] && q[0] == start[0]);
        assert(p.drop_first() =~= rest + seq![a] + x);
        assert(q.drop_first() =~= rest + seq![b] + y);
        let e = start + x;
        assert(e[0] == start[0]);
        assert(e.drop_first() =~= rest + x);
        let m = start + seq![a];
        let n = start + seq![b];
        assert(m[0] == start[0] && n[0] == start[0]);
        assert(m.drop_first() =~= rest + seq![a]);
        assert(n.drop_first() =~= rest + seq![b]);
        if a != b {
            assert(m.last() == a && n.last() == b);
            let m2 = rest + seq![a];
            let n2 = rest + seq![b];
            assert(m2.last() == a && n2.last() == b);
            assert(text_upto(m2, n2) == ((a as u32) < (b as u32)));
        }
    } else {
        assert(p[0] == a && q[0] == b);
        let m = start + seq![a];
        let n = start + seq![b];
        assert(m[0] == a && n[0] == b);
        assert(start + x =~= x);
        assert(start =~= none);
    }
}

/// A list that was sorted holds the elements of the other, no more and no fewer, in order; of
/// two that rank alike the one that came first stays first.
pub proof fn law_sorting_keeps_the_elements<T: Ranked>(a: Seq<T>, b: Seq<T>, x: T)
    requires
        stably_sorted(a, b),
    ensures
        b.len() == a.len(),
        b.contains(x) <==> a.contains(x),
        forall|i: int, j: int|
            #![trigger b[i], b[j]]
            0 <= i < j < b.len() ==> b[i].upto(&b[j]),
        exists|place: Seq<int>| #[trigger] place.len() == a.len() && (forall|i: int|
            0 <= i < a.len() ==> 0 <= #[trigger] place[i] < a.len() && b[i] == a[place[i]]) && (
        forall|i: int, j: int|
            #![trigger place[i], place[j]]
            0 <= i < j < a.len() ==> place[i] != place[j] && (b[j].upto(&b[i]) ==> place[i]
                < place[j])),
{
    let perm = choose|perm: Seq<int>| #[trigger] arranges(a, b, perm) && in_order(b, perm);
    assert(perm.len() == a.len());
    if b.contains(x) {
        let i = choose|i: int| 0 <= i < b.len() && b[i] == x;
        assert(b[i] == a[perm[i]]);
    }
    if a.contains(x) {
        let k = choose|k: int| 0 <= k < a.len() && a[k] == x;
        lemma_onto(perm, perm.len() as int, k);
        let i = choose|i: int| 0 <= i < perm.len() && #[trigger] perm[i] == k;
        assert(b[i] == a[perm[i]]);
    }
    assert forall|i: int, j: int|
        #![trigger perm[i], perm[j]]
        0 <= i < j < a.len() implies perm[i] != perm[j] && (b[j].upto(&b[i]) ==> perm[i]
        < perm[j]) by {
        assert(b[i].upto(&b[j]));
    }
}

/// A list that ascends has each element once, each before the greater ones.
pub proof fn law_ascending_lists(
    l: Seq<Seq<char>>,
    p: Seq<(Seq<char>, Seq<char>)>,
    i: int,
    j: int,
)
    ensures
        texts_ascend(l) && 0 <= i < j < l.len() ==> text_upto(l[i], l[j]) && l[i] != l[j],
        pairs_ascend(p) && 0 <= i < j < p.len() ==> p[i] != p[j] && (p[i].1 != p[j].1 ==> text_upto(
            p[i].1,
            p[j].1,
        )) && (p[i].1 == p[j].1 ==> text_upto(p[i].0, p[j].0)),
{
}

} // verus!
