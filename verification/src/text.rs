//! Characters and strings: the vocabulary in which the other modules state what
//! they do to text, and the loops that carry it out.
//!
//! A string is modelled by its sequence of characters (`s@`).

use vstd::prelude::*;
use vstd::slice::slice_subrange;
use vstd::utf8::*;

verus! {

/// `String::push`: the character is appended to the string.
pub assume_specification[ String::push ](s: &mut String, c: char)
    ensures
        final(s)@ == old(s)@.push(c),
;

/// The characters of `s`, in order.
pub fn chars_of(s: &str) -> (cs: Vec<char>)
    ensures
        cs@ == s@,
{
    let mut cs: Vec<char> = Vec::new();
    for c in it: s.chars()
        invariant
            it.seq() == s@,
            cs@ == s@.take(it.index() as int),
    {
        cs.push(c);
    }
    assert(s@.take(s@.len() as int) == s@);
    cs
}

/// The string made of the characters `cs`.
pub fn string_of(cs: &[char]) -> (s: String)
    ensures
        s@ == cs@,
{
    let mut s = String::new();
    for i in 0..cs.len()
        invariant
            s@ == cs@.take(i as int),
    {
        s.push(cs[i]);
    }
    assert(cs@.take(cs@.len() as int) == cs@);
    s
}

/// Whether two strings hold the same characters.
pub fn str_eq(a: &str, b: &str) -> (r: bool)
    ensures
        r == (a@ == b@),
{
    let x = a.as_bytes();
    let y = b.as_bytes();
    proof {
        encode_utf8_decode_utf8(a@);
        encode_utf8_decode_utf8(b@);
    }
    if x.len() != y.len() {
        return false;
    }
    for i in 0..x.len()
        invariant
            x@ == encode_utf8(a@),
            y@ == encode_utf8(b@),
            x.len() == y.len(),
            forall|j: int| 0 <= j < i ==> x@[j] == y@[j],
    {
        if x[i] != y[i] {
            return false;
        }
    }
    assert(x@ == y@);
    true
}

/// Whether two character slices are equal.
pub fn chars_eq(a: &[char], b: &[char]) -> (r: bool)
    ensures
        r == (a@ == b@),
{
    if a.len() != b.len() {
        return false;
    }
    for i in 0..a.len()
        invariant
            a.len() == b.len(),
            forall|j: int| 0 <= j < i ==> a@[j] == b@[j],
    {
        if a[i] != b[i] {
            return false;
        }
    }
    assert(a@ == b@);
    true
}

// ---------------------------------------------------------------------------
// Prefixes, suffixes, search
// ---------------------------------------------------------------------------

/// `s` begins with `p`.
pub open spec fn has_prefix(s: Seq<char>, p: Seq<char>) -> bool {
    p.len() <= s.len() && s.take(p.len() as int) == p
}

/// `s` ends with `p`.
pub open spec fn has_suffix(s: Seq<char>, p: Seq<char>) -> bool {
    p.len() <= s.len() && s.skip(s.len() - p.len()) == p
}

/// `p` occurs in `s` at position `i`.
pub open spec fn occurs_at(s: Seq<char>, p: Seq<char>, i: int) -> bool {
    0 <= i && i + p.len() <= s.len() && s.subrange(i, i + p.len()) == p
}

/// `p` occurs somewhere in `s`.
pub open spec fn contains_text(s: Seq<char>, p: Seq<char>) -> bool {
    exists|i: int| occurs_at(s, p, i)
}

/// The position of the first `c` in `s`, or the length of `s` where there is none.
pub open spec fn first_of(s: Seq<char>, c: char) -> int
    decreases s.len(),
{
    if s.len() == 0 || s[0] == c {
        0
    } else {
        1 + first_of(s.drop_first(), c)
    }
}

pub proof fn lemma_first_of(s: Seq<char>, c: char)
    ensures
        0 <= first_of(s, c) <= s.len(),
        forall|i: int| 0 <= i < first_of(s, c) ==> s[i] != c,
        first_of(s, c) < s.len() ==> s[first_of(s, c)] == c,
    decreases s.len(),
{
    if s.len() > 0 && s[0] != c {
        lemma_first_of(s.drop_first(), c);
        let r = first_of(s.drop_first(), c);
        assert forall|i: int| 0 <= i < 1 + r implies s[i] != c by {
            if i > 0 {
                assert(s.drop_first()[i - 1] == s[i]);
            }
        }
    }
}

/// `first_of` is the only position with the properties that `lemma_first_of` gives.
pub proof fn lemma_first_of_unique(s: Seq<char>, c: char, k: int)
    requires
        0 <= k <= s.len(),
        forall|i: int| 0 <= i < k ==> s[i] != c,
        k < s.len() ==> s[k] == c,
    ensures
        first_of(s, c) == k,
{
    lemma_first_of(s, c);
    let f = first_of(s, c);
    if f < k {
        assert(s[f] != c);
    } else if k < f {
        assert(s[k] != c);
    }
}

/// Whether `s` begins with `p`.
pub fn starts_with(s: &[char], p: &[char]) -> (r: bool)
    ensures
        r == has_prefix(s@, p@),
{
    if p.len() > s.len() {
        return false;
    }
    chars_eq(slice_subrange(s, 0, p.len()), p)
}

/// Whether `s` ends with `p`.
pub fn ends_with(s: &[char], p: &[char]) -> (r: bool)
    ensures
        r == has_suffix(s@, p@),
{
    if p.len() > s.len() {
        return false;
    }
    chars_eq(slice_subrange(s, s.len() - p.len(), s.len()), p)
}

/// Whether `p` occurs in `s`.
pub fn contains(s: &[char], p: &[char]) -> (r: bool)
    ensures
        r == contains_text(s@, p@),
{
    if p.len() > s.len() {
        return false;
    }
    let last: usize = s.len() - p.len();
    let mut i: usize = 0;
    while i <= last
        invariant
            last == s.len() - p.len(),
            i <= last + 1,
            forall|j: int| 0 <= j < i ==> !occurs_at(s@, p@, j),
        decreases last + 1 - i,
    {
        if chars_eq(slice_subrange(s, i, i + p.len()), p) {
            assert(occurs_at(s@, p@, i as int));
            return true;
        }
        if i == last {
            assert forall|j: int| !occurs_at(s@, p@, j) by {
                if 0 <= j && j + p@.len() <= s@.len() {
                    assert(j <= last);
                }
            }
            return false;
        }
        i = i + 1;
    }
    false
}

/// The position of the first `c` in `s`, or its length.
pub fn find_char(s: &[char], c: char) -> (k: usize)
    ensures
        k == first_of(s@, c),
        k <= s@.len(),
{
    let mut i: usize = 0;
    while i < s.len() && s[i] != c
        invariant
            i <= s.len(),
            forall|j: int| 0 <= j < i ==> s@[j] != c,
        decreases s.len() - i,
    {
        i = i + 1;
    }
    proof {
        lemma_first_of_unique(s@, c, i as int);
    }
    i
}

// ---------------------------------------------------------------------------
// Splitting and joining
// ---------------------------------------------------------------------------

/// The pieces of `s` between the occurrences of `sep`: one more than there are
/// occurrences, empty pieces included.
pub open spec fn pieces(s: Seq<char>, sep: char) -> Seq<Seq<char>>
    decreases s.len(),
{
    let k = first_of(s, sep);
    if 0 <= k < s.len() {
        seq![s.take(k)] + pieces(s.skip(k + 1), sep)
    } else {
        seq![s]
    }
}

/// The part before the first `sep` and the part after it, where there is one.
pub open spec fn cut(s: Seq<char>, sep: char) -> Option<(Seq<char>, Seq<char>)> {
    let k = first_of(s, sep);
    if k < s.len() {
        Some((s.take(k), s.skip(k + 1)))
    } else {
        None
    }
}

/// What stands before the first `sep`: all of `s` where there is none.
pub open spec fn before(s: Seq<char>, sep: char) -> Seq<char> {
    s.take(first_of(s, sep))
}

/// The views of a list of strings.
pub open spec fn texts(v: Seq<String>) -> Seq<Seq<char>> {
    v.map_values(|s: String| s@)
}

/// The view of an optional string.
pub open spec fn maybe(s: Option<String>) -> Option<Seq<char>> {
    match s {
        Some(t) => Some(t@),
        None => None,
    }
}

/// The views of a list of character vectors.
pub open spec fn rows(v: Seq<Vec<char>>) -> Seq<Seq<char>> {
    v.map_values(|s: Vec<char>| s@)
}

/// `parts` one after another, with `sep` between neighbours.
pub open spec fn joined(parts: Seq<Seq<char>>, sep: Seq<char>) -> Seq<char>
    decreases parts.len(),
{
    if parts.len() == 0 {
        seq![]
    } else if parts.len() == 1 {
        parts[0]
    } else {
        joined(parts.drop_last(), sep) + sep + parts.last()
    }
}

/// Splits `s` at each `sep`.
pub fn split(s: &[char], sep: char) -> (v: Vec<Vec<char>>)
    ensures
        rows(v@) == pieces(s@, sep),
{
    let mut v: Vec<Vec<char>> = Vec::new();
    let mut rest: usize = 0;
    assert(s@.skip(0) == s@);
    loop
        invariant
            rest <= s.len(),
            rows(v@) + pieces(s@.skip(rest as int), sep) == pieces(s@, sep),
        decreases s.len() - rest,
    {
        let tail = slice_subrange(s, rest, s.len());
        let ghost before = v@;
        assert(tail@ == s@.skip(rest as int));
        let k = find_char(tail, sep);
        proof {
            lemma_first_of(tail@, sep);
        }
        let piece: Vec<char> = vstd::slice::slice_to_vec(slice_subrange(tail, 0, k));
        assert(piece@ == tail@.take(k as int));
        v.push(piece);
        assert(rows(v@) == rows(before).push(piece@));
        if k == tail.len() {
            assert(tail@.take(k as int) == tail@);
            assert(rows(v@) == rows(before) + pieces(tail@, sep));
            return v;
        }
        assert(tail@.skip(k + 1) == s@.skip(rest + k + 1));
        assert(rows(before) + (seq![piece@] + pieces(s@.skip(rest + k + 1), sep)) == rows(v@) + pieces(
            s@.skip(rest + k + 1),
            sep,
        ));
        rest = rest + k + 1;
    }
}

/// Joins strings with a separator.
pub fn join(parts: &Vec<String>, sep: &str) -> (s: String)
    ensures
        s@ == joined(texts(parts@), sep@),
{
    let mut out = String::new();
    let ghost all = texts(parts@);
    for i in 0..parts.len()
        invariant
            all == texts(parts@),
            out@ == joined(all.take(i as int), sep@),
    {
        if i > 0 {
            out.append(sep);
        }
        out.append(parts[i].as_str());
        assert(all.take(i as int + 1).drop_last() == all.take(i as int));
        assert(all.take(i as int + 1).last() == parts@[i as int]@);
    }
    assert(all.take(parts@.len() as int) == all);
    out
}

// ---------------------------------------------------------------------------
// Trimming
// ---------------------------------------------------------------------------

/// The sets of characters that are trimmed off the ends of a text.
#[derive(Clone, Copy)]
pub enum Trim {
    /// Unicode white space.
    Space,
    /// The slash.
    Slash,
    /// Carriage return and line feed.
    LineEnd,
}

/// The characters with the Unicode property White_Space.
pub open spec fn is_space(c: char) -> bool {
    let n = c as u32;
    ||| 0x09 <= n <= 0x0d
    ||| n == 0x20
    ||| n == 0x85
    ||| n == 0xa0
    ||| n == 0x1680
    ||| 0x2000 <= n <= 0x200a
    ||| n == 0x2028
    ||| n == 0x2029
    ||| n == 0x202f
    ||| n == 0x205f
    ||| n == 0x3000
}

impl Trim {
    pub open spec fn holds(self, c: char) -> bool {
        match self {
            Trim::Space => is_space(c),
            Trim::Slash => c == '/',
            Trim::LineEnd => c == '\r' || c == '\n',
        }
    }

    /// Whether `c` is in the set.
    pub fn has(self, c: char) -> (r: bool)
        ensures
            r == self.holds(c),
    {
        match self {
            Trim::Space => is_whitespace(c),
            Trim::Slash => c == '/',
            Trim::LineEnd => c == '\r' || c == '\n',
        }
    }
}

/// Whether `c` is white space.
pub fn is_whitespace(c: char) -> (r: bool)
    ensures
        r == is_space(c),
{
    let n = c as u32;
    (0x09 <= n && n <= 0x0d) || n == 0x20 || n == 0x85 || n == 0xa0 || n == 0x1680 || (0x2000 <= n
        && n <= 0x200a) || n == 0x2028 || n == 0x2029 || n == 0x202f || n == 0x205f || n == 0x3000
}

/// `s` without the longest run of characters of the set at its start.
pub open spec fn trim_left(s: Seq<char>, set: Trim) -> Seq<char>
    decreases s.len(),
{
    if s.len() > 0 && set.holds(s[0]) {
        trim_left(s.drop_first(), set)
    } else {
        s
    }
}

/// `s` without the longest run of characters of the set at its end.
pub open spec fn trim_right(s: Seq<char>, set: Trim) -> Seq<char>
    decreases s.len(),
{
    if s.len() > 0 && set.holds(s.last()) {
        trim_right(s.drop_last(), set)
    } else {
        s
    }
}

/// `s` without the characters of the set at either end.
pub open spec fn trimmed(s: Seq<char>, set: Trim) -> Seq<char> {
    trim_right(trim_left(s, set), set)
}

pub proof fn lemma_trim_left(s: Seq<char>, set: Trim, k: int)
    requires
        0 <= k <= s.len(),
        forall|i: int| 0 <= i < k ==> set.holds(s[i]),
        k < s.len() ==> !set.holds(s[k]),
    ensures
        trim_left(s, set) == s.skip(k),
    decreases s.len(),
{
    if k > 0 {
        let t = s.drop_first();
        assert forall|i: int| 0 <= i < k - 1 implies set.holds(t[i]) by {
            assert(t[i] == s[i + 1]);
        }
        lemma_trim_left(t, set, k - 1);
        assert(t.skip(k - 1) == s.skip(k));
    } else {
        assert(s.skip(0) == s);
    }
}

pub proof fn lemma_trim_right(s: Seq<char>, set: Trim, k: int)
    requires
        0 <= k <= s.len(),
        forall|i: int| k <= i < s.len() ==> set.holds(s[i]),
        k > 0 ==> !set.holds(s[k - 1]),
    ensures
        trim_right(s, set) == s.take(k),
    decreases s.len(),
{
    if k < s.len() {
        lemma_trim_right(s.drop_last(), set, k);
        assert(s.drop_last().take(k) == s.take(k));
    } else {
        assert(s.take(k) == s);
    }
}

/// Drops the characters of the set from the start.
pub fn trim_start(s: &[char], set: Trim) -> (r: &[char])
    ensures
        r@ == trim_left(s@, set),
{
    let mut k: usize = 0;
    while k < s.len() && set.has(s[k])
        invariant
            k <= s.len(),
            forall|i: int| 0 <= i < k ==> set.holds(s@[i]),
        decreases s.len() - k,
    {
        k = k + 1;
    }
    proof {
        lemma_trim_left(s@, set, k as int);
    }
    slice_subrange(s, k, s.len())
}

/// Drops the characters of the set from the end.
pub fn trim_end(s: &[char], set: Trim) -> (r: &[char])
    ensures
        r@ == trim_right(s@, set),
{
    let mut k: usize = s.len();
    while k > 0 && set.has(s[k - 1])
        invariant
            k <= s.len(),
            forall|i: int| k <= i < s.len() ==> set.holds(s@[i]),
        decreases k,
    {
        k = k - 1;
    }
    proof {
        lemma_trim_right(s@, set, k as int);
    }
    slice_subrange(s, 0, k)
}

/// Drops the characters of the set from both ends.
pub fn trim(s: &[char], set: Trim) -> (r: &[char])
    ensures
        r@ == trimmed(s@, set),
{
    trim_end(trim_start(s, set), set)
}

// ---------------------------------------------------------------------------
// ASCII case
// ---------------------------------------------------------------------------

/// `c`, or its lower-case form where it is one of `A` to `Z`.
pub open spec fn lower_char(c: char) -> char {
    if 'A' <= c <= 'Z' {
        (c as u32 + 32) as char
    } else {
        c
    }
}

/// `s` with each of `A` to `Z` lowered.
pub open spec fn lower_ascii(s: Seq<char>) -> Seq<char> {
    s.map_values(|c: char| lower_char(c))
}

/// Equality up to the case of ASCII letters.
pub open spec fn same_ignoring_case(a: Seq<char>, b: Seq<char>) -> bool {
    lower_ascii(a) == lower_ascii(b)
}

/// Lowers one ASCII letter.
pub fn to_lower_char(c: char) -> (r: char)
    ensures
        r == lower_char(c),
{
    if 'A' <= c && c <= 'Z' {
        let n: u8 = c as u8 + 32;
        n as char
    } else {
        c
    }
}

/// Lowers the ASCII letters of `s`.
pub fn to_lower_ascii(s: &[char]) -> (v: Vec<char>)
    ensures
        v@ == lower_ascii(s@),
{
    let mut v: Vec<char> = Vec::new();
    for i in 0..s.len()
        invariant
            v@ == lower_ascii(s@.take(i as int)),
    {
        v.push(to_lower_char(s[i]));
        assert(lower_ascii(s@.take(i as int + 1)) == lower_ascii(s@.take(i as int)).push(
            lower_char(s@[i as int]),
        ));
    }
    assert(s@.take(s@.len() as int) == s@);
    v
}

/// Whether two strings are equal up to the case of ASCII letters.
pub fn eq_ignore_ascii_case(a: &str, b: &str) -> (r: bool)
    ensures
        r == same_ignoring_case(a@, b@),
{
    let x = to_lower_ascii(chars_of(a).as_slice());
    let y = to_lower_ascii(chars_of(b).as_slice());
    chars_eq(x.as_slice(), y.as_slice())
}

/// A text that neither begins nor ends with a character of the set stays as it is.
pub proof fn lemma_trimmed_same(s: Seq<char>, set: Trim)
    requires
        s.len() > 0,
        !set.holds(s[0]),
        !set.holds(s.last()),
    ensures
        trimmed(s, set) == s,
{
}

/// A text begins with what was put in front of it and ends with what was put behind it, and
/// holds what stands between; what it begins or ends with can be taken off, and what it holds
/// stands between two texts.
pub proof fn law_parts_are_found(a: Seq<char>, p: Seq<char>, b: Seq<char>)
    ensures
        has_prefix(p + b, p),
        has_suffix(a + p, p),
        contains_text(a + p + b, p),
        has_prefix(a, p) ==> a == p + a.skip(p.len() as int),
        has_suffix(a, p) ==> a == a.take(a.len() - p.len()) + p,
        contains_text(a, p) ==> exists|i: int|
            0 <= i <= a.len() - p.len() && a == a.take(i) + p + #[trigger] a.skip(i + p.len()),
{
    assert((p + b).take(p.len() as int) =~= p);
    assert((a + p).skip((a + p).len() - p.len()) =~= p);
    let s = a + p + b;
    assert(s.subrange(a.len() as int, (a.len() + p.len()) as int) =~= p);
    assert(occurs_at(s, p, a.len() as int));
    if has_prefix(a, p) {
        assert(a =~= a.take(p.len() as int) + a.skip(p.len() as int));
    }
    if has_suffix(a, p) {
        assert(a =~= a.take(a.len() - p.len()) + a.skip(a.len() - p.len()));
    }
    if contains_text(a, p) {
        let i = choose|i: int| occurs_at(a, p, i);
        assert(a =~= a.take(i) + a.subrange(i, i + p.len()) + a.skip(i + p.len()));
        assert(a == a.take(i) + p + a.skip(i + p.len()));
    }
}

/// A text is cut at the first separator; a text without one is not cut, and stands before it
/// whole.
pub proof fn law_text_is_cut_at_the_first(a: Seq<char>, sep: char, b: Seq<char>)
    requires
        forall|i: int| 0 <= i < a.len() ==> a[i] != sep,
    ensures
        cut(a + seq![sep] + b, sep) == Some((a, b)),
        before(a + seq![sep] + b, sep) == a,
        cut(a, sep) is None,
        before(a, sep) == a,
{
    let s = a + seq![sep] + b;
    lemma_first_of_unique(s, sep, a.len() as int);
    lemma_first_of_unique(a, sep, a.len() as int);
    assert(s.take(a.len() as int) =~= a);
    assert(s.skip(a.len() as int + 1) =~= b);
    assert(a.take(a.len() as int) =~= a);
}

/// The pieces of a text are those of what stands before a separator and those of what stands
/// behind it; a text without a separator is one piece.
pub proof fn law_pieces_of_parts(a: Seq<char>, sep: char, b: Seq<char>)
    ensures
        pieces(a + seq![sep] + b, sep) == pieces(a, sep) + pieces(b, sep),
        (forall|i: int| 0 <= i < a.len() ==> a[i] != sep) ==> pieces(a, sep) == seq![a],
    decreases a.len(),
{
    let s = a + seq![sep] + b;
    let k = first_of(a, sep);
    lemma_first_of(a, sep);
    if k < a.len() {
        assert(a[k] == sep);
        assert forall|i: int| 0 <= i < k implies s[i] != sep by {
            assert(s[i] == a[i]);
        }
        assert(s[k] == a[k]);
        lemma_first_of_unique(s, sep, k);
        law_pieces_of_parts(a.skip(k + 1), sep, b);
        assert(s.take(k) =~= a.take(k));
        assert(s.skip(k + 1) =~= a.skip(k + 1) + seq![sep] + b);
        assert(pieces(s, sep) =~= pieces(a, sep) + pieces(b, sep));
    } else {
        assert forall|i: int| 0 <= i < k implies s[i] != sep by {
            assert(s[i] == a[i]);
        }
        lemma_first_of_unique(s, sep, a.len() as int);
        assert(s.take(k) =~= a);
        assert(s.skip(k + 1) =~= b);
    }
}

/// The pieces of a text, joined by the separator, are the text again, and none of them holds
/// the separator.
pub proof fn law_pieces_joined(s: Seq<char>, sep: char)
    ensures
        joined(pieces(s, sep), seq![sep]) == s,
        pieces(s, sep).len() > 0,
        forall|i: int, j: int|
            0 <= i < pieces(s, sep).len() && 0 <= j < pieces(s, sep)[i].len()
                ==> #[trigger] pieces(s, sep)[i][j] != sep,
    decreases s.len(),
{
    let k = first_of(s, sep);
    lemma_first_of(s, sep);
    if k < s.len() {
        let rest = pieces(s.skip(k + 1), sep);
        law_pieces_joined(s.skip(k + 1), sep);
        law_joined_parts(seq![s.take(k)], rest, seq![sep]);
        assert(s.take(k) + seq![sep] + s.skip(k + 1) =~= s);
        assert forall|i: int, j: int|
            0 <= i < pieces(s, sep).len() && 0 <= j < pieces(s, sep)[i].len() implies #[trigger] pieces(
            s,
            sep,
        )[i][j] != sep by {
            if i > 0 {
                assert(pieces(s, sep)[i] == rest[i - 1]);
                assert(rest[i - 1][j] != sep);
            }
        }
    }
}

/// Two lists of texts are joined as the whole list is, with the separator between them; a
/// single text is joined as it is, and none is nothing.
pub proof fn law_joined_parts(a: Seq<Seq<char>>, b: Seq<Seq<char>>, sep: Seq<char>)
    ensures
        a.len() > 0 && b.len() > 0 ==> joined(a + b, sep) == joined(a, sep) + sep + joined(b, sep),
        a.len() == 1 ==> joined(a, sep) == a[0],
        a.len() == 0 ==> joined(a, sep).len() == 0,
    decreases b.len(),
{
    if a.len() > 0 && b.len() > 0 {
        assert((a + b).drop_last() =~= a + b.drop_last());
        assert((a + b).last() == b.last());
        if b.len() == 1 {
            assert(a + b.drop_last() =~= a);
        } else {
            law_joined_parts(a, b.drop_last(), sep);
            assert(joined(a + b, sep) =~= joined(a, sep) + sep + joined(b, sep));
        }
    }
}

/// Trimming takes characters of the set off both ends, all of them and no others: what is
/// left is a part of the text with such characters before and behind it, and neither begins
/// nor ends with one.
pub proof fn law_trimming(s: Seq<char>, set: Trim)
    ensures
        exists|i: int, j: int|
            #![trigger s.subrange(i, j)]
            0 <= i <= j <= s.len() && trimmed(s, set) == s.subrange(i, j) && (forall|k: int|
                0 <= k < i || j <= k < s.len() ==> set.holds(#[trigger] s[k])),
        exists|i: int|
            0 <= i <= s.len() && trim_left(s, set) == #[trigger] s.skip(i) && (forall|k: int|
                0 <= k < i ==> set.holds(#[trigger] s[k])),
        exists|j: int|
            0 <= j <= s.len() && trim_right(s, set) == #[trigger] s.take(j) && (forall|k: int|
                j <= k < s.len() ==> set.holds(#[trigger] s[k])),
        trimmed(s, set).len() > 0 ==> !set.holds(trimmed(s, set)[0]) && !set.holds(
            trimmed(s, set).last(),
        ),
        trim_left(s, set).len() > 0 ==> !set.holds(trim_left(s, set)[0]),
        trim_right(s, set).len() > 0 ==> !set.holds(trim_right(s, set).last()),
{
    lemma_left_cut(s, set);
    lemma_right_cut(s, set);
    let t = trim_left(s, set);
    let i = choose|i: int|
        0 <= i <= s.len() && trim_left(s, set) == #[trigger] s.skip(i) && (forall|k: int|
            0 <= k < i ==> set.holds(#[trigger] s[k]));
    lemma_right_cut(t, set);
    let j = choose|j: int|
        0 <= j <= t.len() && trim_right(t, set) == #[trigger] t.take(j) && (forall|k: int|
            j <= k < t.len() ==> set.holds(#[trigger] t[k]));
    assert(trimmed(s, set) =~= s.subrange(i, i + j));
    assert forall|k: int| 0 <= k < i || i + j <= k < s.len() implies set.holds(#[trigger] s[k]) by {
        if k >= i + j {
            assert(t[k - i] == s[k]);
        }
    }
    if trimmed(s, set).len() > 0 {
        assert(trimmed(s, set)[0] == t[0]);
    }
}

proof fn lemma_left_cut(s: Seq<char>, set: Trim)
    ensures
        exists|i: int|
            0 <= i <= s.len() && trim_left(s, set) == #[trigger] s.skip(i) && (forall|k: int|
                0 <= k < i ==> set.holds(#[trigger] s[k])),
        trim_left(s, set).len() > 0 ==> !set.holds(trim_left(s, set)[0]),
    decreases s.len(),
{
    if s.len() > 0 && set.holds(s[0]) {
        let t = s.drop_first();
        lemma_left_cut(t, set);
        let i = choose|i: int|
            0 <= i <= t.len() && trim_left(t, set) == #[trigger] t.skip(i) && (forall|k: int|
                0 <= k < i ==> set.holds(#[trigger] t[k]));
        assert(t.skip(i) =~= s.skip(i + 1));
        assert forall|k: int| 0 <= k < i + 1 implies set.holds(#[trigger] s[k]) by {
            if k > 0 {
                assert(t[k - 1] == s[k]);
            }
        }
    } else {
        assert(s.skip(0) =~= s);
    }
}

proof fn lemma_right_cut(s: Seq<char>, set: Trim)
    ensures
        exists|j: int|
            0 <= j <= s.len() && trim_right(s, set) == #[trigger] s.take(j) && (forall|k: int|
                j <= k < s.len() ==> set.holds(#[trigger] s[k])),
        trim_right(s, set).len() > 0 ==> !set.holds(trim_right(s, set).last()),
    decreases s.len(),
{
    if s.len() > 0 && set.holds(s.last()) {
        let t = s.drop_last();
        lemma_right_cut(t, set);
        let j = choose|j: int|
            0 <= j <= t.len() && trim_right(t, set) == #[trigger] t.take(j) && (forall|k: int|
                j <= k < t.len() ==> set.holds(#[trigger] t[k]));
        assert(t.take(j) =~= s.take(j));
        assert forall|k: int| j <= k < s.len() implies set.holds(#[trigger] s[k]) by {
            if k < t.len() {
                assert(t[k] == s[k]);
            }
        }
    } else {
        assert(s.take(s.len() as int) =~= s);
    }
}

/// What is put around a text comes off again: characters of the set before and behind it are
/// taken off, and the text is left.
pub proof fn law_trimming_undoes_padding(a: Seq<char>, s: Seq<char>, b: Seq<char>, set: Trim)
    requires
        s.len() > 0,
        !set.holds(s[0]),
        !set.holds(s.last()),
        forall|i: int| 0 <= i < a.len() ==> set.holds(#[trigger] a[i]),
        forall|i: int| 0 <= i < b.len() ==> set.holds(#[trigger] b[i]),
    ensures
        trimmed(a + s + b, set) == s,
        trim_left(a + s, set) == s,
        trim_right(s + b, set) == s,
        trimmed(a, set).len() == 0,
{
    let all = a + s + b;
    assert(all[a.len() as int] == s[0]);
    assert forall|i: int| 0 <= i < a.len() implies set.holds(all[i]) by {
        assert(all[i] == a[i]);
    }
    lemma_trim_left(all, set, a.len() as int);
    assert(all.skip(a.len() as int) =~= s + b);
    let sb = s + b;
    assert(sb[s.len() - 1] == s.last());
    assert forall|i: int| s.len() <= i < sb.len() implies set.holds(sb[i]) by {
        assert(sb[i] == b[i - s.len()]);
    }
    lemma_trim_right(sb, set, s.len() as int);
    assert(sb.take(s.len() as int) =~= s);
    let sa = a + s;
    assert(sa[a.len() as int] == s[0]);
    assert forall|i: int| 0 <= i < a.len() implies set.holds(sa[i]) by {
        assert(sa[i] == a[i]);
    }
    lemma_trim_left(sa, set, a.len() as int);
    assert(sa.skip(a.len() as int) =~= s);
    lemma_trim_left(a, set, a.len() as int);
    assert(a.skip(a.len() as int) =~= Seq::<char>::empty());
}

/// White space is what separates words on a line or lines from each other; no printable ASCII
/// character but the space is. The other sets hold the slash alone and the line ends alone.
pub proof fn law_trimmed_characters(c: char)
    ensures
        c == ' ' || c == '\t' || c == '\n' || c == '\r' ==> Trim::Space.holds(c),
        '!' <= c <= '~' ==> !Trim::Space.holds(c),
        Trim::Slash.holds(c) <==> c == '/',
        Trim::LineEnd.holds(c) <==> c == '\r' || c == '\n',
{
}

/// Lowering turns each of the 26 capital letters into the small letter at its place in the
/// alphabet and leaves every other character; texts are the same up to case exactly where
/// they are of one length and each two characters are.
pub proof fn law_case_of_letters(c: char, place: int, a: Seq<char>, b: Seq<char>)
    ensures
        0 <= place < 26 ==> lower_char((65 + place) as char) == (97 + place) as char,
        !(65 <= c as u32 <= 90) ==> lower_char(c) == c,
        lower_ascii(a).len() == a.len(),
        forall|i: int| 0 <= i < a.len() ==> #[trigger] lower_ascii(a)[i] == lower_char(a[i]),
        lower_ascii(a + b) == lower_ascii(a) + lower_ascii(b),
        lower_ascii(lower_ascii(a)) == lower_ascii(a),
        same_ignoring_case(a, b) <==> a.len() == b.len() && forall|i: int|
            0 <= i < a.len() ==> #[trigger] lower_char(a[i]) == lower_char(b[i]),
{
    assert(lower_ascii(a + b) =~= lower_ascii(a) + lower_ascii(b));
    assert(lower_ascii(lower_ascii(a)) =~= lower_ascii(a));
    if a.len() == b.len() && (forall|i: int|
        0 <= i < a.len() ==> #[trigger] lower_char(a[i]) == lower_char(b[i])) {
        assert(lower_ascii(a) =~= lower_ascii(b));
    }
    if same_ignoring_case(a, b) {
        assert(lower_ascii(a).len() == a.len() && lower_ascii(b).len() == b.len());
        assert forall|i: int| 0 <= i < a.len() implies #[trigger] lower_char(a[i]) == lower_char(
            b[i],
        ) by {
            assert(lower_ascii(a)[i] == lower_char(a[i]));
            assert(lower_ascii(b)[i] == lower_char(b[i]));
        }
    }
}

/// The views of texts are theirs, one for one.
pub proof fn law_texts_are_viewed(v: Seq<String>, s: Option<String>)
    ensures
        texts(v).len() == v.len(),
        forall|i: int| 0 <= i < v.len() ==> #[trigger] texts(v)[i] == v[i]@,
        maybe(s) is Some == s is Some,
        s matches Some(t) ==> maybe(s) == Some(t@),
{
}

} // verus!
