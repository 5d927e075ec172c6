//! Request targets: percent-encoding and the query string.

use indexmap::IndexMap;
use vstd::prelude::*;
use vstd::slice::slice_subrange;
use vstd::utf8::*;

use crate::outside;
use crate::text;

verus! {

/// The value of a hexadecimal digit.
pub open spec fn nibble(b: u8) -> Option<u8> {
    if 48 <= b <= 57 {
        Some((b - 48) as u8)
    } else if 97 <= b <= 102 {
        Some((b - 97 + 10) as u8)
    } else if 65 <= b <= 70 {
        Some((b - 65 + 10) as u8)
    } else {
        None
    }
}

/// The bytes with each `%XX` replaced by the byte that it names. A `%` that two
/// hexadecimal digits do not follow stands for itself.
pub open spec fn percent_decoded(b: Seq<u8>) -> Seq<u8>
    decreases b.len(),
{
    if b.len() == 0 {
        seq![]
    } else if b[0] == 37 && b.len() > 2 && nibble(b[1]) is Some && nibble(b[2]) is Some {
        seq![(nibble(b[1])->0 * 16 + nibble(b[2])->0) as u8] + percent_decoded(b.skip(3))
    } else {
        seq![b[0]] + percent_decoded(b.skip(1))
    }
}

/// A text with its percent-encoding undone, read as UTF-8.
pub open spec fn unquoted(s: Seq<char>) -> Seq<char> {
    outside::utf8_lossy(percent_decoded(encode_utf8(s)))
}

/// The value of a hexadecimal digit.
pub fn hex_val(b: u8) -> (r: Option<u8>)
    ensures
        r == nibble(b),
{
    if 48 <= b && b <= 57 {
        Some(b - 48)
    } else if 97 <= b && b <= 102 {
        Some(b - 97 + 10)
    } else if 65 <= b && b <= 70 {
        Some(b - 65 + 10)
    } else {
        None
    }
}

/// Undoes percent-encoding on bytes.
pub fn percent_decode(bytes: &[u8]) -> (out: Vec<u8>)
    ensures
        out@ == percent_decoded(bytes@),
{
    let mut out: Vec<u8> = Vec::new();
    let mut i: usize = 0;
    assert(bytes@.skip(0) == bytes@);
    while i < bytes.len()
        invariant
            i <= bytes.len(),
            out@ + percent_decoded(bytes@.skip(i as int)) == percent_decoded(bytes@),
        decreases bytes.len() - i,
    {
        let ghost rest = bytes@.skip(i as int);
        let ghost done = out@;
        if bytes[i] == 37 && bytes.len() - i > 2 {
            if let (Some(h), Some(l)) = (hex_val(bytes[i + 1]), hex_val(bytes[i + 2])) {
                assert(rest[1] == bytes@[i + 1] && rest[2] == bytes@[i + 2]);
                let b: u8 = h * 16 + l;
                out.push(b);
                assert(rest.skip(3) == bytes@.skip(i + 3));
                assert(done + (seq![b] + percent_decoded(rest.skip(3))) == out@ + percent_decoded(
                    rest.skip(3),
                ));
                i = i + 3;
                continue;
            }
            assert(rest[1] == bytes@[i + 1] && rest[2] == bytes@[i + 2]);
        }
        out.push(bytes[i]);
        assert(rest.skip(1) == bytes@.skip(i + 1));
        assert(done + (seq![rest[0]] + percent_decoded(rest.skip(1))) == out@ + percent_decoded(
            rest.skip(1),
        ));
        i = i + 1;
    }
    assert(percent_decoded(bytes@.skip(i as int)) == Seq::<u8>::empty());
    out
}

/// Undoes percent-encoding (`%XX`) and reads the bytes as UTF-8, with replacement
/// characters for what is not UTF-8. A `+` stays a `+`.
pub fn unquote(s: &str) -> (r: String)
    ensures
        r@ == unquoted(s@),
{
    let bytes = s.as_bytes();
    let out = percent_decode(bytes);
    outside::from_utf8_lossy(out.as_slice())
}

// ---------------------------------------------------------------------------
// Query strings
// ---------------------------------------------------------------------------

/// `s` with each `+` turned into a space.
pub open spec fn spaced(s: Seq<char>) -> Seq<char> {
    s.map_values(|c: char| if c == '+' { ' ' } else { c })
}

/// The key and the value of one `key=value` pair; the value is empty where there is no `=`.
pub open spec fn pair_of(pair: Seq<char>) -> (Seq<char>, Seq<char>) {
    match text::cut(pair, '=') {
        Some((k, v)) => (unquoted(spaced(k)), unquoted(spaced(v))),
        None => (unquoted(spaced(pair)), unquoted(spaced(seq![]))),
    }
}

/// The entries after one more pair: pairs that are empty or whose key is empty are passed
/// over, and a repeated key gets the later value.
pub open spec fn with_pair(e: Seq<(Seq<char>, Seq<char>)>, pair: Seq<char>) -> Seq<
    (Seq<char>, Seq<char>),
> {
    let (k, v) = pair_of(pair);
    if pair.len() == 0 || k.len() == 0 {
        e
    } else {
        outside::put(e, k, v)
    }
}

/// The entries that a list of pairs gives.
pub open spec fn query_entries(pairs: Seq<Seq<char>>) -> Seq<(Seq<char>, Seq<char>)>
    decreases pairs.len(),
{
    if pairs.len() == 0 {
        seq![]
    } else {
        with_pair(query_entries(pairs.drop_last()), pairs.last())
    }
}

/// The path and the query of a request target. The fragment, from the first `#` on, belongs
/// to neither; the query stands behind the first `?` before it.
pub open spec fn target_parts(raw: Seq<char>) -> (Seq<char>, Seq<char>) {
    let whole = text::before(raw, '#');
    match text::cut(whole, '?') {
        Some((p, q)) => (p, q),
        None => (whole, seq![]),
    }
}

/// The path of a request target.
pub open spec fn target_path(raw: Seq<char>) -> Seq<char> {
    target_parts(raw).0
}

/// The query entries of a request target.
pub open spec fn target_query(raw: Seq<char>) -> Seq<(Seq<char>, Seq<char>)> {
    query_entries(text::pieces(target_parts(raw).1, '&'))
}

fn plus_to_space(s: &[char]) -> (r: String)
    ensures
        r@ == spaced(s@),
{
    let mut r = String::new();
    for i in 0..s.len()
        invariant
            r@ == spaced(s@.take(i as int)),
    {
        let c = if s[i] == '+' {
            ' '
        } else {
            s[i]
        };
        r.push(c);
        assert(spaced(s@.take(i as int + 1)) == spaced(s@.take(i as int)).push(c));
    }
    assert(s@.take(s@.len() as int) == s@);
    r
}

/// Splits a request target into its path and its query, without the fragment. A key that
/// occurs more than once has the value of its last occurrence.
pub fn parse_path_query(raw: &str) -> (r: (String, IndexMap<String, String>))
    ensures
        r.0@ == target_path(raw@),
        outside::entries(r.1) == target_query(raw@),
{
    let cs = text::chars_of(raw);
    let h = text::find_char(cs.as_slice(), '#');
    let whole = slice_subrange(cs.as_slice(), 0, h);
    assert(whole@ == text::before(raw@, '#'));
    let q = text::find_char(whole, '?');
    let path_part = slice_subrange(whole, 0, q);
    let query_part = if q < whole.len() {
        slice_subrange(whole, q + 1, whole.len())
    } else {
        slice_subrange(whole, q, q)
    };
    proof {
        assert(path_part@ == target_parts(raw@).0);
        assert(query_part@ == target_parts(raw@).1);
    }
    let path = text::string_of(path_part);
    let pairs = text::split(query_part, '&');
    let ghost all = text::rows(pairs@);
    let mut query = outside::map_new();
    for i in 0..pairs.len()
        invariant
            all == text::rows(pairs@),
            outside::entries(query) == query_entries(all.take(i as int)),
    {
        let pair = pairs[i].as_slice();
        assert(all.take(i as int + 1).drop_last() == all.take(i as int));
        assert(all.take(i as int + 1).last() == pair@);
        if pair.len() > 0 {
            let k = text::find_char(pair, '=');
            let key_part = slice_subrange(pair, 0, k);
            let value_part = if k < pair.len() {
                slice_subrange(pair, k + 1, pair.len())
            } else {
                slice_subrange(pair, k, k)
            };
            assert(k < pair.len() ==> key_part@ == pair@.take(k as int) && value_part@ == pair@.skip(
                k + 1,
            ));
            assert(k == pair.len() ==> key_part@ == pair@ && value_part@ == Seq::<char>::empty());
            let key = unquote(plus_to_space(key_part).as_str());
            if !key.as_str().is_empty() {
                let value = unquote(plus_to_space(value_part).as_str());
                outside::map_insert(&mut query, key, value);
            }
        }
    }
    assert(all.take(pairs@.len() as int) == all);
    (path, query)
}

// ---------------------------------------------------------------------------
// Laws
// ---------------------------------------------------------------------------

proof fn lemma_no_percent(b: Seq<u8>)
    requires
        valid_utf8(b),
        forall|i: int| 0 <= i < decode_utf8(b).len() ==> #[trigger] decode_utf8(b)[i] != '%',
    ensures
        forall|i: int| 0 <= i < b.len() ==> #[trigger] b[i] != 37,
    decreases b.len(),
{
    if b.len() > 0 {
        let rest = pop_first_scalar(b);
        let n = length_of_first_scalar(b);
        let first = decode_first_scalar(b) as char;
        assert(decode_utf8(b) == seq![first] + decode_utf8(rest));
        assert(decode_utf8(b)[0] == first);
        assert forall|i: int| 0 <= i < decode_utf8(rest).len() implies #[trigger] decode_utf8(rest)[i]
            != '%' by {
            assert(decode_utf8(b)[i + 1] == decode_utf8(rest)[i]);
        }
        lemma_no_percent(rest);
        assert forall|i: int| 0 <= i < b.len() implies #[trigger] b[i] != 37 by {
            if i >= n {
                assert(b[i] == rest[i - n]);
            } else if n == 1 {
                let x = b[0];
                assert((x & 0x7f) as u32 == x as u32) by (bit_vector)
                    requires
                        x <= 0x7f,
                ;
            }
        }
    }
}

proof fn lemma_plain_prefix(p: Seq<u8>, rest: Seq<u8>)
    requires
        forall|i: int| 0 <= i < p.len() ==> #[trigger] p[i] != 37,
    ensures
        percent_decoded(p + rest) == p + percent_decoded(rest),
    decreases p.len(),
{
    if p.len() > 0 {
        let all = p + rest;
        let q = p.skip(1);
        assert forall|i: int| 0 <= i < q.len() implies #[trigger] q[i] != 37 by {
            assert(q[i] == p[i + 1]);
        }
        lemma_plain_prefix(q, rest);
        assert(all[0] == p[0]);
        assert(all.skip(1) =~= q + rest);
        assert(seq![p[0]] + (q + percent_decoded(rest)) =~= p + percent_decoded(rest));
    } else {
        assert(p + rest =~= rest);
        assert(p + percent_decoded(rest) =~= percent_decoded(rest));
    }
}

proof fn lemma_encode_concat(a: Seq<char>, b: Seq<char>)
    ensures
        encode_utf8(a + b) == encode_utf8(a) + encode_utf8(b),
    decreases a.len(),
{
    if a.len() == 0 {
        assert(a + b =~= b);
        assert(encode_utf8(a) + encode_utf8(b) =~= encode_utf8(b));
    } else {
        assert((a + b).drop_first() =~= a.drop_first() + b);
        lemma_encode_concat(a.drop_first(), b);
        let first = encode_scalar(a[0] as u32);
        assert(encode_utf8(a + b) == first + (encode_utf8(a.drop_first()) + encode_utf8(b)));
        assert(first + (encode_utf8(a.drop_first()) + encode_utf8(b)) =~= encode_utf8(a)
            + encode_utf8(b));
    }
}

/// The byte that an escape `%XX` names.
pub open spec fn escaped_byte(e: Seq<char>) -> Option<u8> {
    if e.len() == 3 && e[0] == '%' && (e[1] as u32) < 128 && (e[2] as u32) < 128 {
        match (nibble(e[1] as u8), nibble(e[2] as u8)) {
            (Some(h), Some(l)) => Some((h * 16 + l) as u8),
            _ => None,
        }
    } else {
        None
    }
}

/// `e` writes every one of these bytes as an escape, with hexadecimal digits in either case.
pub open spec fn escapes(e: Seq<char>, b: Seq<u8>) -> bool
    decreases b.len(),
{
    if b.len() == 0 {
        e.len() == 0
    } else {
        e.len() >= 3 && escaped_byte(e.take(3)) == Some(b[0]) && escapes(e.skip(3), b.skip(1))
    }
}

proof fn lemma_low_char(c: char)
    requires
        (c as u32) < 128,
    ensures
        '\0' <= c <= '\u{7f}',
{
}

proof fn lemma_escapes_decode(e: Seq<char>, b: Seq<u8>, rest: Seq<u8>)
    requires
        escapes(e, b),
    ensures
        percent_decoded(encode_utf8(e) + rest) == b + percent_decoded(rest),
    decreases b.len(),
{
    if b.len() == 0 {
        assert(e =~= Seq::<char>::empty());
        assert(encode_utf8(e) + rest =~= rest);
        assert(b + percent_decoded(rest) =~= percent_decoded(rest));
    } else {
        let first = e.take(3);
        let tail = e.skip(3);
        assert(first[0] == e[0] && first[1] == e[1] && first[2] == e[2]);
        assert(e =~= first + tail);
        lemma_encode_concat(first, tail);
        assert(first[0] == '%' && (first[1] as u32) < 128 && (first[2] as u32) < 128) by {
            assert(escaped_byte(first) is Some);
        }
        assert(is_ascii_chars(first)) by {
            assert forall|i: int| 0 <= i < first.len() implies '\0' <= #[trigger] first[i] <= '\u{7f}' by {
                lemma_low_char(first[1]);
                lemma_low_char(first[2]);
                if i != 0 && i != 1 {
                    assert(i == 2);
                }
            }
        }
        is_ascii_chars_encode_utf8(first);
        let code = encode_utf8(first);
        assert(code.len() == 3);
        assert(code[0] == first[0] as u8 && code[1] == first[1] as u8 && code[2] == first[2] as u8);
        let all = encode_utf8(e) + rest;
        assert(all[0] == 37 && all[1] == code[1] && all[2] == code[2]);
        assert(all.skip(3) =~= encode_utf8(tail) + rest);
        lemma_escapes_decode(tail, b.skip(1), rest);
        assert(seq![b[0]] + (b.skip(1) + percent_decoded(rest)) =~= b + percent_decoded(rest));
    }
}

/// Text without a percent sign stays as it is, and behind it a text whose every byte in UTF-8
/// is written as an escape is read back, whatever follows.
pub proof fn law_escaped_text_is_read_back(
    plain: Seq<char>,
    e: Seq<char>,
    s: Seq<char>,
    rest: Seq<char>,
)
    requires
        forall|i: int| 0 <= i < plain.len() ==> #[trigger] plain[i] != '%',
        escapes(e, encode_utf8(s)),
    ensures
        unquoted(plain + e + rest) == plain + s + unquoted(rest),
{
    let p = encode_utf8(plain);
    encode_utf8_valid_utf8(plain);
    encode_utf8_decode_utf8(plain);
    lemma_no_percent(p);
    lemma_encode_concat(plain + e, rest);
    lemma_encode_concat(plain, e);
    let tail = encode_utf8(rest);
    assert(encode_utf8(plain + e + rest) =~= p + (encode_utf8(e) + tail));
    lemma_plain_prefix(p, encode_utf8(e) + tail);
    lemma_escapes_decode(e, encode_utf8(s), tail);
    lemma_encode_concat(plain, s);
    let decoded = percent_decoded(tail);
    assert(p + (encode_utf8(s) + decoded) =~= encode_utf8(plain + s) + decoded);
    outside::lemma_lossy_prefix(plain + s, decoded);
}

/// A text without a percent sign stands for itself.
pub proof fn law_plain_text_is_kept(s: Seq<char>)
    requires
        forall|i: int| 0 <= i < s.len() ==> #[trigger] s[i] != '%',
    ensures
        unquoted(s) == s,
{
    law_escaped_text_is_read_back(s, seq![], seq![], seq![]);
    assert(s + Seq::<char>::empty() + Seq::<char>::empty() =~= s);
    assert(unquoted(seq![]) =~= Seq::<char>::empty());
}

/// A fragment belongs neither to the path nor to the query.
pub proof fn law_fragment_is_left_out(target: Seq<char>, fragment: Seq<char>)
    requires
        forall|i: int| 0 <= i < target.len() ==> #[trigger] target[i] != '#',
    ensures
        target_path(target + seq!['#'] + fragment) == target_path(target),
        target_query(target + seq!['#'] + fragment) == target_query(target),
{
    let all = target + seq!['#'] + fragment;
    assert forall|i: int| 0 <= i < target.len() implies all[i] != '#' by {
        assert(all[i] == target[i]);
    }
    assert(all[target.len() as int] == '#');
    text::lemma_first_of_unique(all, '#', target.len() as int);
    text::lemma_first_of_unique(target, '#', target.len() as int);
    assert(text::before(all, '#') =~= text::before(target, '#'));
}

/// Of several values for a key of a query the last one counts, and other keys keep theirs.
pub proof fn law_last_value_wins(pairs: Seq<Seq<char>>, pair: Seq<char>, other: Seq<char>)
    requires
        pair.len() > 0,
        pair_of(pair).0.len() > 0,
    ensures
        outside::lookup(query_entries(pairs.push(pair)), pair_of(pair).0) == Some(pair_of(pair).1),
        other != pair_of(pair).0 ==> outside::lookup(query_entries(pairs.push(pair)), other)
            == outside::lookup(query_entries(pairs), other),
{
    assert(pairs.push(pair).drop_last() =~= pairs);
    outside::law_put_then_lookup(query_entries(pairs), pair_of(pair).0, pair_of(pair).1, other);
}

/// The path of a target stands before the question mark, the query behind it; a target without
/// one has no query.
pub proof fn law_target_is_path_and_query(path: Seq<char>, query: Seq<char>)
    requires
        forall|i: int| 0 <= i < path.len() ==> #[trigger] path[i] != '?' && path[i] != '#',
        forall|i: int| 0 <= i < query.len() ==> #[trigger] query[i] != '#',
    ensures
        target_path(path + seq!['?'] + query) == path,
        target_query(path + seq!['?'] + query) == query_entries(text::pieces(query, '&')),
        target_path(path) == path,
        target_query(path).len() == 0,
{
    let raw = path + seq!['?'] + query;
    assert forall|i: int| 0 <= i < raw.len() implies raw[i] != '#' by {
        if i < path.len() {
            assert(raw[i] == path[i]);
        } else if i > path.len() {
            assert(raw[i] == query[i - path.len() - 1]);
        }
    }
    text::law_text_is_cut_at_the_first(raw, '#', seq![]);
    text::law_text_is_cut_at_the_first(path, '?', query);
    text::law_text_is_cut_at_the_first(path, '#', seq![]);
    text::law_pieces_of_parts(Seq::<char>::empty(), '&', seq![]);
    let none = Seq::<Seq<char>>::empty().push(Seq::<char>::empty());
    assert(seq![Seq::<char>::empty()] =~= none);
    assert(none.drop_last() =~= Seq::<Seq<char>>::empty());
    assert(query_entries(none) == with_pair(query_entries(none.drop_last()), none.last()));
}

/// A key and its value stand on either side of the first equals sign, with a space for each
/// plus; a pair without that sign is a key with an empty value. What has neither a plus nor an
/// escape stands for itself.
pub proof fn law_pairs_are_read(k: Seq<char>, v: Seq<char>)
    requires
        forall|i: int| 0 <= i < k.len() ==> #[trigger] k[i] != '=' && k[i] != '%',
        forall|i: int| 0 <= i < v.len() ==> #[trigger] v[i] != '%',
    ensures
        pair_of(k + seq!['='] + v) == (spaced(k), spaced(v)),
        pair_of(k) == (spaced(k), Seq::<char>::empty()),
        spaced(k).len() == k.len(),
        forall|i: int|
            0 <= i < k.len() ==> #[trigger] spaced(k)[i] == if k[i] == '+' {
                ' '
            } else {
                k[i]
            },
        (forall|i: int| 0 <= i < v.len() ==> #[trigger] v[i] != '+') ==> spaced(v) == v,
{
    text::law_text_is_cut_at_the_first(k, '=', v);
    let none = Seq::<char>::empty();
    assert(spaced(none) =~= none);
    assert forall|i: int| 0 <= i < spaced(k).len() implies #[trigger] spaced(k)[i] != '%' by {
        assert(k[i] != '%');
    }
    assert forall|i: int| 0 <= i < spaced(v).len() implies #[trigger] spaced(v)[i] != '%' by {
        assert(v[i] != '%');
    }
    law_plain_text_is_kept(spaced(k));
    law_plain_text_is_kept(spaced(v));
    law_plain_text_is_kept(none);
    if forall|i: int| 0 <= i < v.len() ==> #[trigger] v[i] != '+' {
        assert(spaced(v) =~= v);
    }
}

/// Escapes in a key and in a value are undone, each on its own: an escaped sign does not
/// divide them.
pub proof fn law_escapes_in_pairs_are_undone(
    k: Seq<char>,
    ek: Seq<char>,
    v: Seq<char>,
    ev: Seq<char>,
)
    requires
        escapes(ek, encode_utf8(k)),
        escapes(ev, encode_utf8(v)),
        forall|i: int| 0 <= i < ek.len() ==> #[trigger] ek[i] != '=' && ek[i] != '+',
        forall|i: int| 0 <= i < ev.len() ==> #[trigger] ev[i] != '+',
    ensures
        pair_of(ek + seq!['='] + ev) == (k, v),
{
    text::law_text_is_cut_at_the_first(ek, '=', ev);
    let none = Seq::<char>::empty();
    assert(spaced(ek) =~= ek);
    assert(spaced(ev) =~= ev);
    law_escaped_text_is_read_back(none, ek, k, none);
    law_escaped_text_is_read_back(none, ev, v, none);
    law_plain_text_is_kept(none);
    assert(none + ek + none =~= ek);
    assert(none + ev + none =~= ev);
    assert(none + k + none =~= k);
    assert(none + v + none =~= v);
}

/// A query of one pair after another has the entries of the first ones and then that of the
/// last; an empty pair, and one without a key, adds nothing.
pub proof fn law_empty_pairs_are_passed_over(pairs: Seq<Seq<char>>, pair: Seq<char>)
    ensures
        query_entries(seq![]).len() == 0,
        pair.len() == 0 || pair_of(pair).0.len() == 0 ==> query_entries(pairs.push(pair))
            == query_entries(pairs),
        pair.len() > 0 && pair_of(pair).0.len() > 0 ==> query_entries(pairs.push(pair))
            == outside::put(query_entries(pairs), pair_of(pair).0, pair_of(pair).1),
{
    assert(pairs.push(pair).drop_last() =~= pairs);
}

/// The hexadecimal digits of an escape are `0` to `9` and the first six letters, in either
/// case; no other byte is one.
pub proof fn law_hexadecimal_digits(d: u8, b: u8)
    ensures
        d < 10 ==> nibble((48 + d) as u8) == Some(d),
        10 <= d < 16 ==> nibble((97 + d - 10) as u8) == Some(d) && nibble((65 + d - 10) as u8)
            == Some(d),
        b < 48 || 57 < b < 65 || 70 < b < 97 || 102 < b ==> nibble(b) is None,
{
}

/// A percent sign that two hexadecimal digits follow stands for the byte of their value, any
/// other byte for itself.
pub proof fn law_percent_signs(b: u8, h: u8, l: u8, rest: Seq<u8>)
    ensures
        h < 10 && l < 10 ==> percent_decoded(seq![37u8, (48 + h) as u8, (48 + l) as u8] + rest)
            == seq![(h * 16 + l) as u8] + percent_decoded(rest),
        b != 37 ==> percent_decoded(seq![b] + rest) == seq![b] + percent_decoded(rest),
        rest.len() > 0 && nibble(rest[0]) is None ==> percent_decoded(seq![37u8] + rest) == seq![
            37u8,
        ] + percent_decoded(rest),
        percent_decoded(seq![]).len() == 0,
{
    let s = seq![37u8, (48 + h) as u8, (48 + l) as u8] + rest;
    if h < 10 && l < 10 {
        assert(s[0] == 37 && s[1] == 48 + h && s[2] == 48 + l);
        assert(s.skip(3) =~= rest);
    }
    let t = seq![b] + rest;
    assert(t[0] == b);
    assert(t.skip(1) =~= rest);
    let u = seq![37u8] + rest;
    if rest.len() > 0 {
        assert(u[1] == rest[0]);
    }
    assert(u.skip(1) =~= rest);
}

} // verus!
