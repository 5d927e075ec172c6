//! JSON output, byte for byte in the form of Python's `json.dumps` with its default
//! settings: `", "` and `": "` as separators, everything outside ASCII escaped, the keys of
//! an object in the order in which they were put there.

use vstd::prelude::*;

use crate::numeral;
use crate::text;

verus! {

/// A floating-point number as far as it is read here: the text in which it is printed and
/// its integer part, or that it is not finite.
#[derive(Debug)]
pub enum Float {
    Nan,
    Infinity,
    NegInfinity,
    Finite { repr: String, whole: i64 },
}

/// A JSON document to be written out.
#[derive(Debug)]
pub enum Json {
    Null,
    Bool(bool),
    Int(i64),
    Float(Float),
    /// An integer of any size, as its digits.
    BigInt(String),
    Str(String),
    Array(Vec<Json>),
    Object(Vec<(String, Json)>),
}

/// The mathematical content of a document.
pub enum JsonTree {
    Null,
    Bool(bool),
    Int(int),
    Float(Seq<char>),
    BigInt(Seq<char>),
    Str(Seq<char>),
    Array(Seq<JsonTree>),
    Object(Seq<(Seq<char>, JsonTree)>),
}

/// The text in which a floating-point number is written.
pub open spec fn float_text(f: Float) -> Seq<char> {
    match f {
        Float::Nan => "NaN"@,
        Float::Infinity => "Infinity"@,
        Float::NegInfinity => "-Infinity"@,
        Float::Finite { repr, .. } => repr@,
    }
}

/// The contents of the first `n` elements.
pub open spec fn array_trees(v: Seq<Json>, n: nat) -> Seq<JsonTree>
    decreases v, n,
{
    if n == 0 || n > v.len() {
        seq![]
    } else {
        array_trees(v, (n - 1) as nat).push(v[n - 1].tree())
    }
}

/// The contents of the first `n` members.
pub open spec fn object_trees(v: Seq<(String, Json)>, n: nat) -> Seq<(Seq<char>, JsonTree)>
    decreases v, n,
{
    if n == 0 || n > v.len() {
        seq![]
    } else {
        object_trees(v, (n - 1) as nat).push((v[n - 1].0@, v[n - 1].1.tree()))
    }
}

impl Json {
    /// The content of this document.
    pub open spec fn tree(&self) -> JsonTree
        decreases self, 0nat,
    {
        match *self {
            Json::Null => JsonTree::Null,
            Json::Bool(b) => JsonTree::Bool(b),
            Json::Int(i) => JsonTree::Int(i as int),
            Json::Float(f) => JsonTree::Float(float_text(f)),
            Json::BigInt(s) => JsonTree::BigInt(s@),
            Json::Str(s) => JsonTree::Str(s@),
            Json::Array(v) => JsonTree::Array(array_trees(v@, v@.len())),
            Json::Object(v) => JsonTree::Object(object_trees(v@, v@.len())),
        }
    }
}

// ---------------------------------------------------------------------------
// Strings
// ---------------------------------------------------------------------------

/// The escape `\uXXXX` of a code unit.
pub open spec fn unicode_escape(n: int) -> Seq<char> {
    seq![
        '\\',
        'u',
        numeral::digit_char((n / 4096) % 16),
        numeral::digit_char((n / 256) % 16),
        numeral::digit_char((n / 16) % 16),
        numeral::digit_char(n % 16),
    ]
}

/// How one character is written inside a JSON string.
pub open spec fn escaped_char(c: char) -> Seq<char> {
    let n = c as u32;
    if c == '"' {
        seq!['\\', '"']
    } else if c == '\\' {
        seq!['\\', '\\']
    } else if n == 0x08 {
        seq!['\\', 'b']
    } else if n == 0x09 {
        seq!['\\', 't']
    } else if n == 0x0a {
        seq!['\\', 'n']
    } else if n == 0x0c {
        seq!['\\', 'f']
    } else if n == 0x0d {
        seq!['\\', 'r']
    } else if 0x20 <= n && n < 0x7f {
        seq![c]
    } else if n <= 0xffff {
        unicode_escape(n as int)
    } else {
        unicode_escape(0xd800 + (n - 0x10000) / 1024) + unicode_escape(0xdc00 + (n - 0x10000) % 1024)
    }
}

/// The characters of `s`, each as it is written inside a JSON string.
pub open spec fn escaped_chars(s: Seq<char>) -> Seq<char>
    decreases s.len(),
{
    if s.len() == 0 {
        seq![]
    } else {
        escaped_chars(s.drop_last()) + escaped_char(s.last())
    }
}

/// A JSON string literal.
pub open spec fn quoted(s: Seq<char>) -> Seq<char> {
    seq!['"'] + escaped_chars(s) + seq!['"']
}

fn push_hex(out: &mut String, d: u32)
    requires
        d < 16,
    ensures
        final(out)@ == old(out)@.push(numeral::digit_char(d as int)),
{
    let c = if d < 10 {
        (d as u8 + 48) as char
    } else {
        (d as u8 - 10 + 97) as char
    };
    out.push(c);
}

fn push_unicode_escape(out: &mut String, n: u32)
    requires
        n <= 0xffff,
    ensures
        final(out)@ == old(out)@ + unicode_escape(n as int),
{
    let ghost start = out@;
    out.push('\\');
    out.push('u');
    push_hex(out, (n / 4096) % 16);
    push_hex(out, (n / 256) % 16);
    push_hex(out, (n / 16) % 16);
    push_hex(out, n % 16);
    assert(out@ == start + unicode_escape(n as int));
}

fn push_pair(out: &mut String, c: char)
    ensures
        final(out)@ == old(out)@ + seq!['\\', c],
{
    let ghost start = out@;
    out.push('\\');
    out.push(c);
    assert(out@ == start + seq!['\\', c]);
}

fn push_escaped(out: &mut String, c: char)
    ensures
        final(out)@ == old(out)@ + escaped_char(c),
{
    let n = c as u32;
    let ghost start = out@;
    if c == '"' {
        push_pair(out, '"');
    } else if c == '\\' {
        push_pair(out, '\\');
    } else if n == 0x08 {
        push_pair(out, 'b');
    } else if n == 0x09 {
        push_pair(out, 't');
    } else if n == 0x0a {
        push_pair(out, 'n');
    } else if n == 0x0c {
        push_pair(out, 'f');
    } else if n == 0x0d {
        push_pair(out, 'r');
    } else if 0x20 <= n && n < 0x7f {
        out.push(c);
        assert(out@ == start + seq![c]);
    } else if n <= 0xffff {
        push_unicode_escape(out, n);
    } else {
        assert(n <= 0x10ffff);
        let v: u32 = n - 0x10000;
        push_unicode_escape(out, 0xd800 + v / 1024);
        push_unicode_escape(out, 0xdc00 + v % 1024);
        assert(out@ == start + escaped_char(c));
    }
}

/// Writes a string literal at the end of `out`.
pub fn json_escape_str(s: &str, out: &mut String)
    ensures
        final(out)@ == old(out)@ + quoted(s@),
{
    let cs = text::chars_of(s);
    let ghost start = out@;
    out.push('"');
    for i in 0..cs.len()
        invariant
            out@ == start + seq!['"'] + escaped_chars(cs@.take(i as int)),
    {
        push_escaped(out, cs[i]);
        assert(cs@.take(i as int + 1).drop_last() == cs@.take(i as int));
    }
    assert(cs@.take(cs@.len() as int) == cs@);
    out.push('"');
    assert(out@ == start + quoted(s@));
}

// ---------------------------------------------------------------------------
// Documents
// ---------------------------------------------------------------------------

/// The text of a document.
pub open spec fn dumped(t: JsonTree) -> Seq<char>
    decreases t, 0nat,
{
    match t {
        JsonTree::Null => "null"@,
        JsonTree::Bool(b) => if b {
            "true"@
        } else {
            "false"@
        },
        JsonTree::Int(i) => numeral::signed_decimal(i),
        JsonTree::Float(s) => s,
        JsonTree::BigInt(s) => s,
        JsonTree::Str(s) => quoted(s),
        JsonTree::Array(v) => seq!['['] + dumped_items(v, v.len()) + seq![']'],
        JsonTree::Object(v) => seq!['{'] + dumped_members(v, v.len()) + seq!['}'],
    }
}

/// What stands before the element at position `i`.
pub open spec fn separator(i: int) -> Seq<char> {
    if i > 0 {
        ", "@
    } else {
        seq![]
    }
}

/// The texts of the first `n` elements, separated.
pub open spec fn dumped_items(v: Seq<JsonTree>, n: nat) -> Seq<char>
    decreases v, n,
{
    if n == 0 || n > v.len() {
        seq![]
    } else {
        dumped_items(v, (n - 1) as nat) + separator(n - 1) + dumped(v[n - 1])
    }
}

/// The texts of the first `n` members, separated.
pub open spec fn dumped_members(v: Seq<(Seq<char>, JsonTree)>, n: nat) -> Seq<char>
    decreases v, n,
{
    if n == 0 || n > v.len() {
        seq![]
    } else {
        dumped_members(v, (n - 1) as nat) + separator(n - 1) + quoted(v[n - 1].0) + ": "@ + dumped(
            v[n - 1].1,
        )
    }
}

pub proof fn lemma_array_trees(v: Seq<Json>, n: nat)
    requires
        n <= v.len(),
    ensures
        array_trees(v, n).len() == n,
        forall|i: int| 0 <= i < n ==> #[trigger] array_trees(v, n)[i] == v[i].tree(),
    decreases n,
{
    if n > 0 {
        lemma_array_trees(v, (n - 1) as nat);
    }
}

pub proof fn lemma_object_trees(v: Seq<(String, Json)>, n: nat)
    requires
        n <= v.len(),
    ensures
        object_trees(v, n).len() == n,
        forall|i: int|
            0 <= i < n ==> #[trigger] object_trees(v, n)[i] == (v[i].0@, v[i].1.tree()),
    decreases n,
{
    if n > 0 {
        lemma_object_trees(v, (n - 1) as nat);
    }
}

/// Writes a document at the end of `out`.
pub fn dumps_into(j: &Json, out: &mut String)
    ensures
        final(out)@ == old(out)@ + dumped(j.tree()),
    decreases j,
{
    let ghost start = out@;
    match j {
        Json::Null => out.append("null"),
        Json::Bool(b) => if *b {
            out.append("true")
        } else {
            out.append("false")
        },
        Json::Int(i) => out.append(numeral::i64_to_string(*i).as_str()),
        Json::Float(f) => match f {
            Float::Nan => out.append("NaN"),
            Float::Infinity => out.append("Infinity"),
            Float::NegInfinity => out.append("-Infinity"),
            Float::Finite { repr, .. } => out.append(repr.as_str()),
        },
        Json::BigInt(s) => out.append(s.as_str()),
        Json::Str(s) => json_escape_str(s.as_str(), out),
        Json::Array(items) => {
            let ghost trees = array_trees(items@, items@.len());
            proof {
                lemma_array_trees(items@, items@.len());
            }
            out.push('[');
            for i in 0..items.len()
                invariant
                    trees == array_trees(items@, items@.len()),
                    trees.len() == items@.len(),
                    forall|k: int| 0 <= k < trees.len() ==> #[trigger] trees[k] == items@[k].tree(),
                    *j == Json::Array(*items),
                    out@ == start + seq!['['] + dumped_items(trees, i as nat),
            {
                let ghost before = dumped_items(trees, i as nat);
                if i > 0 {
                    out.append(", ");
                }
                assert(out@ == start + seq!['['] + before + separator(i as int));
                assert(trees[i as int] == items@[i as int].tree());
                assert(decreases_to!(*j => j->Array_0));
                assert(decreases_to!(*items => items[i as int]));
                dumps_into(&items[i], out);
                assert(out@ == start + seq!['['] + (before + separator(i as int) + dumped(
                    trees[i as int],
                )));
            }
            out.push(']');
            assert(out@ == start + dumped(j.tree()));
        },
        Json::Object(pairs) => {
            let ghost trees = object_trees(pairs@, pairs@.len());
            proof {
                lemma_object_trees(pairs@, pairs@.len());
            }
            out.push('{');
            for i in 0..pairs.len()
                invariant
                    trees == object_trees(pairs@, pairs@.len()),
                    trees.len() == pairs@.len(),
                    forall|k: int|
                        0 <= k < trees.len() ==> #[trigger] trees[k] == (
                            pairs@[k].0@,
                            pairs@[k].1.tree(),
                        ),
                    *j == Json::Object(*pairs),
                    out@ == start + seq!['{'] + dumped_members(trees, i as nat),
            {
                let ghost before = dumped_members(trees, i as nat);
                if i > 0 {
                    out.append(", ");
                }
                assert(out@ == start + seq!['{'] + before + separator(i as int));
                assert(trees[i as int] == (pairs@[i as int].0@, pairs@[i as int].1.tree()));
                json_escape_str(pairs[i].0.as_str(), out);
                out.append(": ");
                assert(decreases_to!(*j => j->Object_0));
                assert(decreases_to!(*pairs => pairs[i as int]));
                assert(decreases_to!(pairs[i as int] => pairs[i as int].1));
                dumps_into(&pairs[i].1, out);
                assert(out@ == start + seq!['{'] + (before + separator(i as int) + quoted(
                    trees[i as int].0,
                ) + ": "@ + dumped(trees[i as int].1)));
            }
            out.push('}');
            assert(out@ == start + dumped(j.tree()));
        },
    }
}

/// The text of a document.
pub fn dumps(j: &Json) -> (r: String)
    ensures
        r@ == dumped(j.tree()),
{
    let mut out = String::new();
    dumps_into(j, &mut out);
    assert(Seq::<char>::empty() + dumped(j.tree()) == dumped(j.tree()));
    out
}

// ---------------------------------------------------------------------------
// Small objects
// ---------------------------------------------------------------------------

/// An object of two members.
pub fn object2(
    k1: &str,
    j1: Json,
    k2: &str,
    j2: Json,
) -> (r: Json)
    ensures
        r.tree() == JsonTree::Object(seq![(k1@, j1.tree()), (k2@, j2.tree())]),
{
    let mut v: Vec<(String, Json)> = Vec::new();
    v.push((k1.to_owned(), j1));
    v.push((k2.to_owned(), j2));
    proof {
        lemma_object_trees(v@, 2);
        assert(object_trees(v@, 2) == seq![(k1@, j1.tree()), (k2@, j2.tree())]);
    }
    Json::Object(v)
}

/// An object of three members.
pub fn object3(
    k1: &str,
    j1: Json,
    k2: &str,
    j2: Json,
    k3: &str,
    j3: Json,
) -> (r: Json)
    ensures
        r.tree() == JsonTree::Object(seq![(k1@, j1.tree()), (k2@, j2.tree()), (k3@, j3.tree())]),
{
    let mut v: Vec<(String, Json)> = Vec::new();
    v.push((k1.to_owned(), j1));
    v.push((k2.to_owned(), j2));
    v.push((k3.to_owned(), j3));
    proof {
        lemma_object_trees(v@, 3);
        assert(object_trees(v@, 3) == seq![(k1@, j1.tree()), (k2@, j2.tree()), (k3@, j3.tree())]);
    }
    Json::Object(v)
}

/// An object of four members.
pub fn object4(
    k1: &str,
    j1: Json,
    k2: &str,
    j2: Json,
    k3: &str,
    j3: Json,
    k4: &str,
    j4: Json,
) -> (r: Json)
    ensures
        r.tree() == JsonTree::Object(seq![(k1@, j1.tree()), (k2@, j2.tree()), (k3@, j3.tree()), (k4@, j4.tree())]),
{
    let mut v: Vec<(String, Json)> = Vec::new();
    v.push((k1.to_owned(), j1));
    v.push((k2.to_owned(), j2));
    v.push((k3.to_owned(), j3));
    v.push((k4.to_owned(), j4));
    proof {
        lemma_object_trees(v@, 4);
        assert(object_trees(v@, 4) == seq![(k1@, j1.tree()), (k2@, j2.tree()), (k3@, j3.tree()), (k4@, j4.tree())]);
    }
    Json::Object(v)
}

/// A string as a document.
pub fn string(s: &str) -> (r: Json)
    ensures
        r.tree() == JsonTree::Str(s@),
{
    Json::Str(s.to_owned())
}

// ---------------------------------------------------------------------------
// Laws
// ---------------------------------------------------------------------------

/// Every character is printable ASCII.
pub open spec fn is_printable(s: Seq<char>) -> bool {
    forall|i: int| 0 <= i < s.len() ==> ' ' <= #[trigger] s[i] <= '~'
}

proof fn lemma_printable_concat(a: Seq<char>, b: Seq<char>)
    requires
        is_printable(a),
        is_printable(b),
    ensures
        is_printable(a + b),
{
    assert forall|i: int| 0 <= i < (a + b).len() implies ' ' <= #[trigger] (a + b)[i] <= '~' by {
        if i < a.len() {
            assert((a + b)[i] == a[i]);
        } else {
            assert((a + b)[i] == b[i - a.len()]);
        }
    }
}

proof fn lemma_escaped_char_printable(c: char)
    ensures
        is_printable(escaped_char(c)),
{
    let n = c as u32;
    if n > 0xffff {
        let a = unicode_escape(0xd800 + (n - 0x10000) / 1024);
        let b = unicode_escape(0xdc00 + (n - 0x10000) % 1024);
        lemma_printable_concat(a, b);
    }
}

proof fn lemma_escaped_chars_printable(s: Seq<char>)
    ensures
        is_printable(escaped_chars(s)),
    decreases s.len(),
{
    if s.len() > 0 {
        lemma_escaped_chars_printable(s.drop_last());
        lemma_escaped_char_printable(s.last());
        lemma_printable_concat(escaped_chars(s.drop_last()), escaped_char(s.last()));
    }
}

/// A string literal is printable ASCII, whatever the text.
pub proof fn law_literals_are_ascii(s: Seq<char>)
    ensures
        is_printable(quoted(s)),
{
    lemma_escaped_chars_printable(s);
    lemma_printable_concat(seq!['"'], escaped_chars(s));
    lemma_printable_concat(seq!['"'] + escaped_chars(s), seq!['"']);
}

/// The numbers in a document are written in printable ASCII.
pub open spec fn numbers_are_printable(t: JsonTree) -> bool
    decreases t,
{
    match t {
        JsonTree::Float(s) => is_printable(s),
        JsonTree::BigInt(s) => is_printable(s),
        JsonTree::Array(v) => forall|i: int|
            0 <= i < v.len() ==> numbers_are_printable(#[trigger] v[i]),
        JsonTree::Object(v) => forall|i: int|
            0 <= i < v.len() ==> numbers_are_printable((#[trigger] v[i]).1),
        _ => true,
    }
}

/// A document is printable ASCII, as far as its numbers are.
pub proof fn law_documents_are_ascii(t: JsonTree)
    requires
        numbers_are_printable(t),
    ensures
        is_printable(dumped(t)),
    decreases t, 0nat,
{
    reveal_strlit("null");
    reveal_strlit("true");
    reveal_strlit("false");
    match t {
        JsonTree::Int(i) => {
            numeral::lemma_signed_decimal_printable(i);
        },
        JsonTree::Str(s) => {
            law_literals_are_ascii(s);
        },
        JsonTree::Array(v) => {
            lemma_items_printable(v, v.len());
            lemma_printable_concat(seq!['['], dumped_items(v, v.len()));
            lemma_printable_concat(seq!['['] + dumped_items(v, v.len()), seq![']']);
        },
        JsonTree::Object(v) => {
            lemma_members_printable(v, v.len());
            lemma_printable_concat(seq!['{'], dumped_members(v, v.len()));
            lemma_printable_concat(seq!['{'] + dumped_members(v, v.len()), seq!['}']);
        },
        _ => {},
    }
}

proof fn lemma_items_printable(v: Seq<JsonTree>, n: nat)
    requires
        n <= v.len(),
        forall|i: int| 0 <= i < v.len() ==> numbers_are_printable(#[trigger] v[i]),
    ensures
        is_printable(dumped_items(v, n)),
    decreases v, n,
{
    if n > 0 {
        reveal_strlit(", ");
        lemma_items_printable(v, (n - 1) as nat);
        law_documents_are_ascii(v[n - 1]);
        let a = dumped_items(v, (n - 1) as nat);
        lemma_printable_concat(a, separator(n - 1));
        lemma_printable_concat(a + separator(n - 1), dumped(v[n - 1]));
    }
}

proof fn lemma_members_printable(v: Seq<(Seq<char>, JsonTree)>, n: nat)
    requires
        n <= v.len(),
        forall|i: int| 0 <= i < v.len() ==> numbers_are_printable((#[trigger] v[i]).1),
    ensures
        is_printable(dumped_members(v, n)),
    decreases v, n,
{
    if n > 0 {
        reveal_strlit(", ");
        reveal_strlit(": ");
        lemma_members_printable(v, (n - 1) as nat);
        let (k, t) = v[n - 1];
        law_literals_are_ascii(k);
        assert(decreases_to!(v => v[n - 1]));
        assert(decreases_to!(v[n - 1] => v[n - 1].1));
        law_documents_are_ascii(t);
        let a = dumped_members(v, (n - 1) as nat);
        lemma_printable_concat(a, separator(n - 1));
        let b = a + separator(n - 1);
        lemma_printable_concat(b, quoted(k));
        lemma_printable_concat(b + quoted(k), ": "@);
        lemma_printable_concat(b + quoted(k) + ": "@, dumped(t));
    }
}

/// The value of a hexadecimal digit.
pub open spec fn hex_digit(c: char) -> Option<int> {
    match numeral::digit_value(c, 16) {
        Some(d) => Some(d as int),
        None => None,
    }
}

/// The code unit that an escape `\uXXXX` at position `i` stands for.
pub open spec fn unit_at(s: Seq<char>, i: int) -> Option<int> {
    if 0 <= i && i + 6 <= s.len() && s[i] == '\\' && s[i + 1] == 'u' {
        match (hex_digit(s[i + 2]), hex_digit(s[i + 3]), hex_digit(s[i + 4]), hex_digit(s[i + 5])) {
            (Some(a), Some(b), Some(c), Some(d)) => Some(a * 4096 + b * 256 + c * 16 + d),
            _ => None,
        }
    } else {
        None
    }
}

/// The character at the start of the inside of a string literal, and how many characters it
/// is written in.
pub open spec fn first_written(s: Seq<char>) -> Option<(char, int)> {
    if s.len() == 0 {
        None
    } else if s[0] != '\\' {
        Some((s[0], 1))
    } else if s.len() < 2 {
        None
    } else if s[1] == '"' || s[1] == '\\' {
        Some((s[1], 2))
    } else if s[1] == 'b' {
        Some((8u32 as char, 2))
    } else if s[1] == 't' {
        Some((9u32 as char, 2))
    } else if s[1] == 'n' {
        Some((10u32 as char, 2))
    } else if s[1] == 'f' {
        Some((12u32 as char, 2))
    } else if s[1] == 'r' {
        Some((13u32 as char, 2))
    } else {
        match unit_at(s, 0) {
            None => None,
            Some(hi) => if 0xd800 <= hi < 0xdc00 {
                match unit_at(s, 6) {
                    None => None,
                    Some(lo) => Some(
                        ((0x10000 + (hi - 0xd800) * 1024 + (lo - 0xdc00)) as char, 12),
                    ),
                }
            } else {
                Some((hi as char, 6))
            },
        }
    }
}

/// The text that the inside of a string literal stands for.
pub open spec fn unescaped(s: Seq<char>) -> Option<Seq<char>>
    decreases s.len(),
{
    if s.len() == 0 {
        Some(seq![])
    } else {
        match first_written(s) {
            None => None,
            Some((c, n)) => if 0 < n <= s.len() {
                match unescaped(s.skip(n)) {
                    None => None,
                    Some(rest) => Some(seq![c] + rest),
                }
            } else {
                None
            },
        }
    }
}

proof fn lemma_hex_digit(d: int)
    requires
        0 <= d < 16,
    ensures
        hex_digit(numeral::digit_char(d)) == Some(d),
{
}

proof fn lemma_hex_sum(n: int)
    requires
        0 <= n <= 0xffff,
    ensures
        ((n / 4096) % 16) * 4096 + ((n / 256) % 16) * 256 + ((n / 16) % 16) * 16 + n % 16 == n,
{
    let a = n / 4096;
    let b = n / 256;
    let c = n / 16;
    assert(a < 16);
    assert(b / 16 == a);
    assert(c / 16 == b);
}

/// The escape of a code unit stands for it wherever it is written.
pub proof fn lemma_unit(n: int, s: Seq<char>, i: int)
    requires
        0 <= n <= 0xffff,
        0 <= i,
        i + 6 <= s.len(),
        s.subrange(i, i + 6) == unicode_escape(n),
    ensures
        unit_at(s, i) == Some(n),
{
    let a = (n / 4096) % 16;
    let b = (n / 256) % 16;
    let c = (n / 16) % 16;
    let d = n % 16;
    let sub = s.subrange(i, i + 6);
    assert(sub[0] == s[i] && sub[1] == s[i + 1] && sub[2] == s[i + 2] && sub[3] == s[i + 3] && sub[4]
        == s[i + 4] && sub[5] == s[i + 5]);
    assert(sub[0] == '\\' && sub[1] == 'u' && sub[2] == numeral::digit_char(a) && sub[3]
        == numeral::digit_char(b) && sub[4] == numeral::digit_char(c) && sub[5]
        == numeral::digit_char(d));
    lemma_hex_digit(a);
    lemma_hex_digit(b);
    lemma_hex_digit(c);
    lemma_hex_digit(d);
    lemma_hex_sum(n);
}

/// The character is written as one character, or as a backslash and one more.
spec fn is_short(c: char) -> bool {
    let n = c as u32;
    c == '"' || c == '\\' || n == 8 || n == 9 || n == 10 || n == 12 || n == 13 || (0x20 <= n && n
        < 0x7f)
}

proof fn lemma_first_short(c: char, rest: Seq<char>)
    requires
        is_short(c),
    ensures
        first_written(escaped_char(c) + rest) == Some((c, escaped_char(c).len() as int)),
        escaped_char(c).len() > 0,
{
    let n = c as u32;
    let e = escaped_char(c);
    let s = e + rest;
    assert(s[0] == e[0]);
    if !(0x20 <= n && n < 0x7f && c != '"' && c != '\\') {
        assert(s[1] == e[1]);
    }
}

proof fn lemma_first_unit(c: char, rest: Seq<char>)
    requires
        !is_short(c),
        c as u32 <= 0xffff,
    ensures
        first_written(escaped_char(c) + rest) == Some((c, escaped_char(c).len() as int)),
        escaped_char(c).len() > 0,
{
    let n = c as u32;
    let e = escaped_char(c);
    let s = e + rest;
    assert(e == unicode_escape(n as int));
    assert(e.len() == 6);
    assert(s.subrange(0, 6) =~= e);
    lemma_unit(n as int, s, 0);
    assert(s[0] == e[0] && s[1] == e[1]);
    assert(!(0xd800 <= n && n < 0xdc00));
}

proof fn lemma_surrogates(n: int)
    requires
        0x10000 <= n <= 0x10ffff,
    ensures
        0xd800 <= 0xd800 + (n - 0x10000) / 1024 < 0xdc00,
        0xdc00 <= 0xdc00 + (n - 0x10000) % 1024 < 0xe000,
        0x10000 + ((n - 0x10000) / 1024) * 1024 + (n - 0x10000) % 1024 == n,
{
}

proof fn lemma_first_pair(c: char, rest: Seq<char>)
    requires
        c as u32 > 0xffff,
    ensures
        first_written(escaped_char(c) + rest) == Some((c, escaped_char(c).len() as int)),
        escaped_char(c).len() > 0,
{
    let n = c as u32;
    let e = escaped_char(c);
    let s = e + rest;
    let hi = 0xd800 + (n - 0x10000) / 1024;
    let lo = 0xdc00 + (n - 0x10000) % 1024;
    lemma_surrogates(n as int);
    let first = unicode_escape(hi);
    let second = unicode_escape(lo);
    assert(e == first + second);
    assert(first.len() == 6 && second.len() == 6);
    assert(s.subrange(0, 6) =~= first);
    assert(s.subrange(6, 12) =~= second);
    lemma_unit(hi, s, 0);
    lemma_unit(lo, s, 6);
    assert(s[0] == first[0] && s[1] == first[1]);
}

/// A character is read from where it is written, whatever follows.
pub proof fn lemma_first_written(c: char, rest: Seq<char>)
    ensures
        first_written(escaped_char(c) + rest) == Some((c, escaped_char(c).len() as int)),
        escaped_char(c).len() > 0,
{
    if is_short(c) {
        lemma_first_short(c, rest);
    } else if c as u32 <= 0xffff {
        lemma_first_unit(c, rest);
    } else {
        lemma_first_pair(c, rest);
    }
}

/// What is written for a text begins with what is written for its first character.
pub proof fn lemma_escaped_front(s: Seq<char>)
    requires
        s.len() > 0,
    ensures
        escaped_chars(s) == escaped_char(s[0]) + escaped_chars(s.drop_first()),
    decreases s.len(),
{
    if s.len() == 1 {
        assert(s.drop_last() =~= Seq::<char>::empty());
        assert(s.drop_first() =~= Seq::<char>::empty());
        assert(escaped_chars(s.drop_last()) =~= Seq::<char>::empty());
        assert(escaped_chars(s) =~= escaped_char(s[0]));
        assert(escaped_char(s[0]) + escaped_chars(s.drop_first()) =~= escaped_char(s[0]));
    } else {
        lemma_escaped_front(s.drop_last());
        assert(s.drop_last().drop_first() =~= s.drop_first().drop_last());
        assert(escaped_chars(s) =~= escaped_char(s[0]) + escaped_chars(s.drop_first()));
    }
}

/// A string literal stands for the text that it was written for, so that different texts have
/// different literals.
pub proof fn law_literals_read_back(s: Seq<char>)
    ensures
        unescaped(escaped_chars(s)) == Some(s),
    decreases s.len(),
{
    if s.len() > 0 {
        let rest = s.drop_first();
        lemma_escaped_front(s);
        law_literals_read_back(rest);
        lemma_first_written(s[0], escaped_chars(rest));
        let all = escaped_char(s[0]) + escaped_chars(rest);
        assert(all.skip(escaped_char(s[0]).len() as int) =~= escaped_chars(rest));
        assert(seq![s[0]] + rest =~= s);
    }
}

proof fn lemma_items_joined(v: Seq<JsonTree>, n: nat)
    requires
        n <= v.len(),
    ensures
        dumped_items(v, n) == text::joined(
            v.take(n as int).map_values(|t: JsonTree| dumped(t)),
            ", "@,
        ),
    decreases n,
{
    let f = |t: JsonTree| dumped(t);
    let all = v.take(n as int).map_values(f);
    if n > 0 {
        lemma_items_joined(v, (n - 1) as nat);
        assert(all.drop_last() =~= v.take(n - 1).map_values(f));
        assert(all.last() == dumped(v[n - 1]));
        if n == 1 {
            assert(dumped_items(v, 0) =~= Seq::<char>::empty());
            assert(dumped_items(v, n) =~= dumped(v[0]));
        }
    }
}

proof fn lemma_members_joined(v: Seq<(Seq<char>, JsonTree)>, n: nat)
    requires
        n <= v.len(),
    ensures
        dumped_members(v, n) == text::joined(
            v.take(n as int).map_values(
                |m: (Seq<char>, JsonTree)| quoted(m.0) + ": "@ + dumped(m.1),
            ),
            ", "@,
        ),
    decreases n,
{
    let f = |m: (Seq<char>, JsonTree)| quoted(m.0) + ": "@ + dumped(m.1);
    let all = v.take(n as int).map_values(f);
    if n > 0 {
        lemma_members_joined(v, (n - 1) as nat);
        assert(all.drop_last() =~= v.take(n - 1).map_values(f));
        let k = v[n - 1].0;
        let t = v[n - 1].1;
        assert(all.last() == quoted(k) + ": "@ + dumped(t));
        let b = dumped_members(v, (n - 1) as nat);
        if n == 1 {
            assert(dumped_members(v, 0) =~= Seq::<char>::empty());
            assert(dumped_members(v, n) =~= quoted(k) + ": "@ + dumped(t));
        } else {
            assert(dumped_members(v, n) =~= b + ", "@ + (quoted(k) + ": "@ + dumped(t)));
        }
    }
}

/// A document is written as the text of its kind: the words of JSON, a decimal numeral, the
/// digits of another number, a literal between quotes; the elements of an array between
/// brackets and the members of an object between braces, each with its key, in order and
/// separated by a comma and a space.
pub proof fn law_documents_are_written_out(t: JsonTree)
    ensures
        match t {
            JsonTree::Null => dumped(t) == seq!['n', 'u', 'l', 'l'],
            JsonTree::Bool(b) => dumped(t) == if b {
                seq!['t', 'r', 'u', 'e']
            } else {
                seq!['f', 'a', 'l', 's', 'e']
            },
            JsonTree::Int(i) => dumped(t) == numeral::signed_decimal(i),
            JsonTree::Float(s) => dumped(t) == s,
            JsonTree::BigInt(s) => dumped(t) == s,
            JsonTree::Str(s) => dumped(t) == seq!['"'] + escaped_chars(s) + seq!['"'],
            JsonTree::Array(v) => dumped(t) == seq!['['] + text::joined(
                v.map_values(|x: JsonTree| dumped(x)),
                seq![',', ' '],
            ) + seq![']'],
            JsonTree::Object(v) => dumped(t) == seq!['{'] + text::joined(
                v.map_values(
                    |m: (Seq<char>, JsonTree)|
                        seq!['"'] + escaped_chars(m.0) + seq!['"', ':', ' '] + dumped(m.1),
                ),
                seq![',', ' '],
            ) + seq!['}'],
        },
{
    reveal_strlit("null");
    reveal_strlit("true");
    reveal_strlit("false");
    reveal_strlit(", ");
    reveal_strlit(": ");
    assert(", "@ =~= seq![',', ' ']);
    match t {
        JsonTree::Null => {
            assert("null"@ =~= seq!['n', 'u', 'l', 'l']);
        },
        JsonTree::Bool(b) => {
            assert("true"@ =~= seq!['t', 'r', 'u', 'e']);
            assert("false"@ =~= seq!['f', 'a', 'l', 's', 'e']);
        },
        JsonTree::Array(v) => {
            lemma_items_joined(v, v.len());
            assert(v.take(v.len() as int) =~= v);
        },
        JsonTree::Object(v) => {
            lemma_members_joined(v, v.len());
            assert(v.take(v.len() as int) =~= v);
            let f = |m: (Seq<char>, JsonTree)| quoted(m.0) + ": "@ + dumped(m.1);
            let g = |m: (Seq<char>, JsonTree)|
                seq!['"'] + escaped_chars(m.0) + seq!['"', ':', ' '] + dumped(m.1);
            assert forall|i: int| 0 <= i < v.len() implies #[trigger] v.map_values(f)[i]
                == v.map_values(g)[i] by {
                assert(quoted(v[i].0) + ": "@ + dumped(v[i].1) =~= seq!['"'] + escaped_chars(v[i].0)
                    + seq!['"', ':', ' '] + dumped(v[i].1));
            }
            assert(v.map_values(f) =~= v.map_values(g));
        },
        _ => {},
    }
}

/// Printable characters stand for themselves in a literal, but for the quote and the
/// backslash, which have a backslash before them; a literal of two texts is that of the first
/// and that of the second.
pub proof fn law_literals_are_plain_where_they_can_be(c: char, a: Seq<char>, b: Seq<char>)
    ensures
        ' ' <= c <= '~' && c != '"' && c != '\\' ==> escaped_chars(seq![c]) == seq![c],
        c == '"' || c == '\\' ==> escaped_chars(seq![c]) == seq!['\\', c],
        c == '\n' ==> escaped_chars(seq![c]) == seq!['\\', 'n'],
        c == '\t' ==> escaped_chars(seq![c]) == seq!['\\', 't'],
        c == '\r' ==> escaped_chars(seq![c]) == seq!['\\', 'r'],
        escaped_chars(a + b) == escaped_chars(a) + escaped_chars(b),
    decreases b.len(),
{
    assert(seq![c].drop_last() =~= Seq::<char>::empty());
    assert(escaped_chars(Seq::<char>::empty()) =~= Seq::<char>::empty());
    assert(escaped_chars(seq![c]) =~= escaped_char(c));
    if b.len() > 0 {
        law_literals_are_plain_where_they_can_be(c, a, b.drop_last());
        assert((a + b).drop_last() =~= a + b.drop_last());
        assert(escaped_chars(a + b) =~= escaped_chars(a) + escaped_chars(b));
    } else {
        assert(a + b =~= a);
        assert(escaped_chars(a) + escaped_chars(b) =~= escaped_chars(a));
    }
}

/// The content of a document is that of its parts, one for one.
pub proof fn law_json_content_is_that_of_its_parts(j: Json)
    ensures
        match j {
            Json::Null => j.tree() is Null,
            Json::Bool(b) => j.tree() == JsonTree::Bool(b),
            Json::Int(i) => j.tree() == JsonTree::Int(i as int),
            Json::BigInt(s) => j.tree() == JsonTree::BigInt(s@),
            Json::Str(s) => j.tree() == JsonTree::Str(s@),
            Json::Float(f) => f matches Float::Finite { repr, .. } ==> j.tree() == JsonTree::Float(
                repr@,
            ),
            Json::Array(v) => j.tree() matches JsonTree::Array(ts) && ts.len() == v@.len() && (
            forall|i: int| 0 <= i < ts.len() ==> #[trigger] ts[i] == v@[i].tree()),
            Json::Object(v) => j.tree() matches JsonTree::Object(ts) && ts.len() == v@.len() && (
            forall|i: int|
                0 <= i < ts.len() ==> #[trigger] ts[i] == (v@[i].0@, v@[i].1.tree())),
        },
{
    match j {
        Json::Array(v) => {
            lemma_array_trees(v@, v@.len());
        },
        Json::Object(v) => {
            lemma_object_trees(v@, v@.len());
        },
        _ => {},
    }
}

/// A number that is none, or has no bound, is written out as a word of letters.
pub proof fn law_numbers_without_a_value(j: Json)
    ensures
        j == Json::Float(Float::Nan) ==> dumped(j.tree()) == seq!['N', 'a', 'N'],
        j == Json::Float(Float::Infinity) ==> dumped(j.tree()) == "Infinity"@,
        j == Json::Float(Float::NegInfinity) ==> dumped(j.tree()) == seq!['-'] + "Infinity"@,
{
    reveal_strlit("NaN");
    reveal_strlit("Infinity");
    reveal_strlit("-Infinity");
    assert("NaN"@ =~= seq!['N', 'a', 'N']);
    assert("-Infinity"@ =~= seq!['-'] + "Infinity"@);
}

} // verus!
