//! What this library takes from other crates and from parts of std that carry no
//! specification: each item here is believed, not proved.

use std::io::Write;

use flate2::write::GzEncoder;
use flate2::Compression;
use indexmap::IndexMap;
use rustls::pki_types::CertificateDer;
use rustls::pki_types::PrivateKeyDer;
use rustls::sign::CertifiedKey;
use rustls::ServerConfig;
use vstd::prelude::*;
use vstd::utf8::*;

use crate::respond::JsonBody;
use crate::respond::JsonDoc;
use crate::text;

verus! {

/// An insertion-ordered map of crate `indexmap`.
#[verifier::external_type_specification]
#[verifier::external_body]
#[verifier::reject_recursive_types(K)]
#[verifier::reject_recursive_types(V)]
#[verifier::reject_recursive_types(S)]
pub struct ExIndexMap<K, V, S>(IndexMap<K, V, S>);

/// A JSON document of crate `serde_json`.
#[verifier::external_type_specification]
#[verifier::external_body]
pub struct ExJsonValue(serde_json::Value);

/// Why `serde_json` refused a text.
#[verifier::external_type_specification]
#[verifier::external_body]
pub struct ExJsonError(serde_json::Error);

// ---------------------------------------------------------------------------
// IndexMap<String, String>
// ---------------------------------------------------------------------------

/// What a map holds: its keys with their values, in the order of insertion.
pub uninterp spec fn entries(m: IndexMap<String, String>) -> Seq<(Seq<char>, Seq<char>)>;

/// The position of the first entry with key `k`, or the number of entries.
pub open spec fn key_index(e: Seq<(Seq<char>, Seq<char>)>, k: Seq<char>) -> int
    decreases e.len(),
{
    if e.len() == 0 || e[0].0 == k {
        0
    } else {
        1 + key_index(e.drop_first(), k)
    }
}

/// The value that is stored for `k`.
pub open spec fn lookup(e: Seq<(Seq<char>, Seq<char>)>, k: Seq<char>) -> Option<Seq<char>> {
    let i = key_index(e, k);
    if 0 <= i < e.len() {
        Some(e[i].1)
    } else {
        None
    }
}

/// The entries after `v` is stored for `k`: in the place of the old value where
/// there is one, else at the end.
pub open spec fn put(e: Seq<(Seq<char>, Seq<char>)>, k: Seq<char>, v: Seq<char>) -> Seq<
    (Seq<char>, Seq<char>),
> {
    let i = key_index(e, k);
    if 0 <= i < e.len() {
        e.update(i, (k, v))
    } else {
        e.push((k, v))
    }
}

/// `IndexMap::new`: the map is empty.
#[verifier::external_body]
pub(crate) fn map_new() -> (m: IndexMap<String, String>)
    ensures
        entries(m) == Seq::<(Seq<char>, Seq<char>)>::empty(),
{
    IndexMap::new()
}

/// `IndexMap::insert`: a key that is present keeps its place and gets the new value,
/// another is added at the end.
#[verifier::external_body]
pub(crate) fn map_insert(m: &mut IndexMap<String, String>, key: String, value: String)
    ensures
        entries(*final(m)) == put(entries(*old(m)), key@, value@),
{
    m.insert(key, value);
}

/// `IndexMap::get`: the value that is stored for the key.
#[verifier::external_body]
pub(crate) fn map_get<'a>(m: &'a IndexMap<String, String>, key: &str) -> (r: Option<&'a String>)
    ensures
        r is Some == lookup(entries(*m), key@) is Some,
        r matches Some(v) ==> lookup(entries(*m), key@) == Some(v@),
{
    m.get(key)
}

pub proof fn lemma_key_index(e: Seq<(Seq<char>, Seq<char>)>, k: Seq<char>)
    ensures
        0 <= key_index(e, k) <= e.len(),
        forall|i: int| 0 <= i < key_index(e, k) ==> (#[trigger] e[i]).0 != k,
        key_index(e, k) < e.len() ==> e[key_index(e, k)].0 == k,
    decreases e.len(),
{
    if e.len() > 0 && e[0].0 != k {
        lemma_key_index(e.drop_first(), k);
        assert forall|i: int| 0 <= i < key_index(e, k) implies (#[trigger] e[i]).0 != k by {
            if i > 0 {
                assert(e.drop_first()[i - 1] == e[i]);
            }
        }
    }
}

pub proof fn lemma_key_index_unique(e: Seq<(Seq<char>, Seq<char>)>, k: Seq<char>, n: int)
    requires
        0 <= n <= e.len(),
        forall|i: int| 0 <= i < n ==> (#[trigger] e[i]).0 != k,
        n < e.len() ==> e[n].0 == k,
    ensures
        key_index(e, k) == n,
{
    lemma_key_index(e, k);
    let f = key_index(e, k);
    if f < n {
        assert(e[f].0 != k);
    } else if n < f {
        assert(e[n].0 != k);
    }
}

/// What is stored for a key is what was put there last, and storing for one key
/// leaves what is stored for the others as it was.
pub proof fn law_put_then_lookup(
    e: Seq<(Seq<char>, Seq<char>)>,
    k: Seq<char>,
    v: Seq<char>,
    other: Seq<char>,
)
    ensures
        lookup(put(e, k, v), k) == Some(v),
        other != k ==> lookup(put(e, k, v), other) == lookup(e, other),
{
    lemma_key_index(e, k);
    lemma_key_index(e, other);
    let p = put(e, k, v);
    let i = key_index(e, k);
    assert forall|j: int| 0 <= j < i implies (#[trigger] p[j]).0 != k by {
        assert(e[j].0 != k);
    }
    lemma_key_index_unique(p, k, i);
    if other != k {
        let o = key_index(e, other);
        if o < e.len() {
            assert forall|j: int| 0 <= j < o implies (#[trigger] p[j]).0 != other by {
                assert(e[j].0 != other);
            }
            lemma_key_index_unique(p, other, o);
        } else {
            assert forall|j: int| 0 <= j < p.len() implies (#[trigger] p[j]).0 != other by {
                if j < e.len() {
                    assert(e[j].0 != other);
                }
            }
            lemma_key_index_unique(p, other, p.len() as int);
        }
    }
}

// ---------------------------------------------------------------------------
// Text
// ---------------------------------------------------------------------------

/// `str::to_lowercase` of a text that is not all ASCII.
pub uninterp spec fn unicode_lowercase(s: Seq<char>) -> Seq<char>;

/// The lower-case form of a text. That of ASCII text is the text with its letters `A` to
/// `Z` lowered.
pub open spec fn lowercase(s: Seq<char>) -> Seq<char> {
    if is_ascii_chars(s) {
        text::lower_ascii(s)
    } else {
        unicode_lowercase(s)
    }
}

/// `str::to_lowercase`: the Unicode lower-case form, which for ASCII text lowers the
/// letters `A` to `Z`.
#[verifier::external_body]
pub(crate) fn to_lowercase(s: &str) -> (r: String)
    ensures
        is_ascii_chars(s@) ==> r@ == text::lower_ascii(s@),
        !is_ascii_chars(s@) ==> r@ == unicode_lowercase(s@),
{
    s.to_lowercase()
}

/// A byte with which no character begins in UTF-8: one that continues a character, or one
/// that stands in no character at all.
pub open spec fn begins_nothing(b: u8) -> bool {
    0x80 <= b <= 0xc1 || 0xf5 <= b
}

/// `String::from_utf8_lossy` of bytes that begin with the first byte of a character and hold
/// no whole character there.
pub uninterp spec fn utf8_with_replacements(bytes: Seq<u8>) -> Seq<char>;

/// Bytes read as UTF-8: each character as it is, U+FFFD in place of a byte with which none
/// begins, and from where a character is begun and not completed on what the replacement of
/// invalid sequences makes of the rest.
pub open spec fn utf8_lossy(bytes: Seq<u8>) -> Seq<char>
    decreases bytes.len(),
{
    if bytes.len() == 0 {
        seq![]
    } else if valid_first_scalar(bytes) {
        seq![decode_first_scalar(bytes) as char] + utf8_lossy(pop_first_scalar(bytes))
    } else if begins_nothing(bytes[0]) {
        seq!['\u{fffd}'] + utf8_lossy(bytes.skip(1))
    } else {
        utf8_with_replacements(bytes)
    }
}

/// `String::from_utf8_lossy`: characters in UTF-8 are decoded, and sequences that are invalid
/// are replaced by U+FFFD. A byte with which no character begins is such a sequence of its
/// own. How many bytes one U+FFFD stands for where a character is begun and not completed is
/// left unsaid: the result is named from there on.
#[verifier::external_body]
pub(crate) fn from_utf8_lossy(bytes: &[u8]) -> (r: String)
    ensures
        r@ == utf8_lossy(bytes@),
        bytes@.len() > 0 && !valid_first_scalar(bytes@) && !begins_nothing(bytes@[0]) ==> r@
            == utf8_with_replacements(bytes@),
{
    String::from_utf8_lossy(bytes).into_owned()
}

/// A text in UTF-8 is decoded whole, whatever follows it.
pub proof fn lemma_lossy_prefix(s: Seq<char>, rest: Seq<u8>)
    ensures
        utf8_lossy(encode_utf8(s) + rest) == s + utf8_lossy(rest),
    decreases s.len(),
{
    let b = encode_utf8(s);
    if s.len() == 0 {
        assert(b + rest =~= rest);
        assert(s + utf8_lossy(rest) =~= utf8_lossy(rest));
    } else {
        let all = b + rest;
        encode_utf8_first_scalar(s);
        let n = length_of_first_scalar(b);
        assert(forall|i: int| 0 <= i < b.len() ==> all[i] == b[i]);
        assert(valid_first_scalar(all));
        assert(length_of_first_scalar(all) == n);
        assert(decode_first_scalar(all) == decode_first_scalar(b));
        assert(b.skip(n) =~= encode_utf8(s.drop_first()));
        assert(pop_first_scalar(all) =~= encode_utf8(s.drop_first()) + rest);
        lemma_lossy_prefix(s.drop_first(), rest);
        char_u32_cast(s[0], s[0] as u32);
        assert(seq![s[0]] + (s.drop_first() + utf8_lossy(rest)) =~= s + utf8_lossy(rest));
    }
}

proof fn lemma_no_first_scalar(bytes: Seq<u8>)
    requires
        bytes.len() > 0,
        begins_nothing(bytes[0]),
    ensures
        !valid_first_scalar(bytes),
{
    let b = bytes[0];
    if is_leading_byte_width_2(b) {
        let c = bytes[1];
        assert(((b & 0x1f) as u32) << 6 | (c & 0x3f) as u32 <= 0x7f) by (bit_vector)
            requires
                0xc0 <= b <= 0xc1,
        ;
    } else if is_leading_byte_width_4(b) {
        let c = bytes[1];
        let d = bytes[2];
        let e = bytes[3];
        assert(((b & 0x07) as u32) << 18 | ((c & 0x3f) as u32) << 12 | ((d & 0x3f) as u32) << 6 | (e
            & 0x3f) as u32 >= 0x140000) by (bit_vector)
            requires
                0xf5 <= b <= 0xf7,
        ;
    }
}

/// A byte with which no character begins is replaced wherever it stands behind text in UTF-8,
/// and reading goes on behind it.
pub proof fn law_stray_byte_is_replaced(s: Seq<char>, b: u8, rest: Seq<u8>)
    requires
        begins_nothing(b),
    ensures
        utf8_lossy(encode_utf8(s) + seq![b] + rest) == s + seq!['\u{fffd}'] + utf8_lossy(rest),
{
    let tail = seq![b] + rest;
    assert(encode_utf8(s) + seq![b] + rest =~= encode_utf8(s) + tail);
    lemma_lossy_prefix(s, tail);
    lemma_no_first_scalar(tail);
    assert(tail.skip(1) =~= rest);
    assert(s + (seq!['\u{fffd}'] + utf8_lossy(rest)) =~= s + seq!['\u{fffd}'] + utf8_lossy(rest));
}

/// Bytes that are UTF-8 are decoded.
pub proof fn law_utf8_is_decoded(bytes: Seq<u8>)
    requires
        valid_utf8(bytes),
    ensures
        utf8_lossy(bytes) == decode_utf8(bytes),
{
    decode_utf8_encode_utf8(bytes);
    lemma_lossy_prefix(decode_utf8(bytes), seq![]);
    assert(bytes + Seq::<u8>::empty() =~= bytes);
    assert(decode_utf8(bytes) + Seq::<char>::empty() =~= decode_utf8(bytes));
}

// ---------------------------------------------------------------------------
// JSON documents
// ---------------------------------------------------------------------------

/// The document that `serde_json::from_str` reads out of a text, where it is well formed.
pub uninterp spec fn parsed_json(text: Seq<char>) -> Option<serde_json::Value>;

/// `serde_json::from_str::<serde_json::Value>`: the document, or an error.
#[verifier::external_body]
pub(crate) fn parse_json(text: &str) -> (r: Result<serde_json::Value, serde_json::Error>)
    ensures
        r.ok() == parsed_json(text@),
{
    serde_json::from_str::<serde_json::Value>(text)
}

/// What a parsed document holds.
pub uninterp spec fn document(v: serde_json::Value) -> JsonDoc;

/// A `serde_json::Value` taken apart: each number with what `Number::as_i64` and
/// `Number::as_f64` give for it, the latter as the decimal numeral that std prints for it,
/// and the members of an object in the order in which its map gives them.
#[verifier::external_body]
pub(crate) fn read_document(v: &serde_json::Value) -> (r: JsonBody)
    ensures
        r.doc() == document(*v),
{
    match v {
        serde_json::Value::Null => JsonBody::Null,
        serde_json::Value::Bool(b) => JsonBody::Bool(*b),
        serde_json::Value::Number(n) => {
            JsonBody::Number { integer: n.as_i64(), float: n.as_f64().map(|f| f.to_string()) }
        },
        serde_json::Value::String(s) => JsonBody::Str(s.clone()),
        serde_json::Value::Array(a) => JsonBody::Array(a.iter().map(read_document).collect()),
        serde_json::Value::Object(o) => {
            JsonBody::Object(o.iter().map(|(k, x)| (k.clone(), read_document(x))).collect())
        },
    }
}

// ---------------------------------------------------------------------------
// gzip
// ---------------------------------------------------------------------------

/// What `flate2`'s gzip encoder makes of some data at its default level.
pub uninterp spec fn gzipped(data: Seq<u8>) -> Seq<u8>;

/// What `flate2`'s gzip decoder reads out of a gzip stream.
pub uninterp spec fn gunzipped(stream: Seq<u8>) -> Seq<u8>;

/// `flate2::write::GzEncoder` into a `Vec`, written and finished, which does not fail: a gzip
/// stream, which starts with the two magic bytes and from which the decoder reads the data
/// back.
#[verifier::external_body]
pub(crate) fn gzip(data: &[u8]) -> (r: Option<Vec<u8>>)
    ensures
        r is Some,
        r matches Some(z) ==> z@ == gzipped(data@),
        r matches Some(z) ==> z@.len() >= 2 && z@[0] == 0x1f && z@[1] == 0x8b,
        r matches Some(z) ==> gunzipped(z@) == data@,
{
    let mut e = GzEncoder::new(Vec::new(), Compression::default());
    e.write_all(data).ok()?;
    e.finish().ok()
}

// ---------------------------------------------------------------------------
// TLS
// ---------------------------------------------------------------------------

/// A certificate of crate `rustls`.
#[verifier::external_type_specification]
#[verifier::external_body]
pub struct ExCertificateDer<'a>(CertificateDer<'a>);

/// A private key of crate `rustls`.
#[verifier::external_type_specification]
#[verifier::external_body]
pub struct ExPrivateKeyDer<'a>(PrivateKeyDer<'a>);

/// A server configuration of crate `rustls`.
#[verifier::external_type_specification]
#[verifier::external_body]
pub struct ExServerConfig(ServerConfig);

/// A certificate chain with its signing key, of crate `rustls`.
#[verifier::external_type_specification]
#[verifier::external_body]
pub struct ExCertifiedKey(CertifiedKey);

/// The certificates that `rustls_pemfile::certs` reads out of a PEM text, or the text of its
/// error.
pub uninterp spec fn pem_certificates(pem: Seq<u8>) -> Result<
    Seq<CertificateDer<'static>>,
    Seq<char>,
>;

/// `rustls_pemfile::certs`, up to its first error: the certificates in the order of the text.
#[verifier::external_body]
pub(crate) fn read_certificates(pem: &[u8]) -> (r: Result<Vec<CertificateDer<'static>>, String>)
    ensures
        match r {
            Ok(v) => pem_certificates(pem@) == Ok::<Seq<CertificateDer<'static>>, Seq<char>>(v@),
            Err(e) => pem_certificates(pem@) == Err::<Seq<CertificateDer<'static>>, Seq<char>>(e@),
        },
{
    let mut rest: &[u8] = pem;
    let found: Result<Vec<_>, _> = rustls_pemfile::certs(&mut rest).collect();
    found.map_err(|e| e.to_string())
}

/// The first private key that `rustls_pemfile::private_key` finds in a PEM text, or the text
/// of its error.
pub uninterp spec fn pem_private_key(pem: Seq<u8>) -> Result<
    Option<PrivateKeyDer<'static>>,
    Seq<char>,
>;

/// `rustls_pemfile::private_key`: the first private key, where there is one.
#[verifier::external_body]
pub(crate) fn read_private_key(pem: &[u8]) -> (r: Result<Option<PrivateKeyDer<'static>>, String>)
    ensures
        match r {
            Ok(k) => pem_private_key(pem@) == Ok::<Option<PrivateKeyDer<'static>>, Seq<char>>(k),
            Err(e) => pem_private_key(pem@) == Err::<Option<PrivateKeyDer<'static>>, Seq<char>>(e@),
        },
{
    let mut rest: &[u8] = pem;
    rustls_pemfile::private_key(&mut rest).map_err(|e| e.to_string())
}

/// `rustls` gave this text as its error on being asked for a configuration for this chain and
/// this key. `pair` says that it was the chain and key that were refused.
pub uninterp spec fn refused_pair(
    certs: Seq<CertificateDer<'static>>,
    key: PrivateKeyDer<'static>,
    pair: bool,
    why: Seq<char>,
) -> bool;

/// The configuration is one that `rustls` made for this chain and this key, with the `ring`
/// provider, the safe default protocol versions and no authentication of clients.
pub uninterp spec fn made_for(
    config: ServerConfig,
    certs: Seq<CertificateDer<'static>>,
    key: PrivateKeyDer<'static>,
) -> bool;

/// `rustls::ServerConfig::builder_with_provider` with the `ring` provider,
/// `with_safe_default_protocol_versions`, `with_no_client_auth` and `with_single_cert`: a
/// configuration for the chain and the key, or the error of the second or of the last of
/// them. The random source of the system takes part when the key is read: two calls give two
/// configurations, and which of the two outcomes comes is left unsaid.
#[verifier::external_body]
pub(crate) fn make_config(
    certs: Vec<CertificateDer<'static>>,
    key: PrivateKeyDer<'static>,
) -> (r: Result<ServerConfig, (bool, String)>)
    ensures
        match r {
            Ok(c) => made_for(c, certs@, key),
            Err((pair, e)) => refused_pair(certs@, key, pair, e@),
        },
{
    let provider = std::sync::Arc::new(rustls::crypto::ring::default_provider());
    let builder = ServerConfig::builder_with_provider(provider)
        .with_safe_default_protocol_versions()
        .map_err(|e| (false, e.to_string()))?;
    builder.with_no_client_auth().with_single_cert(certs, key).map_err(|e| (true, e.to_string()))
}

/// `rustls` gave this text as its error on being asked for the signing key of this key.
pub uninterp spec fn refused_key(key: PrivateKeyDer<'static>, why: Seq<char>) -> bool;

/// The certified key is one that `rustls` made of this chain and of a signing key that its
/// `ring` provider read out of this key.
pub uninterp spec fn certified_for(
    c: CertifiedKey,
    certs: Seq<CertificateDer<'static>>,
    key: PrivateKeyDer<'static>,
) -> bool;

/// `rustls::crypto::ring::sign::any_supported_type` of the key, and with its result
/// `rustls::sign::CertifiedKey::new`. The random source of the system takes part when the key
/// is read: two calls give two signing keys, and which of the two outcomes comes is left
/// unsaid.
#[verifier::external_body]
pub(crate) fn certify(certs: Vec<CertificateDer<'static>>, key: PrivateKeyDer<'static>) -> (r:
    Result<CertifiedKey, String>)
    ensures
        match r {
            Ok(c) => certified_for(c, certs@, key),
            Err(e) => refused_key(key, e@),
        },
{
    let signing = rustls::crypto::ring::sign::any_supported_type(&key).map_err(|e| e.to_string())?;
    Ok(CertifiedKey::new(certs, signing))
}

/// A map keeps its keys in the order in which they came: a new key goes to the end, a known
/// one keeps its place, and what is stored for the others stays as it is.
pub proof fn law_keys_keep_their_places(
    e: Seq<(Seq<char>, Seq<char>)>,
    k: Seq<char>,
    v: Seq<char>,
    i: int,
)
    ensures
        (forall|j: int| 0 <= j < e.len() ==> (#[trigger] e[j]).0 != k) ==> put(e, k, v) == e.push(
            (k, v),
        ) && lookup(e, k) is None,
        0 <= i < e.len() && e[i].0 == k && (forall|j: int|
            0 <= j < i ==> (#[trigger] e[j]).0 != k) ==> put(e, k, v) == e.update(i, (k, v))
            && lookup(e, k) == Some(e[i].1),
{
    lemma_first_key(e, k);
    let f = key_index(e, k);
    if forall|j: int| 0 <= j < e.len() ==> (#[trigger] e[j]).0 != k {
        assert(f == e.len()) by {
            if f < e.len() {
                assert(e[f].0 != k);
            }
        }
    }
    if 0 <= i < e.len() && e[i].0 == k && (forall|j: int| 0 <= j < i ==> (#[trigger] e[j]).0 != k) {
        if f < i {
            assert(e[f].0 != k);
        }
        if i < f {
            assert(e[i].0 != k);
        }
    }
}

proof fn lemma_first_key(e: Seq<(Seq<char>, Seq<char>)>, k: Seq<char>)
    ensures
        0 <= key_index(e, k) <= e.len(),
        forall|i: int| 0 <= i < key_index(e, k) ==> (#[trigger] e[i]).0 != k,
        key_index(e, k) < e.len() ==> e[key_index(e, k)].0 == k,
    decreases e.len(),
{
    if e.len() > 0 && e[0].0 != k {
        let rest = e.drop_first();
        lemma_first_key(rest, k);
        assert forall|i: int| 0 <= i < key_index(e, k) implies (#[trigger] e[i]).0 != k by {
            if i > 0 {
                assert(rest[i - 1] == e[i]);
            }
        }
    }
}

/// ASCII text is lowered letter by letter.
pub proof fn law_ascii_is_lowered(s: Seq<char>)
    requires
        forall|i: int| 0 <= i < s.len() ==> '\0' <= #[trigger] s[i] <= '\u{7f}',
    ensures
        lowercase(s) == text::lower_ascii(s),
        lowercase(s).len() == s.len(),
{
}

} // verus!
