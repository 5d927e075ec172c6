//! Representations: content types, formats, and responses that are written as they are.

use vstd::prelude::*;
use vstd::slice::slice_subrange;
use vstd::utf8::*;

use crate::outside;
use crate::text;
use crate::text::Trim;

verus! {

/// A response that is written as it is, under an explicit content type.
#[derive(Clone, Debug)]
pub struct RawResponse {
    pub body: Vec<u8>,
    pub content_type: String,
    pub status: u16,
}

/// The mathematical content of a raw response.
#[verifier::ext_equal]
pub struct RawView {
    pub body: Seq<u8>,
    pub content_type: Seq<char>,
    pub status: u16,
}

impl View for RawResponse {
    type V = RawView;

    open spec fn view(&self) -> RawView {
        RawView { body: self.body@, content_type: self.content_type@, status: self.status }
    }
}

/// The raw response with a text for its body.
pub open spec fn raw_text(body: Seq<char>, content_type: Seq<char>, status: u16) -> RawView {
    RawView { body: encode_utf8(body), content_type, status }
}

/// The UTF-8 encoding of a text.
pub fn bytes_of(s: &str) -> (r: Vec<u8>)
    ensures
        r@ == encode_utf8(s@),
{
    vstd::slice::slice_to_vec(s.as_bytes())
}

impl RawResponse {
    /// A response with a text for its body.
    pub fn text(body: &str, content_type: &str, status: u16) -> (r: Self)
        ensures
            r@ == raw_text(body@, content_type@, status),
    {
        RawResponse { body: bytes_of(body), content_type: content_type.to_owned(), status }
    }
}

// ---------------------------------------------------------------------------
// Content types
// ---------------------------------------------------------------------------

/// The content type of a file name extension that is used on the web, whatever the host
/// machine thinks of it.
pub open spec fn web_type(ext: Seq<char>) -> Option<Seq<char>> {
    if ext == ".html"@ || ext == ".htm"@ {
        Some("text/html; charset=utf-8"@)
    } else if ext == ".css"@ {
        Some("text/css; charset=utf-8"@)
    } else if ext == ".js"@ || ext == ".mjs"@ {
        Some("text/javascript; charset=utf-8"@)
    } else if ext == ".json"@ || ext == ".map"@ {
        Some("application/json; charset=utf-8"@)
    } else if ext == ".svg"@ {
        Some("image/svg+xml"@)
    } else if ext == ".png"@ {
        Some("image/png"@)
    } else if ext == ".jpg"@ || ext == ".jpeg"@ {
        Some("image/jpeg"@)
    } else if ext == ".gif"@ {
        Some("image/gif"@)
    } else if ext == ".webp"@ {
        Some("image/webp"@)
    } else if ext == ".ico"@ {
        Some("image/x-icon"@)
    } else if ext == ".woff"@ {
        Some("font/woff"@)
    } else if ext == ".woff2"@ {
        Some("font/woff2"@)
    } else if ext == ".ttf"@ {
        Some("font/ttf"@)
    } else if ext == ".txt"@ {
        Some("text/plain; charset=utf-8"@)
    } else if ext == ".xml"@ {
        Some("application/xml; charset=utf-8"@)
    } else if ext == ".wasm"@ {
        Some("application/wasm"@)
    } else if ext == ".pdf"@ {
        Some("application/pdf"@)
    } else {
        None
    }
}

/// The content type of a web file, by its extension with the dot.
pub fn web_content_type(ext: &str) -> (r: Option<&'static str>)
    ensures
        r is Some == web_type(ext@) is Some,
        r matches Some(t) ==> web_type(ext@) == Some(t@),
{
    if text::str_eq(ext, ".html") || text::str_eq(ext, ".htm") {
        Some("text/html; charset=utf-8")
    } else if text::str_eq(ext, ".css") {
        Some("text/css; charset=utf-8")
    } else if text::str_eq(ext, ".js") || text::str_eq(ext, ".mjs") {
        Some("text/javascript; charset=utf-8")
    } else if text::str_eq(ext, ".json") || text::str_eq(ext, ".map") {
        Some("application/json; charset=utf-8")
    } else if text::str_eq(ext, ".svg") {
        Some("image/svg+xml")
    } else if text::str_eq(ext, ".png") {
        Some("image/png")
    } else if text::str_eq(ext, ".jpg") || text::str_eq(ext, ".jpeg") {
        Some("image/jpeg")
    } else if text::str_eq(ext, ".gif") {
        Some("image/gif")
    } else if text::str_eq(ext, ".webp") {
        Some("image/webp")
    } else if text::str_eq(ext, ".ico") {
        Some("image/x-icon")
    } else if text::str_eq(ext, ".woff") {
        Some("font/woff")
    } else if text::str_eq(ext, ".woff2") {
        Some("font/woff2")
    } else if text::str_eq(ext, ".ttf") {
        Some("font/ttf")
    } else if text::str_eq(ext, ".txt") {
        Some("text/plain; charset=utf-8")
    } else if text::str_eq(ext, ".xml") {
        Some("application/xml; charset=utf-8")
    } else if text::str_eq(ext, ".wasm") {
        Some("application/wasm")
    } else if text::str_eq(ext, ".pdf") {
        Some("application/pdf")
    } else {
        None
    }
}

/// The media type of a content type: what stands before its parameters.
pub open spec fn media_type(content_type: Seq<char>) -> Seq<char> {
    text::trimmed(text::before(content_type, ';'), Trim::Space)
}

/// The media types that are worth compressing.
pub open spec fn compressible(content_type: Seq<char>) -> bool {
    let c = media_type(content_type);
    ||| c == "text/html"@
    ||| c == "text/css"@
    ||| c == "text/javascript"@
    ||| c == "application/javascript"@
    ||| c == "application/json"@
    ||| c == "image/svg+xml"@
    ||| c == "text/plain"@
    ||| c == "application/xml"@
    ||| c == "text/xml"@
}

/// Whether content of that type is worth compressing.
pub fn is_compressible(content_type: &str) -> (r: bool)
    ensures
        r == compressible(content_type@),
{
    let cs = text::chars_of(content_type);
    let k = text::find_char(cs.as_slice(), ';');
    let c = text::string_of(text::trim(slice_subrange(cs.as_slice(), 0, k), Trim::Space));
    assert(c@ == media_type(content_type@));
    let s = c.as_str();
    text::str_eq(s, "text/html") || text::str_eq(s, "text/css") || text::str_eq(
        s,
        "text/javascript",
    ) || text::str_eq(s, "application/javascript") || text::str_eq(s, "application/json")
        || text::str_eq(s, "image/svg+xml") || text::str_eq(s, "text/plain") || text::str_eq(
        s,
        "application/xml",
    ) || text::str_eq(s, "text/xml")
}

/// The content type of a file with extension `ext`, given what the machine's own table
/// says of the extension: web types are fixed, other texts get a charset, and what is
/// unknown is a stream of bytes.
pub open spec fn file_type(ext: Seq<char>, guessed: Option<Seq<char>>) -> Seq<char> {
    match web_type(ext) {
        Some(t) => t,
        None => match guessed {
            None => "application/octet-stream"@,
            Some(ct) => if text::has_prefix(ct, "text/"@) && !text::contains_text(ct, "charset"@) {
                ct + "; charset=utf-8"@
            } else {
                ct
            },
        },
    }
}

/// The extension of a file, lowered and with its dot, or nothing where there is none.
pub open spec fn dotted_extension(ext: Option<Seq<char>>) -> Seq<char> {
    match ext {
        Some(e) => seq!['.'] + outside::lowercase(e),
        None => seq![],
    }
}

/// The extension of a file, lowered and with its dot.
pub fn dotted(ext: &Option<String>) -> (r: String)
    ensures
        r@ == dotted_extension(
            match *ext {
                Some(e) => Some(e@),
                None => None,
            },
        ),
{
    match ext {
        Some(e) => {
            let mut r = String::new();
            r.push('.');
            let low = outside::to_lowercase(e.as_str());
            r.append(low.as_str());
            assert(r@ == seq!['.'] + low@);
            r
        },
        None => String::new(),
    }
}

/// The content type of a file, by its extension with the dot and by what the machine's own
/// table says of that extension.
pub fn static_content_type(ext: &str, guessed: Option<&str>) -> (r: String)
    ensures
        r@ == file_type(
            ext@,
            match guessed {
                Some(g) => Some(g@),
                None => None,
            },
        ),
{
    if let Some(t) = web_content_type(ext) {
        return t.to_owned();
    }
    match guessed {
        None => "application/octet-stream".to_owned(),
        Some(ct) => {
            let cs = text::chars_of(ct);
            let is_text = text::starts_with(cs.as_slice(), text::chars_of("text/").as_slice());
            let has_charset = text::contains(
                cs.as_slice(),
                text::chars_of("charset").as_slice(),
            );
            let mut r = ct.to_owned();
            if is_text && !has_charset {
                r.append("; charset=utf-8");
            }
            r
        },
    }
}

// ---------------------------------------------------------------------------
// Formats
// ---------------------------------------------------------------------------

/// The path ends in that suffix, with a name before it.
pub open spec fn carries_suffix(path: Seq<char>, suffix: Seq<char>) -> bool {
    &&& text::has_suffix(path, suffix)
    &&& path.len() > suffix.len()
    &&& path[path.len() - suffix.len() - 1] != '/'
}

/// The path without its format suffix, and the format, where it carries one.
pub open spec fn format_suffix(path: Seq<char>) -> (Seq<char>, Option<Seq<char>>) {
    if carries_suffix(path, ".md"@) {
        (path.take(path.len() - 3), Some("md"@))
    } else if carries_suffix(path, ".json"@) {
        (path.take(path.len() - 5), Some("json"@))
    } else if carries_suffix(path, ".html"@) {
        (path.take(path.len() - 5), Some("html"@))
    } else {
        (path, None)
    }
}

fn without_suffix(cs: &Vec<char>, suffix: &str) -> (r: Option<String>)
    requires
        suffix@.len() > 0,
    ensures
        r is Some == carries_suffix(cs@, suffix@),
        r matches Some(s) ==> s@ == cs@.take(cs@.len() - suffix@.len()),
{
    let sfx = text::chars_of(suffix);
    if cs.len() > sfx.len() && text::ends_with(cs.as_slice(), sfx.as_slice()) {
        let k: usize = cs.len() - sfx.len();
        if cs[k - 1] != '/' {
            return Some(text::string_of(slice_subrange(cs.as_slice(), 0, k)));
        }
    }
    None
}

/// Takes a final `.md`, `.json` or `.html` off a path.
pub fn split_format_suffix(path: &str) -> (r: (String, Option<String>))
    ensures
        r.0@ == format_suffix(path@).0,
        r.1 is Some == format_suffix(path@).1 is Some,
        r.1 matches Some(f) ==> format_suffix(path@).1 == Some(f@),
{
    let cs = text::chars_of(path);
    proof {
        reveal_strlit(".md");
        reveal_strlit(".json");
        reveal_strlit(".html");
    }
    if let Some(s) = without_suffix(&cs, ".md") {
        return (s, Some("md".to_owned()));
    }
    if let Some(s) = without_suffix(&cs, ".json") {
        return (s, Some("json".to_owned()));
    }
    if let Some(s) = without_suffix(&cs, ".html") {
        return (s, Some("html".to_owned()));
    }
    (path.to_owned(), None)
}

/// The format that an `Accept` header asks for: HTML unless it names another format and not
/// HTML.
pub open spec fn accepted_format(accept: Seq<char>) -> Seq<char> {
    let a = outside::lowercase(accept);
    if text::contains_text(a, "text/html"@) {
        "html"@
    } else if text::contains_text(a, "text/markdown"@) {
        "md"@
    } else if text::contains_text(a, "application/json"@) {
        "json"@
    } else {
        "html"@
    }
}

/// The format that an `Accept` header asks for.
pub fn negotiate_format(accept: &str) -> (r: String)
    ensures
        r@ == accepted_format(accept@),
{
    let lower = outside::to_lowercase(accept);
    let a = text::chars_of(lower.as_str());
    let html = text::contains(a.as_slice(), text::chars_of("text/html").as_slice());
    let markdown = text::contains(a.as_slice(), text::chars_of("text/markdown").as_slice());
    let json = text::contains(a.as_slice(), text::chars_of("application/json").as_slice());
    if markdown && !html {
        "md".to_owned()
    } else if json && !html {
        "json".to_owned()
    } else {
        "html".to_owned()
    }
}

/// A format suffix, put back behind the path that it was taken off, gives the path again.
pub proof fn law_suffix_comes_off_whole(path: Seq<char>)
    ensures
        format_suffix(path).1 matches Some(f) ==> path == format_suffix(path).0 + seq!['.'] + f,
        format_suffix(path).1 is None ==> format_suffix(path).0 == path,
{
    reveal_strlit(".md");
    reveal_strlit(".json");
    reveal_strlit(".html");
    reveal_strlit("md");
    reveal_strlit("json");
    reveal_strlit("html");
    if let Some(f) = format_suffix(path).1 {
        let stem = format_suffix(path).0;
        let sfx = path.skip(stem.len() as int);
        assert(sfx == seq!['.'] + f);
        assert(path == stem + sfx);
        assert(stem + (seq!['.'] + f) == stem + seq!['.'] + f);
    }
}

/// HTML is what a client gets that mentions HTML or mentions none of the formats.
pub proof fn law_html_wins(accept: Seq<char>)
    ensures
        text::contains_text(outside::lowercase(accept), "text/html"@) ==> accepted_format(accept)
            == "html"@,
        !text::contains_text(outside::lowercase(accept), "text/markdown"@)
            && !text::contains_text(outside::lowercase(accept), "application/json"@)
            ==> accepted_format(accept) == "html"@,
{
}

/// A path that ends in `.md`, `.json` or `.html` behind a name names that format, and its name
/// goes on without it; one that ends in none of them names no format.
pub proof fn law_suffixes_name_formats(name: Seq<char>, path: Seq<char>)
    requires
        name.len() > 0,
        name.last() != '/',
    ensures
        format_suffix(name + seq!['.', 'm', 'd']) == (name, Some("md"@)),
        format_suffix(name + seq!['.', 'j', 's', 'o', 'n']) == (name, Some("json"@)),
        format_suffix(name + seq!['.', 'h', 't', 'm', 'l']) == (name, Some("html"@)),
        (forall|i: int| 0 <= i < path.len() ==> path[i] != '.') ==> format_suffix(path) == (
            path,
            None::<Seq<char>>,
        ),
{
    reveal_strlit(".md");
    reveal_strlit(".json");
    reveal_strlit(".html");
    assert(".md"@ =~= seq!['.', 'm', 'd']);
    assert(".json"@ =~= seq!['.', 'j', 's', 'o', 'n']);
    assert(".html"@ =~= seq!['.', 'h', 't', 'm', 'l']);
    let a = name + ".md"@;
    let b = name + ".json"@;
    let c = name + ".html"@;
    assert(a.skip(a.len() - 3) =~= ".md"@);
    assert(a.take(a.len() - 3) =~= name);
    assert(a[a.len() - 4] == name.last());
    assert(b.skip(b.len() - 5) =~= ".json"@);
    assert(b.take(b.len() - 5) =~= name);
    assert(b[b.len() - 6] == name.last());
    assert(b.last() == 'n');
    assert(c.skip(c.len() - 5) =~= ".html"@);
    assert(c.take(c.len() - 5) =~= name);
    assert(c[c.len() - 6] == name.last());
    assert(c.last() == 'l');
    if text::has_suffix(b, ".md"@) {
        assert(b.skip(b.len() - 3).last() == 'd');
    }
    if text::has_suffix(c, ".md"@) {
        assert(c.skip(c.len() - 3).last() == 'd');
    }
    if text::has_suffix(c, ".json"@) {
        assert(c.skip(c.len() - 5).last() == 'n');
    }
    if forall|i: int| 0 <= i < path.len() ==> path[i] != '.' {
        if text::has_suffix(path, ".md"@) {
            assert(path.skip(path.len() - 3)[0] == '.');
        }
        if text::has_suffix(path, ".json"@) {
            assert(path.skip(path.len() - 5)[0] == '.');
        }
        if text::has_suffix(path, ".html"@) {
            assert(path.skip(path.len() - 5)[0] == '.');
        }
    }
}

/// A client that mentions no HTML gets Markdown where it mentions that, and else JSON where it
/// mentions that.
pub proof fn law_other_formats_are_accepted(accept: Seq<char>)
    requires
        !text::contains_text(outside::lowercase(accept), "text/html"@),
    ensures
        text::contains_text(outside::lowercase(accept), "text/markdown"@) ==> accepted_format(accept)
            == "md"@,
        !text::contains_text(outside::lowercase(accept), "text/markdown"@) && text::contains_text(
            outside::lowercase(accept),
            "application/json"@,
        ) ==> accepted_format(accept) == "json"@,
{
}

/// A raw response holds its text in UTF-8, under its type and its status.
pub proof fn law_raw_text_is_kept(
    body: Seq<char>,
    content_type: Seq<char>,
    status: u16,
    r: RawResponse,
)
    ensures
        raw_text(body, content_type, status).body == encode_utf8(body),
        decode_utf8(raw_text(body, content_type, status).body) == body,
        raw_text(body, content_type, status).content_type == content_type,
        raw_text(body, content_type, status).status == status,
        r@.body == r.body@,
        r@.content_type == r.content_type@,
        r@.status == r.status,
{
    encode_utf8_decode_utf8(body);
}

/// The types of the files of a web page do not depend on the machine: pages, style sheets,
/// scripts and documents have theirs, with UTF-8 for every text, and so have pictures and
/// fonts. Any other file has the type that the machine knows, with UTF-8 for a text that names
/// no character set, and is a stream of bytes where it knows none.
pub proof fn law_types_of_files(ext: Seq<char>, known: Seq<char>)
    ensures
        ext == ".html"@ || ext == ".htm"@ ==> file_type(ext, Some(known))
            == "text/html; charset=utf-8"@,
        ext == ".css"@ ==> file_type(ext, Some(known)) == "text/css; charset=utf-8"@,
        ext == ".js"@ || ext == ".mjs"@ ==> file_type(ext, Some(known))
            == "text/javascript; charset=utf-8"@,
        ext == ".json"@ || ext == ".map"@ ==> file_type(ext, Some(known))
            == "application/json; charset=utf-8"@,
        ext == ".svg"@ ==> file_type(ext, Some(known)) == "image/svg+xml"@,
        ext == ".png"@ ==> file_type(ext, Some(known)) == "image/png"@,
        ext == ".jpg"@ || ext == ".jpeg"@ ==> file_type(ext, Some(known)) == "image/jpeg"@,
        ext == ".gif"@ ==> file_type(ext, Some(known)) == "image/gif"@,
        ext == ".webp"@ ==> file_type(ext, Some(known)) == "image/webp"@,
        ext == ".ico"@ ==> file_type(ext, Some(known)) == "image/x-icon"@,
        ext == ".woff"@ ==> file_type(ext, Some(known)) == "font/woff"@,
        ext == ".woff2"@ ==> file_type(ext, Some(known)) == "font/woff2"@,
        ext == ".ttf"@ ==> file_type(ext, Some(known)) == "font/ttf"@,
        ext == ".txt"@ ==> file_type(ext, Some(known)) == "text/plain; charset=utf-8"@,
        ext == ".xml"@ ==> file_type(ext, Some(known)) == "application/xml; charset=utf-8"@,
        ext == ".wasm"@ ==> file_type(ext, Some(known)) == "application/wasm"@,
        ext == ".pdf"@ ==> file_type(ext, Some(known)) == "application/pdf"@,
        web_type(ext) is None ==> file_type(ext, None) == "application/octet-stream"@ && file_type(
            ext,
            Some(known),
        ) == known + (if text::has_prefix(known, "text/"@) && !text::contains_text(
            known,
            "charset"@,
        ) {
            "; charset=utf-8"@
        } else {
            seq![]
        }),
        ext.len() == 0 || ext[0] != '.' ==> web_type(ext) is None,
{
    assert(known + Seq::<char>::empty() =~= known);
    reveal_strlit(".html");
    reveal_strlit(".htm");
    reveal_strlit(".css");
    reveal_strlit(".js");
    reveal_strlit(".mjs");
    reveal_strlit(".json");
    reveal_strlit(".map");
    reveal_strlit(".svg");
    reveal_strlit(".png");
    reveal_strlit(".jpg");
    reveal_strlit(".jpeg");
    reveal_strlit(".gif");
    reveal_strlit(".webp");
    reveal_strlit(".ico");
    reveal_strlit(".woff");
    reveal_strlit(".woff2");
    reveal_strlit(".ttf");
    reveal_strlit(".txt");
    reveal_strlit(".xml");
    reveal_strlit(".wasm");
    reveal_strlit(".pdf");
    assert(".html"@.len() == 5 && ".htm"@.len() == 4 && ".css"@.len() == 4 && ".js"@.len() == 3
        && ".mjs"@.len() == 4 && ".json"@.len() == 5 && ".map"@.len() == 4 && ".svg"@.len() == 4
        && ".png"@.len() == 4 && ".jpg"@.len() == 4 && ".jpeg"@.len() == 5 && ".gif"@.len() == 4
        && ".webp"@.len() == 5 && ".ico"@.len() == 4 && ".woff"@.len() == 5 && ".woff2"@.len() == 6
        && ".ttf"@.len() == 4 && ".txt"@.len() == 4 && ".xml"@.len() == 4 && ".wasm"@.len() == 5
        && ".pdf"@.len() == 4);
    assert(".html"@[1] == 'h' && ".htm"@[1] == 'h' && ".css"@[1] == 'c' && ".js"@[1] == 'j'
        && ".mjs"@[1] == 'm' && ".json"@[1] == 'j' && ".map"@[1] == 'm' && ".svg"@[1] == 's'
        && ".png"@[1] == 'p' && ".jpg"@[1] == 'j' && ".jpeg"@[1] == 'j' && ".gif"@[1] == 'g'
        && ".webp"@[1] == 'w' && ".ico"@[1] == 'i' && ".woff"@[1] == 'w' && ".ttf"@[1] == 't'
        && ".txt"@[1] == 't' && ".xml"@[1] == 'x' && ".wasm"@[1] == 'w' && ".pdf"@[1] == 'p');
    assert(".mjs"@[2] == 'j' && ".map"@[2] == 'a' && ".json"@[2] == 's' && ".jpeg"@[2] == 'p'
        && ".png"@[2] == 'n' && ".pdf"@[2] == 'd' && ".webp"@[2] == 'e' && ".woff"@[2] == 'o'
        && ".wasm"@[2] == 'a' && ".ttf"@[2] == 't' && ".txt"@[2] == 'x');
    assert(".html"@[0] == '.' && ".htm"@[0] == '.' && ".css"@[0] == '.' && ".js"@[0] == '.'
        && ".mjs"@[0] == '.' && ".json"@[0] == '.' && ".map"@[0] == '.' && ".svg"@[0] == '.'
        && ".png"@[0] == '.' && ".jpg"@[0] == '.' && ".jpeg"@[0] == '.' && ".gif"@[0] == '.'
        && ".webp"@[0] == '.' && ".ico"@[0] == '.' && ".woff"@[0] == '.' && ".woff2"@[0] == '.'
        && ".ttf"@[0] == '.' && ".txt"@[0] == '.' && ".xml"@[0] == '.' && ".wasm"@[0] == '.'
        && ".pdf"@[0] == '.');
}

/// The parameters of a type make no difference to whether it is compressed: pages, style
/// sheets, scripts, documents and plain texts are, other pictures and fonts are not.
pub proof fn law_texts_are_compressed(kind: Seq<char>, parameters: Seq<char>)
    requires
        kind.len() > 0,
        forall|i: int| 0 <= i < kind.len() ==> kind[i] != ';' && !text::is_space(#[trigger] kind[i]),
    ensures
        compressible(kind + seq![';'] + parameters) == compressible(kind),
        kind == "text/html"@ || kind == "text/css"@ || kind == "text/javascript"@ || kind
            == "application/javascript"@ || kind == "application/json"@ || kind == "image/svg+xml"@
            || kind == "text/plain"@ || kind == "application/xml"@ || kind == "text/xml"@
            <==> compressible(kind),
{
    text::law_text_is_cut_at_the_first(kind, ';', parameters);
    text::lemma_trimmed_same(kind, Trim::Space);
}

/// The extension of a file is lowered and has its dot before it.
pub proof fn law_extensions_are_dotted(ext: Seq<char>)
    ensures
        dotted_extension(None).len() == 0,
        dotted_extension(Some(ext)) == seq!['.'] + outside::lowercase(ext),
        is_ascii_chars(ext) ==> dotted_extension(Some(ext)) == seq!['.']
            + text::lower_ascii(ext),
{
}

/// A suffix that is the whole last segment of a path names no format.
pub proof fn law_suffixes_alone_name_no_format(dir: Seq<char>, suffix: Seq<char>)
    requires
        suffix == ".md"@ || suffix == ".json"@ || suffix == ".html"@,
    ensures
        format_suffix(suffix) == (suffix, None::<Seq<char>>),
        format_suffix(dir + seq!['/'] + suffix) == (dir + seq!['/'] + suffix, None::<Seq<char>>),
{
    reveal_strlit(".md");
    reveal_strlit(".json");
    reveal_strlit(".html");
    let path = dir + seq!['/'] + suffix;
    assert(path[path.len() - suffix.len() - 1] == '/');
    assert(path.last() == suffix.last());
    assert(path.skip(path.len() - suffix.len()) =~= suffix);
    if text::has_suffix(path, ".md"@) {
        assert(path.skip(path.len() - 3).last() == 'd');
    }
    if text::has_suffix(path, ".json"@) {
        assert(path.skip(path.len() - 5).last() == 'n');
    }
    if text::has_suffix(path, ".html"@) {
        assert(path.skip(path.len() - 5).last() == 'l');
    }
    if text::has_suffix(suffix, ".md"@) {
        assert(suffix.skip(suffix.len() - 3).last() == 'd');
    }
    if text::has_suffix(suffix, ".json"@) {
        assert(suffix.skip(suffix.len() - 5).last() == 'n');
    }
    if text::has_suffix(suffix, ".html"@) {
        assert(suffix.skip(suffix.len() - 5).last() == 'l');
    }
}

} // verus!
