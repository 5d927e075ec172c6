//! Content trees as HTML and as Markdown.

use vstd::prelude::*;

use crate::content;
use crate::json;
use crate::json::Json;
use crate::json::JsonTree;
use crate::media;
use crate::media::RawResponse;
use crate::media::RawView;
use crate::numeral;
use crate::text;
use crate::text::Trim;
use crate::value;
use crate::value::ServerValue;
use crate::value::SynData;
use crate::value::SynValue;

verus! {

// ---------------------------------------------------------------------------
// Escaping
// ---------------------------------------------------------------------------

/// How one character is written in HTML text and attribute values.
pub open spec fn html_char(c: char) -> Seq<char> {
    if c == '&' {
        "&amp;"@
    } else if c == '<' {
        "&lt;"@
    } else if c == '>' {
        "&gt;"@
    } else if c == '"' {
        "&quot;"@
    } else if c == '\'' {
        "&#x27;"@
    } else {
        seq![c]
    }
}

/// A text as it is written in HTML.
pub open spec fn html_text(s: Seq<char>) -> Seq<char>
    decreases s.len(),
{
    if s.len() == 0 {
        seq![]
    } else {
        html_text(s.drop_last()) + html_char(s.last())
    }
}

/// Escapes a text for HTML.
pub fn esc(s: &str) -> (r: String)
    ensures
        r@ == html_text(s@),
{
    let cs = text::chars_of(s);
    let mut out = String::new();
    for i in 0..cs.len()
        invariant
            out@ == html_text(cs@.take(i as int)),
    {
        let c = cs[i];
        let ghost start = out@;
        if c == '&' {
            out.append("&amp;");
        } else if c == '<' {
            out.append("&lt;");
        } else if c == '>' {
            out.append("&gt;");
        } else if c == '"' {
            out.append("&quot;");
        } else if c == '\'' {
            out.append("&#x27;");
        } else {
            out.push(c);
            assert(out@ == start + seq![c]);
        }
        assert(cs@.take(i as int + 1).drop_last() == cs@.take(i as int));
    }
    assert(cs@.take(cs@.len() as int) == cs@);
    out
}

/// How one character of a JSON text is written inside a script element.
pub open spec fn script_char(c: char) -> Seq<char> {
    if c == '<' {
        "\\u003c"@
    } else if c == '>' {
        "\\u003e"@
    } else if c == '&' {
        "\\u0026"@
    } else {
        seq![c]
    }
}

/// A JSON text as it is written inside a script element.
pub open spec fn script_text(s: Seq<char>) -> Seq<char>
    decreases s.len(),
{
    if s.len() == 0 {
        seq![]
    } else {
        script_text(s.drop_last()) + script_char(s.last())
    }
}

/// Escapes a JSON text for a script element.
pub fn script_safe(s: &str) -> (r: String)
    ensures
        r@ == script_text(s@),
{
    let cs = text::chars_of(s);
    let mut out = String::new();
    for i in 0..cs.len()
        invariant
            out@ == script_text(cs@.take(i as int)),
    {
        let c = cs[i];
        let ghost start = out@;
        if c == '<' {
            out.append("\\u003c");
        } else if c == '>' {
            out.append("\\u003e");
        } else if c == '&' {
            out.append("\\u0026");
        } else {
            out.push(c);
            assert(out@ == start + seq![c]);
        }
        assert(cs@.take(i as int + 1).drop_last() == cs@.take(i as int));
    }
    assert(cs@.take(cs@.len() as int) == cs@);
    out
}

// ---------------------------------------------------------------------------
// HTML
// ---------------------------------------------------------------------------

/// The level of a heading: one to six.
pub open spec fn heading_level(v: SynValue) -> int {
    let n = value::field_int(v, "level"@, 1);
    if n < 1 {
        1
    } else if n > 6 {
        6
    } else {
        n as int
    }
}

fn level_of(v: &SynValue) -> (r: i64)
    ensures
        r == heading_level(*v),
        1 <= r <= 6,
{
    let n = value::node_int(v, "level", 1);
    if n < 1 {
        1
    } else if n > 6 {
        6
    } else {
        n
    }
}

/// The attribute that names the language of a code block.
pub open spec fn language_class(lang: Seq<char>) -> Seq<char> {
    if lang.len() == 0 {
        seq![]
    } else {
        " class=\"language-"@ + html_text(lang) + "\""@
    }
}

/// A node as HTML. Texts are escaped, except that of a `raw` node.
pub open spec fn node_html(v: SynValue) -> Seq<char>
    decreases v, 8nat,
{
    let kind = value::field_text(v, "kind"@);
    let words = html_text(value::field_text(v, "text"@));
    if kind == "heading"@ {
        let level = numeral::signed_decimal(heading_level(v));
        "<h"@ + level + ">"@ + words + "</h"@ + level + ">\n"@
    } else if kind == "prose"@ {
        "<p>"@ + words + "</p>\n"@
    } else if kind == "list"@ {
        "<ul>"@ + items_html(v) + "</ul>\n"@
    } else if kind == "ordered_list"@ {
        "<ol>"@ + items_html(v) + "</ol>\n"@
    } else if kind == "link"@ {
        "<a href=\""@ + html_text(value::field_text(v, "href"@)) + "\">"@ + words + "</a>\n"@
    } else if kind == "image"@ {
        "<img src=\""@ + html_text(value::field_text(v, "src"@)) + "\" alt=\""@ + html_text(
            value::field_text(v, "alt"@),
        ) + "\">\n"@
    } else if kind == "section"@ {
        "<section>\n"@ + children_html(v) + "</section>\n"@
    } else if kind == "code"@ {
        "<pre><code"@ + language_class(value::field_text(v, "lang"@)) + ">"@ + words
            + "</code></pre>\n"@
    } else if kind == "raw"@ {
        value::field_text(v, "html"@)
    } else if kind == "page"@ {
        children_html(v)
    } else {
        seq![]
    }
}

/// Those of the first `n` values that are nodes, as HTML, one after another.
pub open spec fn nodes_html(items: Seq<SynValue>, n: nat) -> Seq<char>
    decreases items, n,
{
    if n == 0 || n > items.len() {
        seq![]
    } else if items[n - 1].node() {
        nodes_html(items, (n - 1) as nat) + node_html(items[n - 1])
    } else {
        nodes_html(items, (n - 1) as nat)
    }
}

/// The first `n` values as list items.
pub open spec fn list_html(items: Seq<SynValue>, n: nat) -> Seq<char>
    decreases items, n,
{
    if n == 0 || n > items.len() {
        seq![]
    } else {
        let item = items[n - 1];
        let inner = if item.node() {
            node_html(item)
        } else {
            html_text(item.shown@)
        };
        list_html(items, (n - 1) as nat) + ("<li>"@ + inner + "</li>"@)
    }
}

/// The nodes in the field `nodes`, as HTML.
pub open spec fn children_html(v: SynValue) -> Seq<char>
    decreases v, 0nat,
{
    match value::field_of(v, "nodes"@) {
        Some(x) => match x.data {
            SynData::List(items) => {
                proof {
                    content::lemma_field_smaller(v, "nodes"@);
                }
                nodes_html(items@, items@.len())
            },
            _ => seq![],
        },
        None => seq![],
    }
}

/// The values in the field `items`, as list items.
pub open spec fn items_html(v: SynValue) -> Seq<char>
    decreases v, 0nat,
{
    match value::field_of(v, "items"@) {
        Some(x) => match x.data {
            SynData::List(items) => {
                proof {
                    content::lemma_field_smaller(v, "items"@);
                }
                list_html(items@, items@.len())
            },
            _ => seq![],
        },
        None => seq![],
    }
}

/// A value as a list item.
fn render_li(item: &SynValue) -> (r: String)
    ensures
        r@ == "<li>"@ + (if item.node() {
            node_html(*item)
        } else {
            html_text(item.shown@)
        }) + "</li>"@,
    decreases item, 9nat,
{
    let mut r = "<li>".to_owned();
    if value::is_node(item) {
        r.append(render_node_html(item).as_str());
    } else {
        r.append(esc(item.shown.as_str()).as_str());
    }
    r.append("</li>");
    r
}

fn render_items_html(v: &SynValue) -> (r: String)
    ensures
        r@ == items_html(*v),
    decreases v, 0nat,
{
    let mut out = String::new();
    proof {
        content::lemma_field_smaller(*v, "items"@);
    }
    if let Some(x) = value::node_field(v, "items") {
        if let SynData::List(items) = &x.data {
            for i in 0..items.len()
                invariant
                    out@ == list_html(items@, i as nat),
                    decreases_to!(*v => items@),
            {
                assert(decreases_to!(items@ => items@[i as int]));
                out.append(render_li(&items[i]).as_str());
            }
        }
    }
    out
}

fn render_children_html(v: &SynValue) -> (r: String)
    ensures
        r@ == children_html(*v),
    decreases v, 0nat,
{
    let mut out = String::new();
    proof {
        content::lemma_field_smaller(*v, "nodes"@);
    }
    if let Some(x) = value::node_field(v, "nodes") {
        if let SynData::List(items) = &x.data {
            for i in 0..items.len()
                invariant
                    out@ == nodes_html(items@, i as nat),
                    decreases_to!(*v => items@),
            {
                if value::is_node(&items[i]) {
                    assert(decreases_to!(items@ => items@[i as int]));
                    out.append(render_node_html(&items[i]).as_str());
                }
            }
        }
    }
    out
}

/// A node as HTML.
pub fn render_node_html(v: &SynValue) -> (r: String)
    ensures
        r@ == node_html(*v),
    decreases v, 8nat,
{
    let kind = value::node_str(v, "kind");
    let k = kind.as_str();
    let words = esc(value::node_str(v, "text").as_str());
    if text::str_eq(k, "heading") {
        let level = numeral::i64_to_string(level_of(v));
        let mut r = "<h".to_owned();
        r.append(level.as_str());
        r.append(">");
        r.append(words.as_str());
        r.append("</h");
        r.append(level.as_str());
        r.append(">\n");
        r
    } else if text::str_eq(k, "prose") {
        let mut r = "<p>".to_owned();
        r.append(words.as_str());
        r.append("</p>\n");
        r
    } else if text::str_eq(k, "list") {
        let mut r = "<ul>".to_owned();
        r.append(render_items_html(v).as_str());
        r.append("</ul>\n");
        r
    } else if text::str_eq(k, "ordered_list") {
        let mut r = "<ol>".to_owned();
        r.append(render_items_html(v).as_str());
        r.append("</ol>\n");
        r
    } else if text::str_eq(k, "link") {
        let mut r = "<a href=\"".to_owned();
        r.append(esc(value::node_str(v, "href").as_str()).as_str());
        r.append("\">");
        r.append(words.as_str());
        r.append("</a>\n");
        r
    } else if text::str_eq(k, "image") {
        let mut r = "<img src=\"".to_owned();
        r.append(esc(value::node_str(v, "src").as_str()).as_str());
        r.append("\" alt=\"");
        r.append(esc(value::node_str(v, "alt").as_str()).as_str());
        r.append("\">\n");
        r
    } else if text::str_eq(k, "section") {
        let mut r = "<section>\n".to_owned();
        r.append(render_children_html(v).as_str());
        r.append("</section>\n");
        r
    } else if text::str_eq(k, "code") {
        let lang = value::node_str(v, "lang");
        let mut class = String::new();
        if !lang.as_str().is_empty() {
            class = " class=\"language-".to_owned();
            class.append(esc(lang.as_str()).as_str());
            class.append("\"");
        }
        assert(class@ == language_class(lang@));
        let mut r = "<pre><code".to_owned();
        r.append(class.as_str());
        r.append(">");
        r.append(words.as_str());
        r.append("</code></pre>\n");
        r
    } else if text::str_eq(k, "raw") {
        value::node_str(v, "html")
    } else if text::str_eq(k, "page") {
        render_children_html(v)
    } else {
        String::new()
    }
}

/// What the metadata of a page says under a key.
pub open spec fn page_meta(v: SynValue, key: Seq<char>) -> Option<Seq<char>> {
    if value::field_text(v, "kind"@) == "page"@ {
        match value::field_of(v, "meta"@) {
            Some(m) => value::meta_text(m, key),
            None => None,
        }
    } else {
        None
    }
}

/// The structured description of a page.
pub open spec fn linked_data(title: Option<Seq<char>>, description: Option<Seq<char>>) -> JsonTree {
    JsonTree::Object(
        seq![
            ("@context"@, JsonTree::Str("https://schema.org"@)),
            ("@type"@, JsonTree::Str("WebPage"@)),
        ] + (match title {
            Some(t) => seq![("name"@, JsonTree::Str(t))],
            None => seq![],
        }) + (match description {
            Some(d) => seq![("description"@, JsonTree::Str(d))],
            None => seq![],
        }),
    )
}

/// The lines of the head of a page.
pub open spec fn head_lines(title: Option<Seq<char>>, description: Option<Seq<char>>) -> Seq<
    Seq<char>,
> {
    seq![
        "<meta charset=\"utf-8\">"@,
        "<meta name=\"viewport\" content=\"width=device-width, initial-scale=1\">"@,
    ] + (match title {
        Some(t) => seq!["<title>"@ + html_text(t) + "</title>"@],
        None => seq![],
    }) + (match description {
        Some(d) => seq!["<meta name=\"description\" content=\""@ + html_text(d) + "\">"@],
        None => seq![],
    }) + (if title is Some || description is Some {
        seq![
            "<script type=\"application/ld+json\">"@ + script_text(
                json::dumped(linked_data(title, description)),
            ) + "</script>"@,
        ]
    } else {
        seq![]
    })
}

/// A content tree as an HTML document.
pub open spec fn html_document(v: SynValue) -> Seq<char> {
    "<!DOCTYPE html>\n<html lang=\"en\">\n<head>\n"@ + text::joined(
        head_lines(page_meta(v, "title"@), page_meta(v, "description"@)),
        "\n"@,
    ) + "\n</head>\n<body>\n"@ + node_html(v) + "</body>\n</html>\n"@
}

fn page_meta_text(v: &SynValue, key: &str) -> (r: Option<String>)
    ensures
        r is Some == page_meta(*v, key@) is Some,
        r matches Some(s) ==> page_meta(*v, key@) == Some(s@),
{
    if text::str_eq(value::node_str(v, "kind").as_str(), "page") {
        match value::node_field(v, "meta") {
            Some(m) => value::meta_get(m, key),
            None => None,
        }
    } else {
        None
    }
}

fn linked_data_json(title: &Option<String>, description: &Option<String>) -> (r: Json)
    ensures
        r.tree() == linked_data(text::maybe(*title), text::maybe(*description)),
{
    let mut v: Vec<(String, Json)> = Vec::new();
    v.push(("@context".to_owned(), json::string("https://schema.org")));
    v.push(("@type".to_owned(), json::string("WebPage")));
    if let Some(t) = title {
        v.push(("name".to_owned(), json::string(t.as_str())));
    }
    if let Some(d) = description {
        v.push(("description".to_owned(), json::string(d.as_str())));
    }
    proof {
        json::lemma_object_trees(v@, v@.len());
        assert(JsonTree::Object(json::object_trees(v@, v@.len())) == linked_data(
            text::maybe(*title),
            text::maybe(*description),
        )) by {
            assert(json::object_trees(v@, v@.len()) =~= linked_data(
                text::maybe(*title),
                text::maybe(*description),
            )->Object_0);
        }
    }
    Json::Object(v)
}

/// A content tree as an HTML document.
pub fn render_html(v: &SynValue) -> (r: String)
    ensures
        r@ == html_document(*v),
{
    let title = page_meta_text(v, "title");
    let description = page_meta_text(v, "description");
    let mut head: Vec<String> = Vec::new();
    head.push("<meta charset=\"utf-8\">".to_owned());
    head.push(
        "<meta name=\"viewport\" content=\"width=device-width, initial-scale=1\">".to_owned(),
    );
    if let Some(t) = &title {
        let mut line = "<title>".to_owned();
        line.append(esc(t.as_str()).as_str());
        line.append("</title>");
        head.push(line);
    }
    if let Some(d) = &description {
        let mut line = "<meta name=\"description\" content=\"".to_owned();
        line.append(esc(d.as_str()).as_str());
        line.append("\">");
        head.push(line);
    }
    if title.is_some() || description.is_some() {
        let ld = json::dumps(&linked_data_json(&title, &description));
        let mut line = "<script type=\"application/ld+json\">".to_owned();
        line.append(script_safe(ld.as_str()).as_str());
        line.append("</script>");
        head.push(line);
    }
    assert(text::texts(head@) =~= head_lines(text::maybe(title), text::maybe(description)));
    let mut r = "<!DOCTYPE html>\n<html lang=\"en\">\n<head>\n".to_owned();
    r.append(text::join(&head, "\n").as_str());
    r.append("\n</head>\n<body>\n");
    r.append(render_node_html(v).as_str());
    r.append("</body>\n</html>\n");
    r
}

// ---------------------------------------------------------------------------
// Markdown
// ---------------------------------------------------------------------------

/// A node as Markdown.
pub open spec fn node_md(v: SynValue) -> Seq<char>
    decreases v, 8nat,
{
    let kind = value::field_text(v, "kind"@);
    let words = value::field_text(v, "text"@);
    if kind == "heading"@ {
        Seq::new(heading_level(v) as nat, |i: int| '#') + " "@ + words
    } else if kind == "prose"@ {
        words
    } else if kind == "list"@ {
        text::joined(bullets_md(v), "\n"@)
    } else if kind == "ordered_list"@ {
        text::joined(numbered_md(v), "\n"@)
    } else if kind == "link"@ {
        "["@ + words + "]("@ + value::field_text(v, "href"@) + ")"@
    } else if kind == "image"@ {
        "!["@ + value::field_text(v, "alt"@) + "]("@ + value::field_text(v, "src"@) + ")"@
    } else if kind == "section"@ || kind == "page"@ {
        text::joined(children_md(v), "\n\n"@)
    } else if kind == "code"@ {
        "```"@ + value::field_text(v, "lang"@) + "\n"@ + words + "\n```"@
    } else if kind == "raw"@ {
        value::field_text(v, "html"@)
    } else {
        seq![]
    }
}

/// A value inside a list, as Markdown.
pub open spec fn inline_md(item: SynValue) -> Seq<char>
    decreases item, 9nat,
{
    if item.node() {
        text::trimmed(node_md(item), Trim::Space)
    } else {
        item.shown@
    }
}

/// Those of the first `n` values that are nodes, as Markdown.
pub open spec fn nodes_md(items: Seq<SynValue>, n: nat) -> Seq<Seq<char>>
    decreases items, n,
{
    if n == 0 || n > items.len() {
        seq![]
    } else if items[n - 1].node() {
        nodes_md(items, (n - 1) as nat).push(node_md(items[n - 1]))
    } else {
        nodes_md(items, (n - 1) as nat)
    }
}

/// The first `n` values, each behind a dash.
pub open spec fn bullet_lines(items: Seq<SynValue>, n: nat) -> Seq<Seq<char>>
    decreases items, n,
{
    if n == 0 || n > items.len() {
        seq![]
    } else {
        bullet_lines(items, (n - 1) as nat).push("- "@ + inline_md(items[n - 1]))
    }
}

/// The first `n` values, each behind its number, from one on.
pub open spec fn numbered_lines(items: Seq<SynValue>, n: nat) -> Seq<Seq<char>>
    decreases items, n,
{
    if n == 0 || n > items.len() {
        seq![]
    } else {
        numbered_lines(items, (n - 1) as nat).push(
            numeral::decimal(n) + ". "@ + inline_md(items[n - 1]),
        )
    }
}

/// The nodes in the field `nodes`, as Markdown.
pub open spec fn children_md(v: SynValue) -> Seq<Seq<char>>
    decreases v, 0nat,
{
    match value::field_of(v, "nodes"@) {
        Some(x) => match x.data {
            SynData::List(items) => {
                proof {
                    content::lemma_field_smaller(v, "nodes"@);
                }
                nodes_md(items@, items@.len())
            },
            _ => seq![],
        },
        None => seq![],
    }
}

/// The values in the field `items`, each behind a dash.
pub open spec fn bullets_md(v: SynValue) -> Seq<Seq<char>>
    decreases v, 0nat,
{
    match value::field_of(v, "items"@) {
        Some(x) => match x.data {
            SynData::List(items) => {
                proof {
                    content::lemma_field_smaller(v, "items"@);
                }
                bullet_lines(items@, items@.len())
            },
            _ => seq![],
        },
        None => seq![],
    }
}

/// The values in the field `items`, each behind its number.
pub open spec fn numbered_md(v: SynValue) -> Seq<Seq<char>>
    decreases v, 0nat,
{
    match value::field_of(v, "items"@) {
        Some(x) => match x.data {
            SynData::List(items) => {
                proof {
                    content::lemma_field_smaller(v, "items"@);
                }
                numbered_lines(items@, items@.len())
            },
            _ => seq![],
        },
        None => seq![],
    }
}

/// A value inside a list, as Markdown.
pub fn md_inline(item: &SynValue) -> (r: String)
    ensures
        r@ == inline_md(*item),
    decreases item, 9nat,
{
    if value::is_node(item) {
        let cs = text::chars_of(render_node_md(item).as_str());
        text::string_of(text::trim(cs.as_slice(), Trim::Space))
    } else {
        item.shown.as_str().to_owned()
    }
}

proof fn lemma_texts_push(before: Seq<String>, after: Seq<String>)
    requires
        after.len() == before.len() + 1,
        after.drop_last() =~= before,
    ensures
        text::texts(after) == text::texts(before).push(after.last()@),
{
    assert forall|i: int| 0 <= i < before.len() implies #[trigger] text::texts(after)[i]
        == text::texts(before)[i] by {
        assert(after.drop_last()[i] == before[i]);
    }
}

fn bullets(v: &SynValue) -> (r: Vec<String>)
    ensures
        text::texts(r@) == bullets_md(*v),
    decreases v, 0nat,
{
    let mut out: Vec<String> = Vec::new();
    proof {
        content::lemma_field_smaller(*v, "items"@);
    }
    if let Some(x) = value::node_field(v, "items") {
        if let SynData::List(items) = &x.data {
            for i in 0..items.len()
                invariant
                    text::texts(out@) == bullet_lines(items@, i as nat),
                    decreases_to!(*v => items@),
            {
                assert(decreases_to!(items@ => items@[i as int]));
                let mut line = "- ".to_owned();
                line.append(md_inline(&items[i]).as_str());
                let ghost before = out@;
                out.push(line);
                proof {
                    lemma_texts_push(before, out@);
                }
            }
        }
    }
    out
}

fn numbered(v: &SynValue) -> (r: Vec<String>)
    ensures
        text::texts(r@) == numbered_md(*v),
    decreases v, 0nat,
{
    let mut out: Vec<String> = Vec::new();
    proof {
        content::lemma_field_smaller(*v, "items"@);
    }
    if let Some(x) = value::node_field(v, "items") {
        if let SynData::List(items) = &x.data {
            for i in 0..items.len()
                invariant
                    text::texts(out@) == numbered_lines(items@, i as nat),
                    decreases_to!(*v => items@),
            {
                assert(decreases_to!(items@ => items@[i as int]));
                let mut line = numeral::u64_to_string((i + 1) as u64);
                line.append(". ");
                line.append(md_inline(&items[i]).as_str());
                let ghost before = out@;
                out.push(line);
                proof {
                    lemma_texts_push(before, out@);
                }
            }
        }
    }
    out
}

fn children(v: &SynValue) -> (r: Vec<String>)
    ensures
        text::texts(r@) == children_md(*v),
    decreases v, 0nat,
{
    let mut out: Vec<String> = Vec::new();
    proof {
        content::lemma_field_smaller(*v, "nodes"@);
    }
    if let Some(x) = value::node_field(v, "nodes") {
        if let SynData::List(items) = &x.data {
            for i in 0..items.len()
                invariant
                    text::texts(out@) == nodes_md(items@, i as nat),
                    decreases_to!(*v => items@),
            {
                if value::is_node(&items[i]) {
                    assert(decreases_to!(items@ => items@[i as int]));
                    let block = render_node_md(&items[i]);
                    let ghost before = out@;
                    out.push(block);
                    proof {
                        lemma_texts_push(before, out@);
                    }
                }
            }
        }
    }
    out
}

/// A node as Markdown.
pub fn render_node_md(v: &SynValue) -> (r: String)
    ensures
        r@ == node_md(*v),
    decreases v, 8nat,
{
    let kind = value::node_str(v, "kind");
    let k = kind.as_str();
    let words = value::node_str(v, "text");
    if text::str_eq(k, "heading") {
        let level = level_of(v);
        let mut r = String::new();
        let mut i: i64 = 0;
        while i < level
            invariant
                0 <= i <= level,
                r@ == Seq::new(i as nat, |j: int| '#'),
            decreases level - i,
        {
            r.push('#');
            i = i + 1;
            assert(r@ =~= Seq::new(i as nat, |j: int| '#'));
        }
        r.append(" ");
        r.append(words.as_str());
        r
    } else if text::str_eq(k, "prose") {
        words
    } else if text::str_eq(k, "list") {
        text::join(&bullets(v), "\n")
    } else if text::str_eq(k, "ordered_list") {
        text::join(&numbered(v), "\n")
    } else if text::str_eq(k, "link") {
        let mut r = "[".to_owned();
        r.append(words.as_str());
        r.append("](");
        r.append(value::node_str(v, "href").as_str());
        r.append(")");
        r
    } else if text::str_eq(k, "image") {
        let mut r = "![".to_owned();
        r.append(value::node_str(v, "alt").as_str());
        r.append("](");
        r.append(value::node_str(v, "src").as_str());
        r.append(")");
        r
    } else if text::str_eq(k, "section") || text::str_eq(k, "page") {
        text::join(&children(v), "\n\n")
    } else if text::str_eq(k, "code") {
        let mut r = "```".to_owned();
        r.append(value::node_str(v, "lang").as_str());
        r.append("\n");
        r.append(words.as_str());
        r.append("\n```");
        r
    } else if text::str_eq(k, "raw") {
        value::node_str(v, "html")
    } else {
        String::new()
    }
}

/// A content tree as a Markdown document: its text without trailing white space, and one
/// line end.
pub open spec fn markdown_document(v: SynValue) -> Seq<char> {
    text::trim_right(node_md(v), Trim::Space) + "\n"@
}

/// A content tree as a Markdown document.
pub fn render_markdown(v: &SynValue) -> (r: String)
    ensures
        r@ == markdown_document(*v),
{
    let body = text::chars_of(render_node_md(v).as_str());
    let mut r = text::string_of(text::trim_end(body.as_slice(), Trim::Space));
    r.append("\n");
    r
}

// ---------------------------------------------------------------------------
// Content in the format asked for
// ---------------------------------------------------------------------------

/// The tree of a content value: what it wraps, or the value itself.
pub open spec fn tree_of(v: SynValue) -> SynValue {
    match v.data {
        SynData::Server(s) => match *s {
            ServerValue::Content(inner) => inner,
            _ => v,
        },
        _ => v,
    }
}

/// Content in a format: JSON, Markdown, or HTML for any other name.
pub open spec fn rendered(v: SynValue, fmt: Seq<char>) -> RawView {
    let tree = tree_of(v);
    if fmt == "json"@ {
        media::raw_text(
            json::dumped(content::node_json(tree)),
            "application/json; charset=utf-8"@,
            200,
        )
    } else if fmt == "md"@ {
        media::raw_text(markdown_document(tree), "text/markdown; charset=utf-8"@, 200)
    } else {
        media::raw_text(html_document(tree), "text/html; charset=utf-8"@, 200)
    }
}

/// Renders content in the format asked for.
pub fn render_content(content_value: &SynValue, fmt: &str) -> (r: RawResponse)
    ensures
        r@ == rendered(*content_value, fmt@),
{
    let tree = match &content_value.data {
        SynData::Server(s) => match &**s {
            ServerValue::Content(inner) => inner,
            _ => content_value,
        },
        _ => content_value,
    };
    if text::str_eq(fmt, "json") {
        let body = json::dumps(&content::node_to_json(tree));
        RawResponse::text(body.as_str(), "application/json; charset=utf-8", 200)
    } else if text::str_eq(fmt, "md") {
        RawResponse::text(render_markdown(tree).as_str(), "text/markdown; charset=utf-8", 200)
    } else {
        RawResponse::text(render_html(tree).as_str(), "text/html; charset=utf-8", 200)
    }
}

// ---------------------------------------------------------------------------
// Laws
// ---------------------------------------------------------------------------

/// Escaped text cannot open or close a tag or end an attribute value.
pub proof fn law_escaped_text_is_inert(s: Seq<char>)
    ensures
        forall|i: int|
            #![trigger html_text(s)[i]]
            0 <= i < html_text(s).len() ==> html_text(s)[i] != '<' && html_text(s)[i] != '>'
                && html_text(s)[i] != '"' && html_text(s)[i] != '\'',
    decreases s.len(),
{
    if s.len() > 0 {
        law_escaped_text_is_inert(s.drop_last());
        reveal_strlit("&amp;");
        reveal_strlit("&lt;");
        reveal_strlit("&gt;");
        reveal_strlit("&quot;");
        reveal_strlit("&#x27;");
        let head = html_text(s.drop_last());
        let tail = html_char(s.last());
        assert forall|i: int|
            #![trigger html_text(s)[i]]
            0 <= i < html_text(s).len() implies html_text(s)[i] != '<' && html_text(s)[i] != '>'
            && html_text(s)[i] != '"' && html_text(s)[i] != '\'' by {
            if i < head.len() {
                assert(html_text(s)[i] == head[i]);
            } else {
                assert(html_text(s)[i] == tail[i - head.len()]);
            }
        }
    }
}

/// The structured description of a page cannot end the script element that holds it.
pub proof fn law_script_text_is_inert(s: Seq<char>)
    ensures
        forall|i: int|
            #![trigger script_text(s)[i]]
            0 <= i < script_text(s).len() ==> script_text(s)[i] != '<' && script_text(s)[i] != '>'
                && script_text(s)[i] != '&',
    decreases s.len(),
{
    if s.len() > 0 {
        law_script_text_is_inert(s.drop_last());
        reveal_strlit("\\u003c");
        reveal_strlit("\\u003e");
        reveal_strlit("\\u0026");
        let head = script_text(s.drop_last());
        let tail = script_char(s.last());
        assert forall|i: int|
            #![trigger script_text(s)[i]]
            0 <= i < script_text(s).len() implies script_text(s)[i] != '<' && script_text(s)[i] != '>'
            && script_text(s)[i] != '&' by {
            if i < head.len() {
                assert(script_text(s)[i] == head[i]);
            } else {
                assert(script_text(s)[i] == tail[i - head.len()]);
            }
        }
    }
}

/// The code unit of a character that is escaped inside a script element.
pub open spec fn is_script_unit(n: int) -> bool {
    n == '<' as int || n == '>' as int || n == '&' as int
}

/// A JSON text with the escapes of those characters undone. Any other escape is kept, and
/// what follows its backslash begins no escape.
pub open spec fn script_undone(s: Seq<char>) -> Seq<char>
    decreases s.len(),
{
    if s.len() == 0 {
        seq![]
    } else if s[0] != '\\' || s.len() == 1 {
        seq![s[0]] + script_undone(s.skip(1))
    } else {
        match json::unit_at(s, 0) {
            Some(n) => if is_script_unit(n) {
                seq![n as char] + script_undone(s.skip(6))
            } else {
                s.take(2) + script_undone(s.skip(2))
            },
            None => s.take(2) + script_undone(s.skip(2)),
        }
    }
}

/// Escaping for a script element is undone on `u`, whatever follows.
spec fn is_undone(u: Seq<char>) -> bool {
    forall|rest: Seq<char>| #[trigger]
        script_undone(script_text(u) + rest) == u + script_undone(rest)
}

proof fn lemma_script_concat(a: Seq<char>, b: Seq<char>)
    ensures
        script_text(a + b) == script_text(a) + script_text(b),
    decreases b.len(),
{
    if b.len() == 0 {
        assert(a + b =~= a);
        assert(script_text(a) + script_text(b) =~= script_text(a));
    } else {
        assert((a + b).drop_last() =~= a + b.drop_last());
        lemma_script_concat(a, b.drop_last());
        assert(script_text(a + b) =~= script_text(a) + script_text(b));
    }
}

proof fn lemma_undone_concat(a: Seq<char>, b: Seq<char>)
    requires
        is_undone(a),
        is_undone(b),
    ensures
        is_undone(a + b),
{
    lemma_script_concat(a, b);
    assert forall|rest: Seq<char>| #[trigger]
        script_undone(script_text(a + b) + rest) == (a + b) + script_undone(rest) by {
        let tail = script_text(b) + rest;
        assert(script_text(a + b) + rest =~= script_text(a) + tail);
        assert(script_undone(script_text(a) + tail) == a + script_undone(tail));
        assert(script_undone(tail) == b + script_undone(rest));
        assert(a + (b + script_undone(rest)) =~= (a + b) + script_undone(rest));
    }
}

proof fn lemma_script_single(c: char)
    ensures
        script_text(seq![c]) == script_char(c),
{
    assert(seq![c].drop_last() =~= Seq::<char>::empty());
    assert(script_text(Seq::<char>::empty()) =~= Seq::<char>::empty());
    assert(script_text(seq![c]) =~= script_char(c));
}

proof fn lemma_undone_char(c: char)
    requires
        c != '\\',
    ensures
        is_undone(seq![c]),
{
    lemma_script_single(c);
    reveal_strlit("\\u003c");
    reveal_strlit("\\u003e");
    reveal_strlit("\\u0026");
    assert forall|rest: Seq<char>| #[trigger]
        script_undone(script_text(seq![c]) + rest) == seq![c] + script_undone(rest) by {
        let s = script_text(seq![c]) + rest;
        if is_script_unit(c as int) {
            let e = json::unicode_escape(c as int);
            assert(script_char(c) =~= e);
            assert(s.subrange(0, 6) =~= e);
            json::lemma_unit(c as int, s, 0);
            assert(s[0] == e[0]);
            assert(s.skip(6) =~= rest);
        } else {
            assert(s[0] == c);
            assert(s.skip(1) =~= rest);
        }
    }
}

proof fn lemma_undone_plain(s: Seq<char>)
    requires
        forall|i: int| 0 <= i < s.len() ==> s[i] != '\\',
    ensures
        is_undone(s),
    decreases s.len(),
{
    if s.len() == 0 {
        assert forall|rest: Seq<char>| #[trigger]
            script_undone(script_text(s) + rest) == s + script_undone(rest) by {
            assert(script_text(s) + rest =~= rest);
            assert(s + script_undone(rest) =~= script_undone(rest));
        }
    } else {
        lemma_undone_plain(s.drop_last());
        lemma_undone_char(s.last());
        lemma_undone_concat(s.drop_last(), seq![s.last()]);
        assert(s.drop_last() + seq![s.last()] =~= s);
    }
}

proof fn lemma_script_kept(s: Seq<char>)
    requires
        forall|i: int| 0 <= i < s.len() ==> s[i] != '<' && s[i] != '>' && s[i] != '&',
    ensures
        script_text(s) == s,
    decreases s.len(),
{
    if s.len() > 0 {
        lemma_script_kept(s.drop_last());
        assert(s.drop_last() + seq![s.last()] =~= s);
    } else {
        assert(script_text(s) =~= s);
    }
}

proof fn lemma_undone_pair(c: char)
    requires
        c == '"' || c == '\\' || c == 'b' || c == 't' || c == 'n' || c == 'f' || c == 'r',
    ensures
        is_undone(seq!['\\', c]),
{
    let u = seq!['\\', c];
    lemma_script_kept(u);
    assert forall|rest: Seq<char>| #[trigger]
        script_undone(script_text(u) + rest) == u + script_undone(rest) by {
        let s = u + rest;
        assert(s[0] == '\\' && s[1] == c);
        assert(json::unit_at(s, 0) is None);
        assert(s.take(2) =~= u);
        assert(s.skip(2) =~= rest);
    }
}

proof fn lemma_undone_unit(n: int)
    requires
        0 <= n <= 0xffff,
        !is_script_unit(n),
    ensures
        is_undone(json::unicode_escape(n)),
{
    let u = json::unicode_escape(n);
    let digits = u.skip(2);
    lemma_script_kept(u);
    lemma_script_kept(digits);
    lemma_undone_plain(digits);
    assert forall|rest: Seq<char>| #[trigger]
        script_undone(script_text(u) + rest) == u + script_undone(rest) by {
        let s = u + rest;
        assert(s.subrange(0, 6) =~= u);
        json::lemma_unit(n, s, 0);
        assert(s[0] == u[0]);
        assert(s.skip(2) =~= digits + rest);
        assert(script_undone(script_text(digits) + rest) == digits + script_undone(rest));
        assert(s.take(2) + (digits + script_undone(rest)) =~= u + script_undone(rest));
    }
}

proof fn lemma_undone_escaped_char(c: char)
    ensures
        is_undone(json::escaped_char(c)),
{
    let n = c as u32;
    if c == '"' {
        lemma_undone_pair('"');
    } else if c == '\\' {
        lemma_undone_pair('\\');
    } else if n == 0x08 {
        lemma_undone_pair('b');
    } else if n == 0x09 {
        lemma_undone_pair('t');
    } else if n == 0x0a {
        lemma_undone_pair('n');
    } else if n == 0x0c {
        lemma_undone_pair('f');
    } else if n == 0x0d {
        lemma_undone_pair('r');
    } else if 0x20 <= n && n < 0x7f {
        lemma_undone_char(c);
    } else if n <= 0xffff {
        lemma_undone_unit(n as int);
    } else {
        let hi = 0xd800 + (n - 0x10000) / 1024;
        let lo = 0xdc00 + (n - 0x10000) % 1024;
        lemma_undone_unit(hi);
        lemma_undone_unit(lo);
        lemma_undone_concat(json::unicode_escape(hi), json::unicode_escape(lo));
    }
}

proof fn lemma_undone_literal(s: Seq<char>)
    ensures
        is_undone(json::quoted(s)),
{
    lemma_undone_escaped_chars(s);
    lemma_undone_char('"');
    lemma_undone_concat(seq!['"'], json::escaped_chars(s));
    lemma_undone_concat(seq!['"'] + json::escaped_chars(s), seq!['"']);
}

proof fn lemma_undone_escaped_chars(s: Seq<char>)
    ensures
        is_undone(json::escaped_chars(s)),
    decreases s.len(),
{
    if s.len() == 0 {
        lemma_undone_plain(json::escaped_chars(s));
    } else {
        lemma_undone_escaped_chars(s.drop_last());
        lemma_undone_escaped_char(s.last());
        lemma_undone_concat(json::escaped_chars(s.drop_last()), json::escaped_char(s.last()));
    }
}

proof fn lemma_undone_members(v: Seq<(Seq<char>, JsonTree)>, n: nat)
    requires
        n <= v.len(),
        forall|i: int| 0 <= i < v.len() ==> v[i].1 is Str,
    ensures
        is_undone(json::dumped_members(v, n)),
    decreases n,
{
    if n == 0 {
        lemma_undone_plain(json::dumped_members(v, n));
    } else {
        let before = json::dumped_members(v, (n - 1) as nat);
        let sep = json::separator(n - 1);
        let key = json::quoted(v[n - 1].0);
        lemma_undone_members(v, (n - 1) as nat);
        reveal_strlit(", ");
        reveal_strlit(": ");
        lemma_undone_plain(sep);
        lemma_undone_plain(": "@);
        lemma_undone_literal(v[n - 1].0);
        lemma_undone_literal(v[n - 1].1->Str_0);
        lemma_undone_concat(before, sep);
        lemma_undone_concat(before + sep, key);
        lemma_undone_concat(before + sep + key, ": "@);
        lemma_undone_concat(before + sep + key + ": "@, json::dumped(v[n - 1].1));
    }
}

/// The structured description of a page is read back from the script element that holds it:
/// with the escapes of `<`, `>` and `&` undone, its text is the JSON text of the description
/// with the title and the description of the page.
pub proof fn law_script_text_reads_back(title: Option<Seq<char>>, description: Option<Seq<char>>)
    ensures
        script_undone(script_text(json::dumped(linked_data(title, description)))) == json::dumped(
            linked_data(title, description),
        ),
{
    let v = linked_data(title, description)->Object_0;
    let s = json::dumped(linked_data(title, description));
    lemma_undone_members(v, v.len());
    lemma_undone_char('{');
    lemma_undone_char('}');
    lemma_undone_concat(seq!['{'], json::dumped_members(v, v.len()));
    lemma_undone_concat(seq!['{'] + json::dumped_members(v, v.len()), seq!['}']);
    let rest = Seq::<char>::empty();
    assert(script_undone(script_text(s) + rest) == s + script_undone(rest));
    assert(script_text(s) + rest =~= script_text(s));
    assert(s + script_undone(rest) =~= s);
}

proof fn lemma_escaped_keeps(c: char)
    requires
        !is_script_unit(c as int),
    ensures
        script_text(json::escaped_char(c)) == json::escaped_char(c),
{
    let e = json::escaped_char(c);
    let n = c as u32;
    assert forall|i: int| 0 <= i < e.len() implies e[i] != '<' && e[i] != '>' && e[i] != '&' by {
        if n > 0xffff {
            let a = json::unicode_escape(0xd800 + (n - 0x10000) / 1024);
            let b = json::unicode_escape(0xdc00 + (n - 0x10000) % 1024);
            assert(e == a + b);
            if i < 6 {
                assert(e[i] == a[i]);
            } else {
                assert(e[i] == b[i - 6]);
            }
        }
    }
    lemma_script_kept(e);
}

#[verifier::spinoff_prover]
proof fn lemma_script_written(c: char, rest: Seq<char>)
    ensures
        ({
            let w = script_text(json::escaped_char(c));
            w.len() > 0 && json::first_written(w + rest) == Some((c, w.len() as int))
        }),
{
    let w = script_text(json::escaped_char(c));
    if is_script_unit(c as int) {
        let e = json::unicode_escape(c as int);
        lemma_script_single(c);
        reveal_strlit("\\u003c");
        reveal_strlit("\\u003e");
        reveal_strlit("\\u0026");
        assert(w =~= e);
        let s = w + rest;
        assert(s.subrange(0, 6) =~= e);
        json::lemma_unit(c as int, s, 0);
        assert(s[0] == e[0] && s[1] == e[1]);
    } else {
        lemma_escaped_keeps(c);
        json::lemma_first_written(c, rest);
    }
}

/// A string literal stands for the same text inside a script element: read as JSON, the
/// escapes are the characters that they replace.
pub proof fn law_script_literals_read_back(s: Seq<char>)
    ensures
        json::unescaped(script_text(json::escaped_chars(s))) == Some(s),
    decreases s.len(),
{
    if s.len() > 0 {
        let rest = s.drop_first();
        let w = script_text(json::escaped_char(s[0]));
        let tail = script_text(json::escaped_chars(rest));
        json::lemma_escaped_front(s);
        lemma_script_concat(json::escaped_char(s[0]), json::escaped_chars(rest));
        law_script_literals_read_back(rest);
        lemma_script_written(s[0], tail);
        assert((w + tail).skip(w.len() as int) =~= tail);
        assert(seq![s[0]] + rest =~= s);
    }
}

/// HTML text with its character references read.
pub open spec fn html_read(s: Seq<char>) -> Seq<char>
    decreases s.len(),
{
    if s.len() == 0 {
        seq![]
    } else if text::has_prefix(s, "&amp;"@) && s.len() >= 5 {
        seq!['&'] + html_read(s.skip(5))
    } else if text::has_prefix(s, "&lt;"@) && s.len() >= 4 {
        seq!['<'] + html_read(s.skip(4))
    } else if text::has_prefix(s, "&gt;"@) && s.len() >= 4 {
        seq!['>'] + html_read(s.skip(4))
    } else if text::has_prefix(s, "&quot;"@) && s.len() >= 6 {
        seq!['"'] + html_read(s.skip(6))
    } else if text::has_prefix(s, "&#x27;"@) && s.len() >= 6 {
        seq!['\''] + html_read(s.skip(6))
    } else {
        seq![s[0]] + html_read(s.skip(1))
    }
}

proof fn lemma_html_read_char(c: char, rest: Seq<char>)
    ensures
        html_read(html_char(c) + rest) == seq![c] + html_read(rest),
{
    reveal_strlit("&amp;");
    reveal_strlit("&lt;");
    reveal_strlit("&gt;");
    reveal_strlit("&quot;");
    reveal_strlit("&#x27;");
    let w = html_char(c);
    let s = w + rest;
    assert(s.take(w.len() as int) =~= w);
    assert(s.skip(w.len() as int) =~= rest);
    assert("&amp;"@.len() == 5 && "&lt;"@.len() == 4 && "&gt;"@.len() == 4 && "&quot;"@.len() == 6
        && "&#x27;"@.len() == 6);
    assert(s[0] == w[0]);
    if w.len() > 1 {
        assert(s[1] == w[1]);
        if text::has_prefix(s, "&amp;"@) {
            assert(s.take(5)[1] == 'a');
        }
        if text::has_prefix(s, "&lt;"@) {
            assert(s.take(4)[1] == 'l');
        }
        if text::has_prefix(s, "&gt;"@) {
            assert(s.take(4)[1] == 'g');
        }
        if text::has_prefix(s, "&quot;"@) {
            assert(s.take(6)[1] == 'q');
        }
    } else {
        if text::has_prefix(s, "&amp;"@) {
            assert(s.take(5)[0] == '&');
        }
        if text::has_prefix(s, "&lt;"@) {
            assert(s.take(4)[0] == '&');
        }
        if text::has_prefix(s, "&gt;"@) {
            assert(s.take(4)[0] == '&');
        }
        if text::has_prefix(s, "&quot;"@) {
            assert(s.take(6)[0] == '&');
        }
        if text::has_prefix(s, "&#x27;"@) {
            assert(s.take(6)[0] == '&');
        }
    }
}

proof fn lemma_html_concat(a: Seq<char>, b: Seq<char>)
    ensures
        html_text(a + b) == html_text(a) + html_text(b),
    decreases b.len(),
{
    if b.len() == 0 {
        assert(a + b =~= a);
        assert(html_text(a) + html_text(b) =~= html_text(a));
    } else {
        assert((a + b).drop_last() =~= a + b.drop_last());
        lemma_html_concat(a, b.drop_last());
        assert(html_text(a + b) =~= html_text(a) + html_text(b));
    }
}

/// Escaped text stands for the text that was escaped: a reader of HTML sees it again, so that
/// different texts are written differently. Characters that have no meaning in HTML are
/// written as they are.
pub proof fn law_escaped_text_reads_back(s: Seq<char>)
    ensures
        html_read(html_text(s)) == s,
        (forall|i: int|
            0 <= i < s.len() ==> #[trigger] s[i] != '&' && s[i] != '<' && s[i] != '>' && s[i] != '"'
                && s[i] != '\'') ==> html_text(s) == s,
    decreases s.len(),
{
    if s.len() > 0 {
        let rest = s.drop_first();
        assert(seq![s[0]] + rest =~= s);
        lemma_html_concat(seq![s[0]], rest);
        assert(seq![s[0]].drop_last() =~= Seq::<char>::empty());
        assert(html_text(Seq::<char>::empty()) =~= Seq::<char>::empty());
        assert(html_text(seq![s[0]]) =~= html_char(s[0]));
        law_escaped_text_reads_back(rest);
        lemma_html_read_char(s[0], html_text(rest));
        if forall|i: int|
            0 <= i < s.len() ==> #[trigger] s[i] != '&' && s[i] != '<' && s[i] != '>' && s[i] != '"'
                && s[i] != '\'' {
            assert forall|i: int| 0 <= i < rest.len() implies #[trigger] rest[i] != '&' && rest[i]
                != '<' && rest[i] != '>' && rest[i] != '"' && rest[i] != '\'' by {
                assert(rest[i] == s[i + 1]);
            }
            assert(html_char(s[0]) =~= seq![s[0]]);
        }
    } else {
        assert(html_text(s) =~= s);
        assert(html_read(s) =~= s);
    }
}

/// What stands between the tags of a list item: a node as HTML, any other value as its text,
/// escaped.
pub open spec fn item_shown(x: SynValue) -> Seq<char> {
    if x.node() {
        node_html(x)
    } else {
        html_text(x.shown@)
    }
}

/// A value as a line of a Markdown list: a node as Markdown without white space around it, any
/// other value as its text.
pub open spec fn line_shown(x: SynValue) -> Seq<char> {
    if x.node() {
        text::trimmed(node_md(x), Trim::Space)
    } else {
        x.shown@
    }
}

proof fn lemma_items_laid(items: Seq<SynValue>, n: nat)
    requires
        n <= items.len(),
    ensures
        list_html(items, n) == items.take(n as int).map_values(
            |x: SynValue| "<li>"@ + item_shown(x) + "</li>"@,
        ).flatten(),
    decreases n,
{
    let f = |x: SynValue| "<li>"@ + item_shown(x) + "</li>"@;
    let all = items.take(n as int).map_values(f);
    if n > 0 {
        let before = items.take(n - 1).map_values(f);
        lemma_items_laid(items, (n - 1) as nat);
        assert(all =~= before.push("<li>"@ + item_shown(items[n - 1]) + "</li>"@));
        before.lemma_flatten_push("<li>"@ + item_shown(items[n - 1]) + "</li>"@);
    } else {
        assert(all =~= Seq::<Seq<char>>::empty());
        assert(all.flatten() =~= Seq::<char>::empty());
    }
}

proof fn lemma_nodes_laid(items: Seq<SynValue>, n: nat)
    requires
        n <= items.len(),
    ensures
        nodes_html(items, n) == items.take(n as int).filter(|x: SynValue| x.node()).map_values(
            |x: SynValue| node_html(x),
        ).flatten(),
        nodes_md(items, n) == items.take(n as int).filter(|x: SynValue| x.node()).map_values(
            |x: SynValue| node_md(x),
        ),
    decreases n,
{
    reveal(Seq::filter);
    let p = |x: SynValue| x.node();
    let f = |x: SynValue| node_html(x);
    let g = |x: SynValue| node_md(x);
    let kept = items.take(n as int).filter(p);
    if n > 0 {
        let before = items.take(n - 1).filter(p);
        lemma_nodes_laid(items, (n - 1) as nat);
        assert(items.take(n as int).drop_last() =~= items.take(n - 1));
        assert(items.take(n as int).last() == items[n - 1]);
        if items[n - 1].node() {
            assert(kept == before.push(items[n - 1]));
            assert(kept.map_values(f) =~= before.map_values(f).push(node_html(items[n - 1])));
            before.map_values(f).lemma_flatten_push(node_html(items[n - 1]));
            assert(kept.map_values(g) =~= before.map_values(g).push(node_md(items[n - 1])));
        } else {
            assert(kept == before);
        }
    } else {
        assert(kept =~= Seq::<SynValue>::empty());
        assert(kept.map_values(f) =~= Seq::<Seq<char>>::empty());
        assert(kept.map_values(f).flatten() =~= Seq::<char>::empty());
        assert(kept.map_values(g) =~= Seq::<Seq<char>>::empty());
    }
}

proof fn lemma_lines_laid(items: Seq<SynValue>, n: nat)
    requires
        n <= items.len(),
    ensures
        bullet_lines(items, n).len() == n,
        numbered_lines(items, n).len() == n,
        forall|i: int|
            0 <= i < n ==> #[trigger] bullet_lines(items, n)[i] == "- "@ + line_shown(items[i]),
        forall|i: int|
            0 <= i < n ==> #[trigger] numbered_lines(items, n)[i] == numeral::decimal(
                (i + 1) as nat,
            ) + ". "@ + line_shown(items[i]),
    decreases n,
{
    if n > 0 {
        lemma_lines_laid(items, (n - 1) as nat);
        assert(inline_md(items[n - 1]) == line_shown(items[n - 1]));
    }
}

/// A list shows every one of its items, in order and once: in HTML each between the tags of a
/// list item, the whole between those of the list; in Markdown each on a line of its own, behind
/// a dash or behind its number, from one on.
pub proof fn law_lists_show_their_items(v: SynValue, x: SynValue, items: Vec<SynValue>)
    requires
        value::field_of(v, "items"@) == Some(x),
        x.data == SynData::List(items),
    ensures
        value::field_text(v, "kind"@) == "list"@ ==> node_html(v) == "<ul>"@ + items@.map_values(
            |i: SynValue| "<li>"@ + item_shown(i) + "</li>"@,
        ).flatten() + "</ul>\n"@ && node_md(v) == text::joined(
            Seq::new(items@.len(), |i: int| "- "@ + line_shown(items@[i])),
            "\n"@,
        ),
        value::field_text(v, "kind"@) == "ordered_list"@ ==> node_html(v) == "<ol>"@
            + items@.map_values(
            |i: SynValue| "<li>"@ + item_shown(i) + "</li>"@,
        ).flatten() + "</ol>\n"@ && node_md(v) == text::joined(
            Seq::new(
                items@.len(),
                |i: int| numeral::decimal((i + 1) as nat) + ". "@ + line_shown(items@[i]),
            ),
            "\n"@,
        ),
{
    lemma_kinds();
    lemma_items_laid(items@, items@.len());
    lemma_lines_laid(items@, items@.len());
    assert(items@.take(items@.len() as int) =~= items@);
    assert(bullet_lines(items@, items@.len()) =~= Seq::new(
        items@.len(),
        |i: int| "- "@ + line_shown(items@[i]),
    ));
    assert(numbered_lines(items@, items@.len()) =~= Seq::new(
        items@.len(),
        |i: int| numeral::decimal((i + 1) as nat) + ". "@ + line_shown(items@[i]),
    ));
}

/// A page and a section show those of their elements that are nodes, in order and once: in HTML
/// one behind another, in Markdown with an empty line between them.
pub proof fn law_pages_show_their_nodes(v: SynValue, x: SynValue, items: Vec<SynValue>)
    requires
        value::field_of(v, "nodes"@) == Some(x),
        x.data == SynData::List(items),
    ensures
        ({
            let nodes = items@.filter(|i: SynValue| i.node());
            let html = nodes.map_values(|i: SynValue| node_html(i)).flatten();
            let md = text::joined(nodes.map_values(|i: SynValue| node_md(i)), "\n\n"@);
            &&& value::field_text(v, "kind"@) == "page"@ ==> node_html(v) == html && node_md(v) == md
            &&& value::field_text(v, "kind"@) == "section"@ ==> node_html(v) == "<section>\n"@ + html
                + "</section>\n"@ && node_md(v) == md
        }),
{
    lemma_kinds();
    lemma_nodes_laid(items@, items@.len());
    assert(items@.take(items@.len() as int) =~= items@);
}

/// The kinds of nodes are different from one another.
pub proof fn lemma_kinds()
    ensures
        ({
            let kinds = seq![
                "heading"@,
                "prose"@,
                "list"@,
                "ordered_list"@,
                "link"@,
                "image"@,
                "section"@,
                "code"@,
                "raw"@,
                "page"@,
            ];
            forall|i: int, j: int| 0 <= i < j < 10 ==> #[trigger] kinds[i] != #[trigger] kinds[j]
        }),
        "page"@ != "heading"@ && "page"@ != "prose"@ && "page"@ != "list"@ && "page"@
            != "ordered_list"@ && "page"@ != "link"@ && "page"@ != "image"@ && "page"@ != "section"@
            && "page"@ != "code"@ && "page"@ != "raw"@,
        "section"@ != "heading"@ && "section"@ != "prose"@ && "section"@ != "list"@ && "section"@
            != "ordered_list"@ && "section"@ != "link"@ && "section"@ != "image"@,
        "list"@ != "heading"@ && "list"@ != "prose"@,
        "ordered_list"@ != "heading"@ && "ordered_list"@ != "prose"@ && "ordered_list"@ != "list"@,
{
    reveal_strlit("heading");
    reveal_strlit("prose");
    reveal_strlit("list");
    reveal_strlit("ordered_list");
    reveal_strlit("link");
    reveal_strlit("image");
    reveal_strlit("section");
    reveal_strlit("code");
    reveal_strlit("raw");
    reveal_strlit("page");
    assert("heading"@[0] == 'h' && "prose"@[0] == 'p' && "list"@[0] == 'l' && "ordered_list"@[0]
        == 'o' && "link"@[0] == 'l' && "image"@[0] == 'i' && "section"@[0] == 's' && "code"@[0]
        == 'c' && "raw"@[0] == 'r' && "page"@[0] == 'p');
    assert("list"@[2] == 's' && "link"@[2] == 'n' && "prose"@[1] == 'r' && "page"@[1] == 'a');
}

/// The level of a heading is the one that it was given, no less than one and no more than six,
/// and one where it was given none.
pub proof fn law_heading_levels(v: SynValue, x: SynValue, n: i64)
    ensures
        1 <= heading_level(v) <= 6,
        value::field_of(v, "level"@) == Some(x) && x.data == SynData::Number(value::Number::Int(n))
            ==> heading_level(v) == if n < 1 {
            1
        } else if n > 6 {
            6
        } else {
            n as int
        },
        value::field_of(v, "level"@) is None ==> heading_level(v) == 1,
{
}

/// The title and the description of a page are what its metadata say under those keys; what
/// is no page has none.
pub proof fn law_page_metadata(
    v: SynValue,
    m: SynValue,
    entries: Vec<(String, SynValue)>,
    key: Seq<char>,
    i: int,
)
    ensures
        value::field_text(v, "kind"@) != "page"@ ==> page_meta(v, key) is None,
        value::field_text(v, "kind"@) == "page"@ && value::field_of(v, "meta"@) == Some(m) && m.data
            == SynData::Mapping(entries) ==> {
            &&& 0 <= i < entries@.len() && entries@[i].0@ == key && (forall|j: int|
                0 <= j < i ==> (#[trigger] entries@[j]).0@ != key) ==> page_meta(v, key) == Some(
                entries@[i].1.shown@,
            )
            &&& (forall|j: int| 0 <= j < entries@.len() ==> (#[trigger] entries@[j]).0@ != key)
                ==> page_meta(v, key) is None
        },
{
    value::law_first_field_counts(entries@, key, i);
}

/// The structured description of a page names its title and its description, each where it has
/// one, behind what it is.
pub proof fn law_linked_data_names_the_page(
    title: Option<Seq<char>>,
    description: Option<Seq<char>>,
)
    ensures
        linked_data(title, description) matches JsonTree::Object(m) && {
            &&& m.len() == 2 + (if title is Some {
                1int
            } else {
                0
            }) + (if description is Some {
                1int
            } else {
                0
            })
            &&& m[0] == ("@context"@, JsonTree::Str("https://schema.org"@))
            &&& m[1] == ("@type"@, JsonTree::Str("WebPage"@))
            &&& title matches Some(t) ==> m[2] == ("name"@, JsonTree::Str(t))
            &&& description matches Some(d) ==> m.last() == ("description"@, JsonTree::Str(d))
        },
{
}

/// An HTML document holds the tree between the tags of its body and, in its head, the title
/// and the description of the page, escaped, and the structured description of both, each
/// where the page has it.
pub proof fn law_html_document_holds_the_page(v: SynValue)
    ensures
        ({
            let title = page_meta(v, "title"@);
            let description = page_meta(v, "description"@);
            html_document(v) == "<!DOCTYPE html>\n<html lang=\"en\">\n<head>\n"@
                + "<meta charset=\"utf-8\">"@ + "\n"@
                + "<meta name=\"viewport\" content=\"width=device-width, initial-scale=1\">"@ + (
            if title is Some {
                "\n"@ + ("<title>"@ + html_text(title->0) + "</title>"@)
            } else {
                seq![]
            }) + (if description is Some {
                "\n"@ + ("<meta name=\"description\" content=\""@ + html_text(description->0)
                    + "\">"@)
            } else {
                seq![]
            }) + (if title is Some || description is Some {
                "\n"@ + ("<script type=\"application/ld+json\">"@ + script_text(
                    json::dumped(linked_data(title, description)),
                ) + "</script>"@)
            } else {
                seq![]
            }) + "\n</head>\n<body>\n"@ + node_html(v) + "</body>\n</html>\n"@
        }),
{
    let title = page_meta(v, "title"@);
    let description = page_meta(v, "description"@);
    lemma_head_joined(title, description);
    let start = "<!DOCTYPE html>\n<html lang=\"en\">\n<head>\n"@;
    let head = text::joined(head_lines(title, description), "\n"@);
    let a = "<meta charset=\"utf-8\">"@;
    let b = "<meta name=\"viewport\" content=\"width=device-width, initial-scale=1\">"@;
    let t = if title is Some {
        "\n"@ + ("<title>"@ + html_text(title->0) + "</title>"@)
    } else {
        seq![]
    };
    let d = if description is Some {
        "\n"@ + ("<meta name=\"description\" content=\""@ + html_text(description->0) + "\">"@)
    } else {
        seq![]
    };
    let s = if title is Some || description is Some {
        "\n"@ + ("<script type=\"application/ld+json\">"@ + script_text(
            json::dumped(linked_data(title, description)),
        ) + "</script>"@)
    } else {
        seq![]
    };
    assert(start + head =~= start + a + "\n"@ + b + t + d + s);
}

proof fn lemma_joined_push(l: Seq<Seq<char>>, x: Seq<char>, sep: Seq<char>)
    requires
        l.len() > 0,
    ensures
        text::joined(l.push(x), sep) == text::joined(l, sep) + sep + x,
{
    assert(l.push(x).drop_last() =~= l);
}

proof fn lemma_head_joined(title: Option<Seq<char>>, description: Option<Seq<char>>)
    ensures
        text::joined(head_lines(title, description), "\n"@) == "<meta charset=\"utf-8\">"@ + "\n"@
            + "<meta name=\"viewport\" content=\"width=device-width, initial-scale=1\">"@ + (
        if title is Some {
            "\n"@ + ("<title>"@ + html_text(title->0) + "</title>"@)
        } else {
            seq![]
        }) + (if description is Some {
            "\n"@ + ("<meta name=\"description\" content=\""@ + html_text(description->0) + "\">"@)
        } else {
            seq![]
        }) + (if title is Some || description is Some {
            "\n"@ + ("<script type=\"application/ld+json\">"@ + script_text(
                json::dumped(linked_data(title, description)),
            ) + "</script>"@)
        } else {
            seq![]
        }),
{
    let nl = "\n"@;
    let a = "<meta charset=\"utf-8\">"@;
    let b = "<meta name=\"viewport\" content=\"width=device-width, initial-scale=1\">"@;
    let t = "<title>"@ + html_text(title->0) + "</title>"@;
    let d = "<meta name=\"description\" content=\""@ + html_text(description->0) + "\">"@;
    let s = "<script type=\"application/ld+json\">"@ + script_text(
        json::dumped(linked_data(title, description)),
    ) + "</script>"@;
    let l0 = seq![a, b];
    assert(l0 =~= seq![a].push(b));
    lemma_joined_push(seq![a], b, nl);
    let l1 = if title is Some {
        l0.push(t)
    } else {
        l0
    };
    let j1 = text::joined(l0, nl) + (if title is Some {
        nl + t
    } else {
        seq![]
    });
    assert(text::joined(l1, nl) =~= j1) by {
        lemma_joined_push(l0, t, nl);
    }
    let l2 = if description is Some {
        l1.push(d)
    } else {
        l1
    };
    let j2 = j1 + (if description is Some {
        nl + d
    } else {
        seq![]
    });
    assert(text::joined(l2, nl) =~= j2) by {
        lemma_joined_push(l1, d, nl);
    }
    let l3 = if title is Some || description is Some {
        l2.push(s)
    } else {
        l2
    };
    let j3 = j2 + (if title is Some || description is Some {
        nl + s
    } else {
        seq![]
    });
    assert(text::joined(l3, nl) =~= j3) by {
        lemma_joined_push(l2, s, nl);
    }
    assert(head_lines(title, description) =~= l3);
}

/// Content is rendered in the format that is asked for, under the type of that format: as
/// JSON, as Markdown with one line end behind it, and as an HTML document for any other name.
pub proof fn law_content_is_rendered(v: SynValue, inner: SynValue, fmt: Seq<char>)
    requires
        v.data matches SynData::Server(s) && *s == ServerValue::Content(inner),
    ensures
        rendered(v, fmt).status == 200,
        fmt == "json"@ ==> rendered(v, fmt).body == vstd::utf8::encode_utf8(
            json::dumped(content::node_json(inner)),
        ) && rendered(v, fmt).content_type == "application/json; charset=utf-8"@,
        fmt == "md"@ ==> rendered(v, fmt).body == vstd::utf8::encode_utf8(
            text::trim_right(node_md(inner), Trim::Space) + seq!['\n'],
        ) && rendered(v, fmt).content_type == "text/markdown; charset=utf-8"@,
        fmt != "json"@ && fmt != "md"@ ==> rendered(v, fmt).body == vstd::utf8::encode_utf8(
            html_document(inner),
        ) && rendered(v, fmt).content_type == "text/html; charset=utf-8"@,
{
    reveal_strlit("json");
    reveal_strlit("md");
    assert("json"@.len() == 4 && "md"@.len() == 2);
    reveal_strlit("\n");
    assert("\n"@ =~= seq!['\n']);
}

} // verus!
