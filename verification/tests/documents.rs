use syntecnia_serve::content::syn_to_json;
use syntecnia_serve::json::{dumps, json_escape_str, Float, Json};
use syntecnia_serve::render::{
    esc, render_content, render_html, render_markdown, render_node_html, render_node_md, script_safe,
};
use syntecnia_serve::respond::{body_to_syn, json_to_syn, JsonBody};
use syntecnia_serve::value::{NewValue, Number, Paged, ServerValue, SynData, SynValue};

fn text(s: &str) -> SynValue {
    SynValue::text(s.to_string())
}

fn list(items: Vec<SynValue>) -> SynValue {
    SynValue { data: SynData::List(items), shown: "[list]".to_string() }
}

fn map(entries: Vec<(&str, SynValue)>) -> SynValue {
    SynValue {
        data: SynData::Mapping(entries.into_iter().map(|(k, v)| (k.to_string(), v)).collect()),
        shown: "{map}".to_string(),
    }
}

fn server(v: ServerValue) -> SynValue {
    SynValue { data: SynData::Server(Box::new(v)), shown: "<server>".to_string() }
}

fn node(kind: &str, fields: Vec<(&str, SynValue)>) -> SynValue {
    let mut all = vec![("kind".to_string(), text(kind))];
    all.extend(fields.into_iter().map(|(k, v)| (k.to_string(), v)));
    server(ServerValue::Node(all))
}

fn nothing() -> SynValue {
    SynValue { data: SynData::Nothing, shown: "nothing".to_string() }
}

fn float(repr: &str, whole: i64) -> SynValue {
    SynValue {
        data: SynData::Number(Number::Float(Float::Finite { repr: repr.to_string(), whole })),
        shown: repr.to_string(),
    }
}

fn page() -> SynValue {
    node(
        "page",
        vec![
            (
                "nodes",
                list(vec![
                    node("heading", vec![("level", SynValue::integer(2)), ("text", text("A & B"))]),
                    text("not a node"),
                    node("prose", vec![("text", text("x < y"))]),
                ]),
            ),
            ("meta", map(vec![("title", text("T</script>")), ("description", text("D\"d"))])),
        ],
    )
}

fn dump(v: &SynValue) -> String {
    dumps(&syn_to_json(v))
}

#[test]
fn strings_are_escaped() {
    let mut out = String::from("x");
    json_escape_str("a\"\\\u{8}\t\n\u{c}\r\u{1}\u{7f}é€😀", &mut out);
    assert_eq!(out, "x\"a\\\"\\\\\\b\\t\\n\\f\\r\\u0001\\u007f\\u00e9\\u20ac\\ud83d\\ude00\"");
}

#[test]
fn escaped_strings_read_back() {
    for s in ["", "plain", "quote\" slash\\ tab\t", "\u{0}\u{1f}\u{7f}", "ñ€𝄞\u{10ffff}"] {
        let text = dumps(&Json::Str(s.to_string()));
        assert!(text.bytes().all(|b| (0x20..0x7f).contains(&b)));
        let back: String = serde_json::from_str(&text).unwrap();
        assert_eq!(back, s);
    }
}

#[test]
fn documents_are_written_with_spaces() {
    let j = Json::Object(vec![
        ("a".to_string(), Json::Array(vec![Json::Int(1), Json::Null, Json::Bool(true)])),
        ("b".to_string(), Json::Object(Vec::new())),
        ("c".to_string(), Json::Array(Vec::new())),
        ("d".to_string(), Json::Int(i64::MIN)),
        ("e".to_string(), Json::BigInt("123456789012345678901234567890".to_string())),
        ("f".to_string(), Json::Bool(false)),
    ]);
    assert_eq!(
        dumps(&j),
        "{\"a\": [1, null, true], \"b\": {}, \"c\": [], \"d\": -9223372036854775808, \
         \"e\": 123456789012345678901234567890, \"f\": false}"
    );
}

#[test]
fn floats_in_documents() {
    assert_eq!(dumps(&Json::Float(Float::Nan)), "NaN");
    assert_eq!(dumps(&Json::Float(Float::Infinity)), "Infinity");
    assert_eq!(dumps(&Json::Float(Float::NegInfinity)), "-Infinity");
    assert_eq!(dump(&float("1.5", 1)), "1.5");
}

#[test]
fn values_as_json() {
    assert_eq!(dump(&nothing()), "null");
    assert_eq!(dump(&list(vec![SynValue::integer(1), text("a")])), "[1, \"a\"]");
    assert_eq!(dump(&map(vec![("k", SynValue::integer(-7))])), "{\"k\": -7}");
    let task = SynValue { data: SynData::Builtin("len".to_string()), shown: "<builtin len>".to_string() };
    assert_eq!(dump(&task), "\"<builtin len>\"");
    let raw = server(ServerValue::Raw {
        body: "b".to_string(),
        content_type: "t".to_string(),
        status: 201,
    });
    assert_eq!(dump(&raw), "{\"body\": \"b\", \"content_type\": \"t\", \"status\": 201}");
    let env = server(ServerValue::Envelope { status: 404, value: text("gone") });
    assert_eq!(dump(&env), "{\"status\": 404, \"value\": \"gone\"}");
    let paged = server(ServerValue::Paged(Paged { fetch: 3, all: Some(vec![SynValue::integer(9)]) }));
    assert_eq!(dump(&paged), "[9]");
    let failed = server(ServerValue::Paged(Paged { fetch: 3, all: None }));
    assert_eq!(dump(&failed), "null");
}

#[test]
fn nodes_as_json() {
    assert_eq!(
        dump(&page()),
        "{\"type\": \"page\", \"meta\": {\"title\": \"T</script>\", \"description\": \"D\\\"d\"}, \
         \"nodes\": [{\"type\": \"heading\", \"level\": 2, \"text\": \"A & B\"}, \
         {\"type\": \"prose\", \"text\": \"x < y\"}]}"
    );
    let code = node("code", vec![("text", text("1")), ("lang", nothing())]);
    assert_eq!(dump(&code), "{\"type\": \"code\", \"text\": \"1\"}");
    let l = node("list", vec![("items", list(vec![text("a"), code]))]);
    assert_eq!(
        dump(&l),
        "{\"type\": \"list\", \"items\": [\"a\", {\"type\": \"code\", \"text\": \"1\"}]}"
    );
    let s = node("section", vec![("nodes", list(vec![text("a")]))]);
    assert_eq!(dump(&s), "{\"type\": \"section\", \"nodes\": []}");
}

#[test]
fn html_escaping() {
    assert_eq!(esc("<a href=\"x\">'&'</a>"), "&lt;a href=&quot;x&quot;&gt;&#x27;&amp;&#x27;&lt;/a&gt;");
    assert_eq!(script_safe("{\"a\": \"</script>&\"}"), "{\"a\": \"\\u003c/script\\u003e\\u0026\"}");
    assert_eq!(esc("ñ"), "ñ");
}

#[test]
fn nodes_as_html() {
    let h = |level: i64| node("heading", vec![("level", SynValue::integer(level)), ("text", text("t"))]);
    assert_eq!(render_node_html(&h(3)), "<h3>t</h3>\n");
    assert_eq!(render_node_html(&h(0)), "<h1>t</h1>\n");
    assert_eq!(render_node_html(&h(99)), "<h6>t</h6>\n");
    let link = node("link", vec![("text", text("a<b")), ("href", text("/?x=\"1\""))]);
    assert_eq!(render_node_html(&link), "<a href=\"/?x=&quot;1&quot;\">a&lt;b</a>\n");
    let img = node("image", vec![("src", text("s")), ("alt", text("a"))]);
    assert_eq!(render_node_html(&img), "<img src=\"s\" alt=\"a\">\n");
    let code = node("code", vec![("text", text("<x>")), ("lang", text("rs"))]);
    assert_eq!(render_node_html(&code), "<pre><code class=\"language-rs\">&lt;x&gt;</code></pre>\n");
    let plain = node("code", vec![("text", text("x")), ("lang", nothing())]);
    assert_eq!(render_node_html(&plain), "<pre><code>x</code></pre>\n");
    let raw = node("raw", vec![("html", text("<b>&</b>"))]);
    assert_eq!(render_node_html(&raw), "<b>&</b>");
    let ol = node("ordered_list", vec![("items", list(vec![text("<1>"), img]))]);
    assert_eq!(
        render_node_html(&ol),
        "<ol><li>&lt;1&gt;</li><li><img src=\"s\" alt=\"a\">\n</li></ol>\n"
    );
    let section = node("section", vec![("nodes", list(vec![h(2), text("skipped")]))]);
    assert_eq!(render_node_html(&section), "<section>\n<h2>t</h2>\n</section>\n");
    assert_eq!(render_node_html(&node("unknown", vec![])), "");
}

#[test]
fn html_document() {
    assert_eq!(
        render_html(&page()),
        "<!DOCTYPE html>\n<html lang=\"en\">\n<head>\n<meta charset=\"utf-8\">\n\
         <meta name=\"viewport\" content=\"width=device-width, initial-scale=1\">\n\
         <title>T&lt;/script&gt;</title>\n<meta name=\"description\" content=\"D&quot;d\">\n\
         <script type=\"application/ld+json\">{\"@context\": \"https://schema.org\", \
         \"@type\": \"WebPage\", \"name\": \"T\\u003c/script\\u003e\", \
         \"description\": \"D\\\"d\"}</script>\n</head>\n<body>\n<h2>A &amp; B</h2>\n\
         <p>x &lt; y</p>\n</body>\n</html>\n"
    );
    let bare = node("prose", vec![("text", text("hi"))]);
    assert!(render_html(&bare).contains("<body>\n<p>hi</p>\n</body>"));
    assert!(!render_html(&bare).contains("<title>"));
}

#[test]
fn script_text_reads_back() {
    let titles = ["a < b && c > d", "\\u003c", "\\\\u003e\"<\\", "</script><!--", "é\u{1f600}\u{7f}\n\t&amp;", ""];
    for title in titles {
        let meta = map(vec![("title", text(title)), ("description", text("<&>\\"))]);
        let html = render_html(&node("page", vec![("nodes", list(vec![])), ("meta", meta)]));
        let start = html.find("ld+json\">").unwrap() + "ld+json\">".len();
        let script = &html[start..html.find("</script>").unwrap()];
        let mut quoted = String::new();
        json_escape_str(title, &mut quoted);
        let want = format!(
            "{{\"@context\": \"https://schema.org\", \"@type\": \"WebPage\", \"name\": {}, \"description\": \"<&>\\\\\"}}",
            quoted
        );
        assert_eq!(script, script_safe(&want));
        let read: serde_json::Value = serde_json::from_str(script).unwrap();
        let plain: serde_json::Value = serde_json::from_str(&want).unwrap();
        assert_eq!(read, plain);
        assert_eq!(read["name"].as_str(), Some(title));
        assert_eq!(read["description"].as_str(), Some("<&>\\"));
    }
}

#[test]
fn nodes_as_markdown() {
    let h = node("heading", vec![("level", SynValue::integer(3)), ("text", text("t"))]);
    assert_eq!(render_node_md(&h), "### t");
    let items = || list(vec![text("a"), node("prose", vec![("text", text("  b "))])]);
    assert_eq!(render_node_md(&node("list", vec![("items", items())])), "- a\n- b");
    assert_eq!(render_node_md(&node("ordered_list", vec![("items", items())])), "1. a\n2. b");
    let link = node("link", vec![("text", text("t")), ("href", text("u"))]);
    assert_eq!(render_node_md(&link), "[t](u)");
    let img = node("image", vec![("src", text("s")), ("alt", text("a"))]);
    assert_eq!(render_node_md(&img), "![a](s)");
    let code = node("code", vec![("text", text("x")), ("lang", text("rs"))]);
    assert_eq!(render_node_md(&code), "```rs\nx\n```");
    assert_eq!(render_node_md(&node("raw", vec![("html", text("<i>"))])), "<i>");
    let section = node("section", vec![("nodes", list(vec![h, text("no"), link]))]);
    assert_eq!(render_node_md(&section), "### t\n\n[t](u)");
    assert_eq!(render_node_md(&node("other", vec![])), "");
}

#[test]
fn markdown_document() {
    assert_eq!(render_markdown(&page()), "## A & B\n\nx < y\n");
    assert_eq!(render_markdown(&node("prose", vec![("text", text("hi  \n\n"))])), "hi\n");
}

#[test]
fn content_in_each_format() {
    let c = server(ServerValue::Content(node("prose", vec![("text", text("é"))])));
    let j = render_content(&c, "json");
    assert_eq!(j.content_type, "application/json; charset=utf-8");
    assert_eq!(j.body, b"{\"type\": \"prose\", \"text\": \"\\u00e9\"}");
    let m = render_content(&c, "md");
    assert_eq!(m.content_type, "text/markdown; charset=utf-8");
    assert_eq!(m.body, "é\n".as_bytes());
    let h = render_content(&c, "html");
    assert_eq!((h.content_type.as_str(), h.status), ("text/html; charset=utf-8", 200));
    assert_eq!(render_content(&c, "anything").body, h.body);
}

#[test]
fn request_documents_as_values() {
    let body = JsonBody::Object(vec![
        ("n".to_string(), JsonBody::Null),
        ("i".to_string(), JsonBody::Number { integer: Some(3), float: Some("3.0".to_string()) }),
        ("f".to_string(), JsonBody::Number { integer: None, float: Some("0.5".to_string()) }),
        ("z".to_string(), JsonBody::Number { integer: None, float: None }),
        ("l".to_string(), JsonBody::Array(vec![JsonBody::Bool(true), JsonBody::Str("s".to_string())])),
    ]);
    let v = match body_to_syn(&body) {
        NewValue::Mapping(v) => v,
        _ => panic!("no map"),
    };
    let keys: Vec<&str> = v.iter().map(|(k, _)| k.as_str()).collect();
    assert_eq!(keys, vec!["n", "i", "f", "z", "l"]);
    assert!(matches!(v[0].1, NewValue::Nothing));
    assert!(matches!(v[1].1, NewValue::Int(3)));
    assert!(matches!(&v[2].1, NewValue::Float(s) if s == "0.5"));
    assert!(matches!(v[3].1, NewValue::Int(0)));
    match &v[4].1 {
        NewValue::List(l) => {
            assert!(matches!(l[0], NewValue::Bool(true)));
            assert!(matches!(&l[1], NewValue::Text(s) if s == "s"));
        }
        _ => panic!("no list"),
    }
}

#[test]
fn parsed_documents_as_values() {
    let parsed = serde_json::from_str("{\"b\": [null, -7, 0.25, 1e300, 18446744073709551615], \"a\": \"é\"}");
    let v = match json_to_syn(&parsed.unwrap()) {
        NewValue::Mapping(v) => v,
        _ => panic!("no map"),
    };
    let find = |key: &str| match v.iter().find(|(k, _)| k == key) {
        Some((_, x)) => x,
        None => panic!("no member"),
    };
    assert_eq!(v.len(), 2);
    assert!(matches!(find("a"), NewValue::Text(s) if s == "é"));
    match find("b") {
        NewValue::List(l) => {
            assert_eq!(l.len(), 5);
            assert!(matches!(l[0], NewValue::Nothing));
            assert!(matches!(l[1], NewValue::Int(-7)));
            assert!(matches!(&l[2], NewValue::Float(s) if s == "0.25"));
            assert!(matches!(&l[3], NewValue::Float(s) if s.parse::<f64>() == Ok(1e300)));
            assert!(matches!(&l[4], NewValue::Float(s) if s.parse::<f64>() == Ok(18446744073709551615.0)));
        }
        _ => panic!("no list"),
    }
    assert!(matches!(json_to_syn(&serde_json::Value::Bool(true)), NewValue::Bool(true)));
}
