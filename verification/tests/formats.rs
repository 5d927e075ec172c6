use std::io::Read;

use syntecnia_serve::body_size::{parse_body_size_str, MAX_BODY};
use syntecnia_serve::host::{HostRouter, Mount};
use syntecnia_serve::media::{
    dotted, is_compressible, negotiate_format, split_format_suffix, static_content_type,
    web_content_type, RawResponse,
};
use syntecnia_serve::static_files::{
    etag_for, gzip_bytes, may_look_up, parse_range, resolve_in, respond_with, static_response,
    wanted_file, within, Found, Lookup, MountStep, NextLookup, Opened, StaticResp,
};

fn header(resp: &StaticResp, name: &str) -> Option<String> {
    resp.extra.iter().find(|(k, _)| k == name).map(|(_, v)| v.clone())
}

fn gunzip(data: &[u8]) -> Vec<u8> {
    let mut dec = flate2::read::GzDecoder::new(data);
    let mut out = Vec::new();
    dec.read_to_end(&mut out).unwrap();
    out
}

fn path(parts: &[&str]) -> Vec<Vec<u8>> {
    parts.iter().map(|p| p.as_bytes().to_vec()).collect()
}

#[test]
fn split_format_suffix_works() {
    assert_eq!(split_format_suffix("/blog/hola.json"), ("/blog/hola".into(), Some("json".into())));
    assert_eq!(split_format_suffix("/a.md"), ("/a".into(), Some("md".into())));
    assert_eq!(split_format_suffix("/plain"), ("/plain".into(), None));
    assert_eq!(split_format_suffix("/.json"), ("/.json".into(), None));
    assert_eq!(split_format_suffix("/dir/.md"), ("/dir/.md".into(), None));
}

#[test]
fn suffix_and_stem_make_up_the_path() {
    for p in ["/a.html", "/x/y.json", "/é.md"] {
        let (stem, fmt) = split_format_suffix(p);
        assert_eq!(format!("{}.{}", stem, fmt.unwrap()), p);
    }
    assert_eq!(split_format_suffix(".md"), (".md".into(), None));
    assert_eq!(split_format_suffix("a.htm"), ("a.htm".into(), None));
}

#[test]
fn negotiate_format_defaults_html() {
    assert_eq!(negotiate_format(""), "html");
    assert_eq!(negotiate_format("*/*"), "html");
    assert_eq!(negotiate_format("text/html"), "html");
    assert_eq!(negotiate_format("application/json"), "json");
    assert_eq!(negotiate_format("text/markdown"), "md");
    assert_eq!(negotiate_format("application/json, text/html"), "html");
}

#[test]
fn negotiation_ignores_case_and_prefers_markdown() {
    assert_eq!(negotiate_format("TEXT/MARKDOWN"), "md");
    assert_eq!(negotiate_format("application/json, text/markdown"), "md");
    assert_eq!(negotiate_format("text/markdown, Text/HTML;q=0.1"), "html");
    assert_eq!(negotiate_format("İ application/json"), "json");
}

#[test]
fn parse_body_size_units() {
    assert_eq!(parse_body_size_str("512kb"), Some(512 * 1024));
    assert_eq!(parse_body_size_str("10mb"), Some(10 * 1024 * 1024));
    assert_eq!(parse_body_size_str("1gb"), Some(1024 * 1024 * 1024));
    assert_eq!(parse_body_size_str("2048"), Some(2048));
    assert_eq!(parse_body_size_str("unlimited"), None);
    assert_eq!(parse_body_size_str("none"), None);
    assert_eq!(parse_body_size_str("garbage"), Some(MAX_BODY));
}

#[test]
fn body_size_grammar() {
    assert_eq!(parse_body_size_str("  OFF "), None);
    assert_eq!(parse_body_size_str("0"), None);
    assert_eq!(parse_body_size_str("00"), Some(0));
    assert_eq!(parse_body_size_str("0.0"), Some(0));
    assert_eq!(parse_body_size_str("12 B"), Some(12));
    assert_eq!(parse_body_size_str("1.5 KB"), Some(1536));
    assert_eq!(parse_body_size_str("0.5kb"), Some(512));
    assert_eq!(parse_body_size_str(".5kb"), Some(MAX_BODY));
    assert_eq!(parse_body_size_str(".5"), Some(MAX_BODY));
    assert_eq!(parse_body_size_str("5."), Some(MAX_BODY));
    assert_eq!(parse_body_size_str("5.kb"), Some(MAX_BODY));
    assert_eq!(parse_body_size_str("5. 0"), Some(MAX_BODY));
    assert_eq!(parse_body_size_str("."), Some(MAX_BODY));
    assert_eq!(parse_body_size_str(""), Some(MAX_BODY));
    assert_eq!(parse_body_size_str("1.2.3"), Some(MAX_BODY));
    assert_eq!(parse_body_size_str("5 tb"), Some(MAX_BODY));
    assert_eq!(parse_body_size_str("-5"), Some(MAX_BODY));
    assert_eq!(MAX_BODY, 1_048_576);
}

#[test]
fn body_size_rounds_like_a_double() {
    let cases = [
        "9007199254740992",
        "9007199254740993",
        "9007199254740995",
        "9007199254740993.0000000000000000000000000000000001",
        "9223372036854775807",
        "9223372036854775808",
        "9223372036854774784",
        "9223372036854775295",
        "9223372036854775296",
        "99999999999999999999999999",
        "0.1",
        "0.30000000000000004",
        "1.9999999999999999999",
        "0.99999999999999999999999",
        "4503599627370497.5",
        "4503599627370496.5",
        "123456789.987654321",
        "0.00000000093132257461547851562",
        "0.00000000093132257461547851563",
        "0.00000000000000000000000000000001",
        "1152921504606846976",
        "1152921504606847104",
        "1152921504606847232",
        "8589934591.999999999999",
    ];
    for text in cases {
        let n: f64 = text.parse().unwrap();
        for (unit, mult) in
            [("", 1i64), ("b", 1), ("kb", 1024), ("mb", 1024 * 1024), ("gb", 1024 * 1024 * 1024)]
        {
            let want = (n * mult as f64) as i64;
            assert_eq!(parse_body_size_str(&format!("{}{}", text, unit)), Some(want), "{}{}", text, unit);
        }
    }
}

#[test]
fn parse_range_forms() {
    assert_eq!(parse_range("bytes=0-3", 10), Some((0, 3)));
    assert_eq!(parse_range("bytes=5-", 10), Some((5, 9)));
    assert_eq!(parse_range("bytes=-3", 10), Some((7, 9)));
    assert_eq!(parse_range("bytes=2-999", 10), Some((2, 9)));
    assert_eq!(parse_range("bytes=10-12", 10), None);
    assert_eq!(parse_range("bytes=20-", 10), None);
    assert_eq!(parse_range("bytes=5-2", 10), None);
    assert_eq!(parse_range("bytes=0-0", 0), None);
    assert_eq!(parse_range("0-3", 10), None);
}

#[test]
fn parse_range_edges() {
    assert_eq!(parse_range("  bytes= 1 - 2 ", 10), Some((1, 2)));
    assert_eq!(parse_range("bytes=-0", 10), None);
    assert_eq!(parse_range("bytes=-99", 10), Some((0, 9)));
    assert_eq!(parse_range("bytes=+1-+2", 10), Some((1, 2)));
    assert_eq!(parse_range("bytes=-", 10), None);
    assert_eq!(parse_range("bytes=a-b", 10), None);
    assert_eq!(parse_range("bytes=9-9", 10), Some((9, 9)));
    assert_eq!(parse_range("bytes=5", 10), None);
    assert_eq!(parse_range("bytes=1-99999999999999999999999", 10), None);
}

#[test]
fn compressible_types() {
    assert!(is_compressible("text/html"));
    assert!(is_compressible("text/html; charset=utf-8"));
    assert!(is_compressible("text/css"));
    assert!(is_compressible("application/json"));
    assert!(is_compressible("image/svg+xml"));
    assert!(is_compressible("text/plain"));
    assert!(!is_compressible("image/png"));
    assert!(!is_compressible("application/octet-stream"));
    assert!(!is_compressible("font/woff2"));
}

#[test]
fn gzip_roundtrip() {
    let data = b"hola mundo, esto se comprime bien bien bien bien bien".repeat(10);
    let gz = gzip_bytes(&data).expect("gzip");
    assert_eq!(&gz[..2], &[0x1f, 0x8b]);
    let mut dec = flate2::read::GzDecoder::new(&gz[..]);
    let mut out = Vec::new();
    dec.read_to_end(&mut out).unwrap();
    assert_eq!(out, data);
}

#[test]
fn serve_static_etag_range_gzip() {
    let body = b"<!doctype html><h1>hola</h1> contenido suficiente para comprimir".to_vec();
    let h = HostRouter::new(
        None,
        Vec::new(),
        vec![Mount { prefix: "/".to_string(), dir: 0, base: path(&["/", "srv"]) }],
        None,
    );
    let (i, name) = h.next_mount("/index.html", 0).expect("estático");
    assert_eq!((i, name.as_str()), (0, "index.html"));
    let found = Some(Found { real: path(&["/", "srv", "index.html"]), is_dir: false, is_file: true });
    assert!(matches!(resolve_in(&h.static_mounts[i].base, Lookup::Named, &found), NextLookup::Serve));
    let ct = static_content_type(&dotted(&Some("HTML".to_string())), None);
    assert_eq!(ct, "text/html; charset=utf-8");
    let tag = etag_for(body.len(), Some(1_700_000_000));
    assert_eq!(tag, format!("\"{:x}-{:x}\"", body.len(), 1_700_000_000u64));

    let r = static_response(body.clone(), ct.clone(), &tag, &vec![]);
    assert_eq!(r.status, 200);
    assert_eq!(r.body, body);
    let etag = header(&r, "ETag").expect("ETag");
    assert!(etag.starts_with('"') && etag.ends_with('"'));

    let h304 = vec![("If-None-Match".to_string(), etag.clone())];
    let r = static_response(body.clone(), ct.clone(), &tag, &h304);
    assert_eq!(r.status, 304);
    assert!(r.body.is_empty());

    let hr = vec![("Range".to_string(), "bytes=0-3".to_string())];
    let r = static_response(body.clone(), ct.clone(), &tag, &hr);
    assert_eq!(r.status, 206);
    assert_eq!(r.body, &body[0..=3]);
    assert_eq!(header(&r, "Content-Range"), Some(format!("bytes 0-3/{}", body.len())));

    let hg = vec![("Accept-Encoding".to_string(), "gzip, deflate".to_string())];
    let r = static_response(body.clone(), ct.clone(), &tag, &hg);
    assert_eq!(r.status, 200);
    assert!(r.extra.iter().any(|(k, v)| k == "Content-Encoding" && v == "gzip"));
    assert!(r.extra.iter().any(|(k, v)| k == "Vary" && v == "Accept-Encoding"));
    assert_eq!(gunzip(&r.body), body);

    assert!(matches!(resolve_in(&h.static_mounts[i].base, Lookup::Named, &None), NextLookup::Fail));
}

#[test]
fn unsatisfiable_range() {
    let hr = vec![("range".to_string(), "bytes=90-".to_string())];
    let r = static_response(vec![1, 2, 3], "image/png".to_string(), "\"t\"", &hr);
    assert_eq!(r.status, 416);
    assert!(r.body.is_empty());
    assert_eq!(r.extra, vec![("Content-Range".to_string(), "bytes */3".to_string())]);
}

#[test]
fn no_gzip_without_need() {
    let hg = vec![("Accept-Encoding".to_string(), "GZIP".to_string())];
    let data = vec![7u8; 100];
    let png = static_response(data.clone(), "image/png".to_string(), "\"t\"", &hg);
    assert_eq!(png.body, data);
    let txt = static_response(data.clone(), "text/plain".to_string(), "\"t\"", &hg);
    assert_ne!(txt.body, data);
    assert_eq!(gunzip(&txt.body), data);
    let failed = respond_with(data.clone(), "text/plain".to_string(), "\"t\"", &hg, None);
    assert_eq!(failed.status, 200);
    assert_eq!(failed.body, data);
    assert_eq!(failed.extra.len(), 2);
}

#[test]
fn etag_without_a_time() {
    assert_eq!(etag_for(255, None), "\"ff-0\"");
    assert_eq!(etag_for(0, Some(16)), "\"0-10\"");
}

#[test]
fn content_types() {
    assert_eq!(web_content_type(".mjs"), Some("text/javascript; charset=utf-8"));
    assert_eq!(web_content_type(".htm"), Some("text/html; charset=utf-8"));
    assert_eq!(web_content_type(".jpeg"), Some("image/jpeg"));
    assert_eq!(web_content_type(".wasm"), Some("application/wasm"));
    assert_eq!(web_content_type("html"), None);
    assert_eq!(static_content_type(".csv", Some("text/csv")), "text/csv; charset=utf-8");
    assert_eq!(static_content_type(".csv", Some("text/csv; charset=x")), "text/csv; charset=x");
    assert_eq!(static_content_type(".zip", Some("application/zip")), "application/zip");
    assert_eq!(static_content_type(".bin", None), "application/octet-stream");
    assert_eq!(static_content_type(".js", Some("text/plain")), "text/javascript; charset=utf-8");
    assert_eq!(dotted(&None), "");
    assert_eq!(dotted(&Some("PÑG".to_string())), ".pñg");
}

#[test]
fn raw_text_response() {
    let r = RawResponse::text("añ", "text/plain", 201);
    assert_eq!(r.body, "añ".as_bytes());
    assert_eq!(r.content_type, "text/plain");
    assert_eq!(r.status, 201);
}

#[test]
fn files_are_named_below_a_mount() {
    assert_eq!(wanted_file("/a%20b.txt"), "a b.txt");
    assert_eq!(wanted_file("///"), "index.html");
    assert_eq!(wanted_file(""), "index.html");
    assert!(may_look_up("a.txt", false));
    assert!(!may_look_up("c:x", false));
    assert!(!may_look_up("a.txt", true));
    assert!(may_look_up("é:", false));
    assert!(may_look_up(":", false));
}

#[test]
fn nothing_outside_the_directory_is_served() {
    let base = path(&["/", "srv"]);
    assert!(within(&base, &path(&["/", "srv"])));
    assert!(within(&base, &path(&["/", "srv", "a"])));
    assert!(!within(&base, &path(&["/", "srvx"])));
    assert!(!within(&base, &path(&["/"])));
    let outside = Some(Found { real: path(&["/", "etc", "passwd"]), is_dir: false, is_file: true });
    assert!(matches!(resolve_in(&base, Lookup::Named, &outside), NextLookup::Fail));
    let dir = Some(Found { real: path(&["/", "srv", "d"]), is_dir: true, is_file: false });
    assert!(matches!(resolve_in(&base, Lookup::Named, &dir), NextLookup::Index));
    assert!(matches!(resolve_in(&base, Lookup::Index, &dir), NextLookup::Fail));
    let file = Some(Found { real: path(&["/", "srv", "d", "index.html"]), is_dir: false, is_file: true });
    assert!(matches!(resolve_in(&base, Lookup::Index, &file), NextLookup::Serve));
    let odd = Some(Found { real: path(&["/", "srv", "pipe"]), is_dir: false, is_file: false });
    assert!(matches!(resolve_in(&base, Lookup::Named, &odd), NextLookup::Fail));
}

#[test]
fn mounts_are_tried_in_turn() {
    let h = HostRouter::new(
        None,
        Vec::new(),
        vec![
            Mount { prefix: "/".to_string(), dir: 0, base: Vec::new() },
            Mount { prefix: "a".to_string(), dir: 1, base: Vec::new() },
        ],
        None,
    );
    let (i, name) = h.next_mount("/a/x.css", 0).unwrap();
    assert_eq!((h.static_mounts[i].dir, name.as_str()), (1, "x.css"));
    let (j, name) = h.next_mount("/a/x.css", i + 1).unwrap();
    assert_eq!((h.static_mounts[j].dir, name.as_str()), (0, "a/x.css"));
    assert!(h.next_mount("/a/x.css", j + 1).is_none());
}

fn opened(data: &[u8], ext: &str, guessed: Option<&str>) -> Opened {
    Opened { data: data.to_vec(), ext: ext.to_string(), guessed: guessed.map(str::to_string), mtime: Some(16) }
}

/// Searches where the directory of number `d` holds what `held(d, name)` gives.
fn search(h: &HostRouter, path: &str, held: &dyn Fn(usize, &str) -> Option<Opened>) -> Option<StaticResp> {
    let headers = Vec::new();
    let mut step = h.first_mount(path);
    loop {
        step = match step {
            MountStep::Try { mount, name } => {
                let found = held(h.static_mounts[mount].dir, &name);
                h.after_mount(path, mount, found, &headers)
            }
            MountStep::Respond(r) => return Some(r),
            MountStep::Fail => return None,
        };
    }
}

#[test]
fn first_mount_that_holds_the_file_answers() {
    let mount = |prefix: &str, dir: usize| Mount { prefix: prefix.to_string(), dir, base: Vec::new() };
    let h = HostRouter::new(None, Vec::new(), vec![mount("/", 0), mount("a", 1), mount("b", 2)], None);
    let both = search(&h, "/a/x.txt", &|d, _| Some(opened(&[d as u8], ".txt", None))).unwrap();
    assert_eq!((both.status, both.body), (200, vec![1]));
    let second = search(&h, "/a/x.txt", &|d, name| {
        assert_ne!(d, 2);
        if d == 0 && name == "a/x.txt" {
            Some(opened(b"root", ".zzz", Some("text/odd")))
        } else {
            None
        }
    })
    .unwrap();
    assert_eq!(second.body, b"root");
    assert_eq!(second.content_type, "text/odd; charset=utf-8");
    assert_eq!(header(&second, "ETag").as_deref(), Some("\"4-10\""));
    assert!(search(&h, "/nope.html", &|_, _| None).is_none());
}

#[test]
fn compression_is_owed() {
    let mount = Mount { prefix: "/".to_string(), dir: 0, base: Vec::new() };
    let h = HostRouter::new(None, Vec::new(), vec![mount], None);
    let serve = |data: &[u8], headers: Vec<(String, String)>| {
        match h.after_mount("/x.css", 0, Some(opened(data, ".css", None)), &headers) {
            MountStep::Respond(r) => r,
            _ => panic!("no response"),
        }
    };
    for data in [&b""[..], &b"a"[..], &[7u8; 70_000][..]] {
        let z = serve(data, vec![("accept-encoding".to_string(), "br, GZip".to_string())]);
        assert_eq!((z.status, gunzip(&z.body)), (200, data.to_vec()));
        assert_eq!(header(&z, "Content-Encoding").as_deref(), Some("gzip"));
        assert_eq!(header(&z, "Vary").as_deref(), Some("Accept-Encoding"));
        let plain = serve(data, vec![]);
        assert_eq!((plain.status, plain.body.as_slice()), (200, data));
        assert_eq!(header(&plain, "Content-Encoding"), None);
        assert_eq!(header(&plain, "ETag"), header(&z, "ETag"));
    }
}
