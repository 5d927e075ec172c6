use syntecnia_serve::host::{norm_prefix, HostRouter, Mount};
use syntecnia_serve::routing::{
    param_last_segment, path_match, segments, specificity, RateLimit, RouteSpec,
};
use syntecnia_serve::url::{hex_val, parse_path_query, unquote};

fn route(method: &str, path: &str, handler: usize) -> RouteSpec {
    RouteSpec {
        method: method.to_string(),
        path: path.to_string(),
        param_names: Vec::new(),
        requires_auth: false,
        streaming: false,
        rate_limit: None,
        rate_zone: None,
        handler,
        stream_handler: None,
    }
}

fn mount(prefix: &str, dir: usize) -> Mount {
    Mount { prefix: prefix.to_string(), dir, base: Vec::new() }
}

#[test]
fn specificity_ordering() {
    assert_eq!(specificity("/products"), vec![0]);
    assert_eq!(specificity("/products/:id"), vec![0, 1]);
    assert_eq!(specificity("/files/*path"), vec![0, 2]);
    assert_eq!(specificity("/"), Vec::<i32>::new());
    let mut routes = vec!["/a/*x", "/a/:id", "/a/b"];
    routes.sort_by_key(|p| specificity(p));
    assert_eq!(routes, vec!["/a/b", "/a/:id", "/a/*x"]);
}

#[test]
fn path_match_exact_and_params() {
    assert!(path_match("/health", "/health").is_some());
    assert!(path_match("/health", "/other").is_none());

    let p = path_match("/products/:id", "/products/42").unwrap();
    assert_eq!(p.get("id").map(String::as_str), Some("42"));

    assert!(path_match("/products/:id", "/products/42/extra").is_none());
    assert!(path_match("/products/:id", "/products").is_none());
}

#[test]
fn path_match_catchall() {
    let p = path_match("/files/*path", "/files/a/b/c.txt").unwrap();
    assert_eq!(p.get("path").map(String::as_str), Some("a/b/c.txt"));
    assert!(path_match("/files/*path", "/files").is_none());
}

#[test]
fn path_match_url_decodes_params() {
    let p = path_match("/u/:name", "/u/jos%C3%A9").unwrap();
    assert_eq!(p.get("name").map(String::as_str), Some("josé"));
}

#[test]
fn param_last_segment_detection() {
    assert!(param_last_segment("/blog/:slug"));
    assert!(!param_last_segment("/blog/post"));
    assert!(!param_last_segment("/files/*path"));
}

#[test]
fn parse_path_query_basic() {
    let (p, q) = parse_path_query("/search?q=hello+world&limit=10");
    assert_eq!(p, "/search");
    assert_eq!(q.get("q").map(String::as_str), Some("hello world"));
    assert_eq!(q.get("limit").map(String::as_str), Some("10"));
    let (p2, q2) = parse_path_query("/plain");
    assert_eq!(p2, "/plain");
    assert!(q2.is_empty());
}

#[test]
fn query_edge_cases() {
    let (p, q) = parse_path_query("/a?x=1&x=2&=v&&flag&y=%41%zz#frag");
    assert_eq!(p, "/a");
    assert_eq!(q.get("x").map(String::as_str), Some("2"));
    assert_eq!(q.get("flag").map(String::as_str), Some(""));
    assert_eq!(q.get("y").map(String::as_str), Some("A%zz"));
    assert_eq!(q.len(), 3);
    let keys: Vec<&String> = q.keys().collect();
    assert_eq!(keys, vec!["x", "flag", "y"]);
}

#[test]
fn fragment_is_left_out() {
    let (p, q) = parse_path_query("/a?x=1#frag");
    assert_eq!(p, "/a");
    assert_eq!(q.get("x").map(String::as_str), Some("1"));
    let (p, q) = parse_path_query("/a#f?x=1");
    assert_eq!(p, "/a");
    assert!(q.is_empty());
    let (p, q) = parse_path_query("#?x=1");
    assert_eq!(p, "");
    assert!(q.is_empty());
}

#[test]
fn escaped_text_is_read_back() {
    for (s, rest) in [("josé/€", "x"), ("a b", "%41"), ("", "%"), ("\u{10ffff}", "%ff"), ("%", "41")] {
        let lower: String = s.bytes().map(|b| format!("%{:02x}", b)).collect();
        let upper: String = s.bytes().map(|b| format!("%{:02X}", b)).collect();
        let want = format!("p+{}{}", s, unquote(rest));
        assert_eq!(unquote(&format!("p+{}{}", lower, rest)), want);
        assert_eq!(unquote(&format!("p+{}{}", upper, rest)), want);
    }
    assert_eq!(unquote("%ff%41"), "\u{fffd}A");
}

#[test]
fn last_value_of_a_key_counts() {
    let (_, q) = parse_path_query("/?a=1&b=2&a=3");
    assert_eq!(q.get("a").map(String::as_str), Some("3"));
    assert_eq!(q.get("b").map(String::as_str), Some("2"));
    assert_eq!(q.get_index(0).map(|(k, _)| k.as_str()), Some("a"));
}

#[test]
fn percent_decoding() {
    assert_eq!(unquote("plain+text"), "plain+text");
    assert_eq!(unquote("a%20b"), "a b");
    assert_eq!(unquote("%e2%82%ac"), "€");
    assert_eq!(unquote("100%"), "100%");
    assert_eq!(unquote("%4"), "%4");
    assert_eq!(unquote("%4g"), "%4g");
    assert_eq!(unquote("%ff"), "\u{fffd}");
    assert_eq!(unquote("x%80%FFA"), "x\u{fffd}\u{fffd}A");
    assert_eq!(unquote("café"), "café");
}

#[test]
fn hexadecimal_digits() {
    assert_eq!(hex_val(48), Some(0));
    assert_eq!(hex_val(57), Some(9));
    assert_eq!(hex_val(97), Some(10));
    assert_eq!(hex_val(70), Some(15));
    assert_eq!(hex_val(71), None);
    assert_eq!(hex_val(47), None);
}

#[test]
fn segments_skip_empty_pieces() {
    let segs = segments("//a///bc/");
    assert_eq!(segs, vec![vec!['a'], vec!['b', 'c']]);
    assert!(segments("").is_empty());
}

#[test]
fn repeated_parameter_keeps_the_last_value() {
    let p = path_match("/:x/:x", "/1/2").unwrap();
    assert_eq!(p.len(), 1);
    assert_eq!(p.get("x").map(String::as_str), Some("2"));
}

#[test]
fn catchall_decodes_each_segment() {
    let p = path_match("/*rest", "/a%2Fb//c").unwrap();
    assert_eq!(p.get("rest").map(String::as_str), Some("a/b/c"));
}

#[test]
fn most_specific_route_answers() {
    let h = HostRouter::new(
        None,
        vec![
            route("GET", "/a/*x", 1),
            route("GET", "/a/:id", 2),
            route("GET", "/a/b", 3),
            route("POST", "/a/b", 4),
        ],
        Vec::new(),
        None,
    );
    let (i, _) = h.match_route("GET", "/a/b").unwrap();
    assert_eq!(h.routes[i].handler, 3);
    let (i, p) = h.match_route("GET", "/a/7").unwrap();
    assert_eq!(h.routes[i].handler, 2);
    assert_eq!(p.get("id").map(String::as_str), Some("7"));
    let (i, _) = h.match_route("GET", "/a/b/c").unwrap();
    assert_eq!(h.routes[i].handler, 1);
    assert!(h.match_route("PUT", "/a/b").is_none());
    assert!(h.match_route("GET", "/z").is_none());
}

#[test]
fn equal_routes_keep_their_order() {
    let h = HostRouter::new(
        None,
        vec![route("GET", "/:a", 1), route("GET", "/:b", 2), route("GET", "/x", 3)],
        Vec::new(),
        None,
    );
    let order: Vec<usize> = h.routes.iter().map(|r| r.handler).collect();
    assert_eq!(order, vec![3, 1, 2]);
}

#[test]
fn methods_are_sorted_and_listed_once() {
    let h = HostRouter::new(
        None,
        vec![
            route("PUT", "/a", 1),
            route("GET", "/:x", 2),
            route("GET", "/a", 3),
            route("DELETE", "/b", 4),
        ],
        Vec::new(),
        None,
    );
    assert_eq!(h.methods_for_path("/a"), vec!["GET", "PUT"]);
    assert_eq!(h.methods_for_path("/b"), vec!["DELETE", "GET"]);
    assert!(h.methods_for_path("/a/b").is_empty());
}

#[test]
fn prefixes_are_normalised() {
    assert_eq!(norm_prefix(""), "/");
    assert_eq!(norm_prefix("/"), "/");
    assert_eq!(norm_prefix("static"), "/static/");
    assert_eq!(norm_prefix("//static/x//"), "/static/x/");
}

#[test]
fn longest_mount_comes_first() {
    let h = HostRouter::new(
        None,
        Vec::new(),
        vec![mount("/", 0), mount("assets", 1), mount("/assets/img", 2)],
        None,
    );
    let dirs: Vec<usize> = h.static_mounts.iter().map(|m| m.dir).collect();
    assert_eq!(dirs, vec![2, 1, 0]);
    assert_eq!(h.static_mounts[0].prefix, "/assets/img/");
    assert_eq!(h.static_mounts[1].relative("/assets/a.css"), Some("a.css".to_string()));
    assert_eq!(h.static_mounts[1].relative("/assets"), Some(String::new()));
    assert_eq!(h.static_mounts[1].relative("/assetsx"), None);
    assert_eq!(h.static_mounts[2].relative("/any"), Some("/any".to_string()));
}

#[test]
fn host_patterns() {
    let exact = HostRouter::new(Some("A.com".to_string()), Vec::new(), Vec::new(), None);
    assert!(exact.matches_host("a.COM"));
    assert!(!exact.matches_host("b.a.com"));
    let wild = HostRouter::new(Some("*.a.com".to_string()), Vec::new(), Vec::new(), None);
    assert!(wild.matches_host("a.com"));
    assert!(wild.matches_host("x.y.A.com"));
    assert!(!wild.matches_host("ba.com"));
    let any = HostRouter::new(None, Vec::new(), Vec::new(), None);
    assert!(any.matches_host("whatever"));
}

#[test]
fn rate_limits_are_plain_values() {
    let limit = RateLimit { capacity: 5, window_bits: 60f64.to_bits() };
    let copy = limit;
    assert_eq!(copy.capacity, 5);
    assert_eq!(f64::from_bits(copy.window_bits), 60.0);
}
