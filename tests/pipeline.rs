use cblt::config::{build_config, ConfigNode};
use cblt::directive::{next_action, replace_uri, select_host, Action, Walk};
use cblt::error::CbltError;
use cblt::file_server::{child_path, fallback_path, file_target, sanitize_path};
use cblt::pattern::matches_pattern;
use cblt::request::{parse_request_headers, Request};
use cblt::response::{error_response, file_response, redirect_response, response_head, send_response};
use cblt::servers::{build_servers, plan_workers, ParsedHost, Server};

fn node(name: &str, args: &[&str], children: Option<Vec<ConfigNode>>) -> ConfigNode {
    ConfigNode {
        name: name.to_string(),
        args: args.iter().map(|a| Some(a.to_string())).collect(),
        children,
    }
}

fn leaf(name: &str, args: &[&str]) -> ConfigNode {
    node(name, args, None)
}

fn servers_for(cfg: Vec<ConfigNode>) -> Vec<Server> {
    build_servers(build_config(&cfg).expect("config builds"))
}

fn request(bytes: &[u8]) -> Request {
    parse_request_headers(&bytes.to_vec()).expect("well formed").expect("complete").0
}

fn text(b: &[u8]) -> String {
    String::from_utf8(b.to_vec()).expect("ascii")
}

fn e1_servers() -> Vec<Server> {
    servers_for(vec![node("example.com", &[], Some(vec![leaf("root", &["*", "./www"]), leaf("file_server", &[])]))])
}

#[test]
fn serves_index_file() {
    let servers = e1_servers();
    assert_eq!(servers.len(), 1);
    assert_eq!(servers[0].port, 80);
    let req = request(b"GET / HTTP/1.1\r\nHost: example.com\r\n\r\n");
    let host = req.header_str("Host");
    let i = select_host(&servers[0].hosts, &host).expect("host served");
    let mut walk = Walk::new();
    let (root, fallback) = match next_action(&servers[0].hosts[i].1, &mut walk, &req) {
        Action::ServeFile { root_path, fallback_file } => (root_path, fallback_file),
        other => panic!("unexpected {:?}", other),
    };
    assert!(fallback.is_none());
    let dir = file_target(root.as_deref(), &req.path).expect("inside root");
    assert_eq!(dir, "./www");
    let file = child_path(&dir, "index.html");
    assert_eq!(file, "./www/index.html");
    let head = text(&response_head(&file_response(&file, 5)));
    assert_eq!(head, "HTTP/1.1 200 OK\r\nContent-Length: 5\r\nContent-Type: text/html\r\n\r\n");
}

#[test]
fn escaping_path_is_not_served() {
    let servers = e1_servers();
    let req = request(b"GET /../etc/passwd HTTP/1.1\r\nHost: example.com\r\n\r\n");
    let mut walk = Walk::new();
    let root = match next_action(&servers[0].hosts[0].1, &mut walk, &req) {
        Action::ServeFile { root_path, .. } => root_path,
        other => panic!("unexpected {:?}", other),
    };
    assert!(matches!(file_target(root.as_deref(), &req.path), Err(CbltError::DirectiveNotMatched)));
    assert!(matches!(next_action(&servers[0].hosts[0].1, &mut walk, &req), Action::NotFound));
    let wire = text(&send_response(&error_response(404)));
    assert_eq!(wire, "HTTP/1.1 404 Not Found\r\nContent-Length: 9\r\n\r\nNot found");
}

#[test]
fn redirect_substitutes_uri() {
    let servers = servers_for(vec![node("http://example.com", &[], Some(vec![leaf("redir", &["https://example.com{uri}"])]))]);
    assert_eq!(servers[0].port, 80);
    assert_eq!(servers[0].hosts[0].0, "example.com");
    let req = request(b"GET /foo?bar HTTP/1.1\r\nHost: example.com\r\n\r\n");
    let i = select_host(&servers[0].hosts, &req.header_str("Host")).expect("host served");
    let location = match next_action(&servers[0].hosts[i].1, &mut Walk::new(), &req) {
        Action::Redirect { location } => location,
        other => panic!("unexpected {:?}", other),
    };
    assert_eq!(location, "https://example.com/foo");
    let wire = text(&send_response(&redirect_response(location)));
    assert_eq!(wire, "HTTP/1.1 302 Found\r\nLocation: https://example.com/foo\r\nContent-Length: 0\r\n\r\n");
}

#[test]
fn reload_switches_host_directives() {
    let before = e1_servers();
    let after = servers_for(vec![node("example.com", &[], Some(vec![leaf("redir", &["https://other{uri}"])]))]);
    let running: Vec<u16> = before.iter().map(|s| s.port).collect();
    let plan = plan_workers(&running, &after);
    assert_eq!(plan.update, vec![80]);
    assert!(plan.stop.is_empty() && plan.start.is_empty());
    let req = request(b"GET / HTTP/1.1\r\nHost: example.com\r\n\r\n");
    match next_action(&after[0].hosts[0].1, &mut Walk::new(), &req) {
        Action::Redirect { location } => assert_eq!(location, "https://other/"),
        other => panic!("unexpected {:?}", other),
    }
    match next_action(&before[0].hosts[0].1, &mut Walk::new(), &req) {
        Action::ServeFile { root_path, .. } => assert_eq!(root_path.as_deref(), Some("./www")),
        other => panic!("unexpected {:?}", other),
    }
}

#[test]
fn worker_plan_stops_updates_and_starts() {
    let desired = servers_for(vec![
        node("a.com:8080", &[], Some(vec![leaf("file_server", &[])])),
        node("b.com", &[], Some(vec![leaf("file_server", &[])])),
    ]);
    let plan = plan_workers(&vec![80, 443], &desired);
    assert_eq!(plan.stop, vec![443]);
    assert_eq!(plan.update, vec![80]);
    assert_eq!(plan.start, vec![8080]);
}

#[test]
fn unknown_host_is_forbidden_without_wildcard() {
    let servers = servers_for(vec![
        node("a.com", &[], Some(vec![leaf("file_server", &[])])),
        node("b.com", &[], Some(vec![leaf("file_server", &[])])),
    ]);
    assert_eq!(select_host(&servers[0].hosts, "c.com"), None);
    assert_eq!(select_host(&servers[0].hosts, ""), None);
    assert_eq!(select_host(&servers[0].hosts, "b.com"), Some(1));
    let wire = text(&send_response(&error_response(403)));
    assert_eq!(wire, "HTTP/1.1 403 Forbidden\r\nContent-Length: 9\r\n\r\nForbidden");
}

#[test]
fn wildcard_host_takes_every_request() {
    let servers = servers_for(vec![
        node("a.com", &[], Some(vec![leaf("file_server", &[])])),
        node("*", &[], Some(vec![leaf("file_server", &[])])),
    ]);
    assert_eq!(select_host(&servers[0].hosts, "a.com"), Some(1));
    assert_eq!(select_host(&servers[0].hosts, "zzz"), Some(1));
    assert_eq!(select_host(&servers[0].hosts, ""), Some(1));
}

#[test]
fn hosts_group_by_port() {
    let servers = servers_for(vec![
        node("a.com", &[], Some(vec![leaf("file_server", &[])])),
        node("b.com", &[], Some(vec![leaf("tls", &["c.pem", "k.pem"])])),
        node("c.com:80", &[], Some(vec![leaf("file_server", &[])])),
    ]);
    assert_eq!(servers.len(), 2);
    assert_eq!(servers[0].port, 80);
    assert_eq!(servers[0].hosts.len(), 2);
    assert_eq!(servers[0].hosts[1].0, "c.com:80");
    assert_eq!(servers[1].port, 443);
    assert_eq!(servers[1].cert.as_deref(), Some("c.pem"));
    assert_eq!(servers[1].key.as_deref(), Some("k.pem"));
}

#[test]
fn parsed_host_reads_scheme_and_port() {
    let p = ParsedHost::from_str("example.com:8080");
    assert_eq!((p.host.as_str(), p.port), ("example.com", Some(8080)));
    let p = ParsedHost::from_str("http://example.com");
    assert_eq!((p.host.as_str(), p.port), ("example.com", None));
    let p = ParsedHost::from_str("https://example.com:99999");
    assert_eq!((p.host.as_str(), p.port), ("example.com", None));
}

#[test]
fn patterns_match() {
    assert!(matches_pattern("*", "/anything"));
    assert!(matches_pattern("/api/*", "/api/x"));
    assert!(matches_pattern("/api/*", "/api/"));
    assert!(!matches_pattern("/api/*", "/ap"));
    assert!(matches_pattern("/exact", "/exact"));
    assert!(!matches_pattern("/exact", "/exact/"));
    assert!(!matches_pattern("", "/"));
}

#[test]
fn sanitized_paths_stay_in_root() {
    assert_eq!(sanitize_path("./www", "a/./b//c").as_deref(), Some("./www/a/b/c"));
    assert_eq!(sanitize_path("./www", "/a"), None);
    assert_eq!(sanitize_path("./www", "/etc/passwd"), None);
    assert_eq!(sanitize_path("./www", "a/../b").as_deref(), Some("./www/b"));
    assert_eq!(sanitize_path("./www", "a/../../x"), None);
    assert_eq!(sanitize_path("./www", "../etc/passwd"), None);
    assert_eq!(sanitize_path("./www", ""), Some("./www".to_string()));
}

#[test]
fn file_target_strips_leading_slashes() {
    assert_eq!(file_target(Some("./www"), "//a/b").unwrap(), "./www/a/b");
    assert_eq!(file_target(Some("./www"), "/").unwrap(), "./www");
    assert!(matches!(file_target(Some("./www"), "/a/../../x"), Err(CbltError::DirectiveNotMatched)));
}

#[test]
fn file_server_without_root_is_internal_error() {
    match file_target(None, "/x") {
        Err(CbltError::ResponseError { status_code, .. }) => assert_eq!(status_code, 500),
        other => panic!("unexpected {:?}", other),
    }
}

#[test]
fn fallback_file_is_joined_to_root() {
    assert_eq!(fallback_path("./www", "/index.html"), "./www/index.html");
    assert_eq!(fallback_path("./www/", "app.html"), "./www/app.html");
}

#[test]
fn root_fallback_and_cookie_redirect_walk() {
    let cfg = vec![node(
        "h",
        &[],
        Some(vec![
            leaf("root", &["/static/*", "./s", "404.html"]),
            leaf("redirifnotcookie", &["session", "/login?next={uri}"]),
            leaf("reverse_proxy", &["/api/*", "127.0.0.1:9001"]),
            leaf("file_server", &[]),
        ]),
    )];
    let servers = servers_for(cfg);
    let ds = &servers[0].hosts[0].1;
    let anon = request(b"GET /static/a.css HTTP/1.1\r\nHost: h\r\n\r\n");
    match next_action(ds, &mut Walk::new(), &anon) {
        Action::Redirect { location } => assert_eq!(location, "/login?next=/static/a.css"),
        other => panic!("unexpected {:?}", other),
    }
    let user = request(b"GET /static/a.css HTTP/1.1\r\nHost: h\r\nCookie: theme=dark; session=1\r\n\r\n");
    let mut walk = Walk::new();
    match next_action(ds, &mut walk, &user) {
        Action::ServeFile { root_path, fallback_file } => {
            assert_eq!(root_path.as_deref(), Some("./s"));
            assert_eq!(fallback_file.as_deref(), Some("404.html"));
        }
        other => panic!("unexpected {:?}", other),
    }
    assert!(matches!(next_action(ds, &mut walk, &user), Action::NotFound));
    let api = request(b"GET /api/v1 HTTP/1.1\r\nHost: h\r\nCookie: session=1\r\n\r\n");
    match next_action(ds, &mut Walk::new(), &api) {
        Action::Proxy { pattern } => assert_eq!(pattern, "/api/*"),
        other => panic!("unexpected {:?}", other),
    }
}

#[test]
fn redirect_replaces_every_uri_marker() {
    assert_eq!(replace_uri("{uri}{uri}", "/a"), "/a/a");
    assert_eq!(replace_uri("https://x{ur", "/a"), "https://x{ur");
    assert_eq!(replace_uri("", "/a"), "");
}
