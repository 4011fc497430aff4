use cblt::config::{
    build_config, get_string_args, parse_reverse_proxy_options, ConfigNode, Directive,
    LoadBalancePolicy,
};
use cblt::error::CbltError;

fn to_nodes(doc: &kdl::KdlDocument) -> Vec<ConfigNode> {
    doc.nodes()
        .iter()
        .map(|n| ConfigNode {
            name: n.name().value().to_string(),
            args: n
                .entries()
                .iter()
                .map(|e| e.value().as_string().map(|s| s.to_string()))
                .collect(),
            children: n.children().map(to_nodes),
        })
        .collect()
}

fn parse(text: &str) -> Vec<ConfigNode> {
    let doc: kdl::KdlDocument = text.parse().expect("valid document");
    to_nodes(&doc)
}

fn node(name: &str, args: &[&str], children: Option<Vec<ConfigNode>>) -> ConfigNode {
    ConfigNode {
        name: name.to_string(),
        args: args.iter().map(|a| Some(a.to_string())).collect(),
        children,
    }
}

#[test]
fn test_simple() {
    let cblt_file = r#"
example.com {
    root "*" "/path/to/folder"
    file_server
}
            "#;
    let config = build_config(&parse(cblt_file)).expect("config builds");
    println!("{:#?}", config);
    assert_eq!(config.len(), 1);
    assert_eq!(config[0].0, "example.com");
    assert_eq!(config[0].1.len(), 2);
    match &config[0].1[0] {
        Directive::Root { pattern, path, fallback } => {
            assert_eq!(pattern, "*");
            assert_eq!(path, "/path/to/folder");
            assert!(fallback.is_none());
        }
        other => panic!("unexpected {:?}", other),
    }
    assert!(matches!(config[0].1[1], Directive::FileServer));
}

#[test]
fn test_complicated() {
    let cblt_file = r#"
example1.com {
    root "*" "/path/folder"
    file_server
    reverse_proxy "/api/*" "localhost:8080"
}

"http://example1.com" {
    redir "https://example2.com{uri}"
}
            "#;
    let config = build_config(&parse(cblt_file)).expect("config builds");
    println!("{:#?}", config);
    assert_eq!(config.len(), 2);
    assert_eq!(config[1].0, "http://example1.com");
    match &config[0].1[2] {
        Directive::ReverseProxy { pattern, destinations, options } => {
            assert_eq!(pattern, "/api/*");
            assert_eq!(destinations, &vec!["localhost:8080".to_string()]);
            assert_eq!(options.lb_retries, 2);
            assert_eq!(options.lb_interval, 60);
            assert_eq!(options.lb_timeout, 1);
            assert_eq!(options.lb_policy, Some(LoadBalancePolicy::RoundRobin));
        }
        other => panic!("unexpected {:?}", other),
    }
    match &config[1].1[0] {
        Directive::Redir { destination } => assert_eq!(destination, "https://example2.com{uri}"),
        other => panic!("unexpected {:?}", other),
    }
}

#[test]
fn test_tls() {
    let cblt_file = r#"
example.com {
    root "*" "/path/to/folder"
    file_server
    tls "/path/to/your/certificate.crt" "/path/to/your/private.key"
}
            "#;
    let config = build_config(&parse(cblt_file)).expect("config builds");
    println!("{:#?}", config);
    match &config[0].1[2] {
        Directive::TlS { cert, key } => {
            assert_eq!(cert, "/path/to/your/certificate.crt");
            assert_eq!(key, "/path/to/your/private.key");
        }
        other => panic!("unexpected {:?}", other),
    }
}

#[test]
fn reverse_proxy_options_are_read() {
    let text = r#"
"example.com" {
    reverse_proxy "/api/*" "backend1:8080" "backend2:8080" {
        lb_retries "5"
        lb_interval "10s"
        lb_timeout "2s"
        lb_policy "ip_hash"
    }
}
"#;
    let config = build_config(&parse(text)).expect("config builds");
    match &config[0].1[0] {
        Directive::ReverseProxy { destinations, options, .. } => {
            assert_eq!(destinations.len(), 2);
            assert_eq!(options.lb_retries, 5);
            assert_eq!(options.lb_interval, 10);
            assert_eq!(options.lb_timeout, 2);
            assert_eq!(options.lb_policy, Some(LoadBalancePolicy::IPHash));
        }
        other => panic!("unexpected {:?}", other),
    }
}

#[test]
fn option_without_argument_takes_its_fallback() {
    let n = node(
        "reverse_proxy",
        &["/", "a:1"],
        Some(vec![node("lb_interval", &[], None), node("lb_retries", &[], None)]),
    );
    let o = parse_reverse_proxy_options(&n).expect("options parse");
    assert_eq!(o.lb_interval, 10);
    assert_eq!(o.lb_retries, 2);
    assert_eq!(o.lb_timeout, 1);
}

#[test]
fn malformed_number_is_a_parse_int_error() {
    let n = node("reverse_proxy", &["/", "a:1"], Some(vec![node("lb_retries", &["many"], None)]));
    assert!(matches!(parse_reverse_proxy_options(&n), Err(CbltError::ParseIntError { .. })));
}

#[test]
fn malformed_duration_is_a_duration_error() {
    let n = node("reverse_proxy", &["/", "a:1"], Some(vec![node("lb_timeout", &["soon"], None)]));
    assert!(matches!(parse_reverse_proxy_options(&n), Err(CbltError::DurationError { .. })));
}

#[test]
fn overlong_duration_is_refused() {
    let n = node(
        "reverse_proxy",
        &["/", "a:1"],
        Some(vec![node("lb_interval", &["18446744073709551615s 1000000000ns"], None)]),
    );
    assert!(matches!(parse_reverse_proxy_options(&n), Err(CbltError::DurationError { .. })));
    let ok = node("reverse_proxy", &["/", "a:1"], Some(vec![node("lb_interval", &["1m 30s"], None)]));
    assert_eq!(parse_reverse_proxy_options(&ok).unwrap().lb_interval, 90);
}

#[test]
fn unknown_policy_is_refused() {
    let text = r#"
"example.com" {
    reverse_proxy "/api/*" "backend1:8080" {
        lb_policy "cookie"
    }
}
"#;
    assert!(matches!(build_config(&parse(text)), Err(CbltError::KdlParseError { .. })));
}

#[test]
fn unknown_option_is_refused() {
    let n = node("reverse_proxy", &["/", "a:1"], Some(vec![node("health_uri", &["/health"], None)]));
    assert!(matches!(parse_reverse_proxy_options(&n), Err(CbltError::KdlParseError { .. })));
}

#[test]
fn unknown_directive_is_refused() {
    let cfg = vec![node("example.com", &[], Some(vec![node("gzip", &[], None)]))];
    assert!(matches!(build_config(&cfg), Err(CbltError::KdlParseError { .. })));
}

#[test]
fn host_without_directives_is_refused() {
    let cfg = vec![node("example.com", &[], None)];
    assert!(matches!(build_config(&cfg), Err(CbltError::KdlParseError { .. })));
}

#[test]
fn duplicate_host_is_refused() {
    let cfg = vec![
        node("example.com", &[], Some(vec![node("file_server", &[], None)])),
        node("example.com", &[], Some(vec![node("file_server", &[], None)])),
    ];
    assert!(matches!(build_config(&cfg), Err(CbltError::KdlParseError { .. })));
}

#[test]
fn short_directives_are_refused() {
    for (name, args) in [("root", vec!["*"]), ("redir", vec![]), ("tls", vec!["c"]), ("redirifnotcookie", vec!["n"]), ("reverse_proxy", vec!["/"])] {
        let cfg = vec![node("h", &[], Some(vec![node(name, &args, None)]))];
        assert!(matches!(build_config(&cfg), Err(CbltError::KdlParseError { .. })), "{}", name);
    }
}

#[test]
fn root_with_fallback_and_cookie_redirect() {
    let cfg = vec![node(
        "h",
        &[],
        Some(vec![
            node("root", &["*", "./www", "index.html"], None),
            node("redirifnotcookie", &["session", "/login"], None),
        ]),
    )];
    let config = build_config(&cfg).expect("config builds");
    match &config[0].1[0] {
        Directive::Root { fallback, .. } => assert_eq!(fallback.as_deref(), Some("index.html")),
        other => panic!("unexpected {:?}", other),
    }
    match &config[0].1[1] {
        Directive::RedirIfNotCookie { cookiename, destination } => {
            assert_eq!(cookiename, "session");
            assert_eq!(destination, "/login");
        }
        other => panic!("unexpected {:?}", other),
    }
}

#[test]
fn non_string_arguments_are_skipped() {
    let n = ConfigNode {
        name: "root".to_string(),
        args: vec![Some("*".to_string()), None, Some("./www".to_string())],
        children: None,
    };
    assert_eq!(get_string_args(&n), vec!["*".to_string(), "./www".to_string()]);
}
