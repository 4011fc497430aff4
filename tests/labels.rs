use cblt::config::{Directive, LoadBalancePolicy};
use cblt::error::CbltError;
use cblt::labels::{add_service, is_cblt_service, split_list, split_words};

fn labels(pairs: &[(&str, &str)]) -> Vec<(String, String)> {
    pairs.iter().map(|(k, v)| (k.to_string(), v.to_string())).collect()
}

fn containers() -> Vec<Option<Vec<String>>> {
    vec![
        Some(vec!["/web.1.abc".to_string()]),
        Some(vec!["/db.1.xyz".to_string()]),
        Some(vec!["/other".to_string(), "/web.2.def".to_string()]),
    ]
}

#[test]
fn service_labels_become_proxy_hosts() {
    let l = labels(&[
        ("cblt.hosts", "a.com, b.com"),
        ("cblt.path", "/api/*"),
        ("cblt.port", "8080"),
        ("cblt.secrets", "a.com key.pem cert.pem"),
        ("cblt.lb_policy", "ip_hash"),
        ("cblt.lb_interval", "30s"),
    ]);
    assert!(is_cblt_service(&l));
    let mut hosts = Vec::new();
    add_service(&mut hosts, Some("web".to_string()), &l, &containers()).expect("accepted");
    assert_eq!(hosts.len(), 2);
    assert_eq!(hosts[0].0, "a.com");
    assert_eq!(hosts[1].0, "b.com");
    match &hosts[0].1[0] {
        Directive::ReverseProxy { pattern, destinations, options } => {
            assert_eq!(pattern, "/api/*");
            assert_eq!(destinations, &vec!["web.1.abc:8080".to_string(), "web.2.def:8080".to_string()]);
            assert_eq!(options.lb_policy, Some(LoadBalancePolicy::IPHash));
            assert_eq!(options.lb_interval, 30);
            assert_eq!(options.lb_timeout, 1);
            assert_eq!(options.lb_retries, 2);
        }
        other => panic!("unexpected {:?}", other),
    }
    match &hosts[0].1[1] {
        Directive::TlS { cert, key } => {
            assert_eq!(cert, "cert.pem");
            assert_eq!(key, "key.pem");
        }
        other => panic!("unexpected {:?}", other),
    }
    assert_eq!(hosts[1].1.len(), 1);
    add_service(&mut hosts, Some("web".to_string()), &l, &containers()).expect("accepted");
    assert_eq!(hosts.len(), 2);
    assert_eq!(hosts[0].1.len(), 4);
}

#[test]
fn services_without_cblt_labels_are_ignored() {
    assert!(!is_cblt_service(&labels(&[("com.docker.stack", "x")])));
}

#[test]
fn refused_services() {
    let ok = labels(&[("cblt.hosts", "a"), ("cblt.path", "/"), ("cblt.port", "80")]);
    let mut hosts = Vec::new();
    assert!(matches!(add_service(&mut hosts, None, &ok, &containers()), Err(CbltError::ServiceNameNotFound)));
    let unnamed = vec![Some(vec!["/web.1".to_string()]), None];
    assert!(matches!(add_service(&mut hosts, Some("web".into()), &ok, &unnamed), Err(CbltError::ContainerNameNotFound)));
    let no_port = labels(&[("cblt.hosts", "a"), ("cblt.path", "/")]);
    assert!(matches!(add_service(&mut hosts, Some("web".into()), &no_port, &containers()), Err(CbltError::LabelNotFound { .. })));
    let bad_port = labels(&[("cblt.hosts", "a"), ("cblt.path", "/"), ("cblt.port", "70000")]);
    assert!(matches!(add_service(&mut hosts, Some("web".into()), &bad_port, &containers()), Err(CbltError::InvalidLabelFormat { .. })));
    let bad_secret = labels(&[("cblt.hosts", "a"), ("cblt.path", "/"), ("cblt.port", "80"), ("cblt.secrets", "a key")]);
    assert!(matches!(add_service(&mut hosts, Some("web".into()), &bad_secret, &containers()), Err(CbltError::InvalidLabelFormat { .. })));
    let bad_policy = labels(&[("cblt.hosts", "a"), ("cblt.path", "/"), ("cblt.port", "80"), ("cblt.lb_policy", "random")]);
    assert!(matches!(add_service(&mut hosts, Some("web".into()), &bad_policy, &containers()), Err(CbltError::KdlParseError { .. })));
    let bad_retries = labels(&[("cblt.hosts", "a"), ("cblt.path", "/"), ("cblt.port", "80"), ("cblt.lb_retries", "-1")]);
    assert!(matches!(add_service(&mut hosts, Some("web".into()), &bad_retries, &containers()), Err(CbltError::InvalidLabelFormat { .. })));
    assert!(hosts.is_empty());
}

#[test]
fn lists_and_words_split() {
    assert_eq!(split_list(" a , b,,c ", ','), vec!["a", "b", "", "c"]);
    assert_eq!(split_list("", ','), vec![""]);
    assert_eq!(split_words("  host\tkey  cert \n"), vec!["host", "key", "cert"]);
    assert!(split_words("   ").is_empty());
}
