use cblt::config::{LoadBalancePolicy, ReverseProxyOptions};
use cblt::directive::{init_proxy_states, proxy_state_index};
use cblt::config::Directive;
use cblt::error::CbltError;
use cblt::reverse_proxy::{
    backend_socket_addr, generate_number_from_octet, get_header_len, upstream_outcome, AliveState,
    ClientIp, ProxyDispatch, ReverseProxyState,
};

fn options(policy: LoadBalancePolicy) -> ReverseProxyOptions {
    ReverseProxyOptions { lb_retries: 2, lb_interval: 60, lb_timeout: 1, lb_policy: Some(policy) }
}

fn pool(policy: LoadBalancePolicy, n: usize) -> ReverseProxyState {
    let urls = (0..n).map(|i| format!("127.0.0.1:{}", 9001 + i)).collect();
    ReverseProxyState::new(urls, policy, options(policy), 1000)
}

const CLIENT: ClientIp = ClientIp::V4([127, 0, 0, 1]);

fn is_bad_gateway(r: &Result<cblt::reverse_proxy::LiveBackend, CbltError>) -> bool {
    matches!(r, Err(CbltError::ResponseError { status_code: 502, .. }))
}

#[test]
fn round_robin_alternates() {
    let mut p = pool(LoadBalancePolicy::RoundRobin, 2);
    let picks: Vec<usize> = (0..4)
        .map(|_| p.get_next_backend(CLIENT, 1000).expect("a backend").backend_index)
        .collect();
    assert_eq!(picks, vec![0, 1, 0, 1]);
    let live = p.get_next_backend(CLIENT, 1000).unwrap();
    assert_eq!(live.address, "127.0.0.1:9001");
}

#[test]
fn failover_to_the_live_backend() {
    let mut p = pool(LoadBalancePolicy::RoundRobin, 2);
    let first = p.get_next_backend(CLIENT, 1000).unwrap();
    assert_eq!(first.backend_index, 0);
    p.set_dead_backend(&first, 1000);
    assert_eq!(p.backends[0].alive_state, AliveState::Dead { since: 1000, retries_left: 2 });
    let second = p.get_next_backend(CLIENT, 1000).unwrap();
    assert_eq!(second.backend_index, 1);
    p.set_alive_backend(&second, 1000);
    // Before the interval: backend 0 is skipped.
    assert_eq!(p.get_next_backend(CLIENT, 1030).unwrap().backend_index, 1);
    // After the interval: a revival attempt on backend 0, which fails again.
    let revived = p.get_next_backend(CLIENT, 1061).unwrap();
    assert_eq!(revived.backend_index, 0);
    assert_eq!(p.backends[0].alive_state, AliveState::Alive(1061));
    assert_eq!(p.backends[0].pending_retries, Some(1));
    p.set_dead_backend(&revived, 1061);
    assert_eq!(p.backends[0].alive_state, AliveState::Dead { since: 1061, retries_left: 1 });
    let next = p.get_next_backend(CLIENT, 1061).unwrap();
    assert_eq!(next.backend_index, 1);
    assert_eq!(next.address, "127.0.0.1:9002");
}

#[test]
fn exhausted_backend_rests_then_is_reset() {
    let mut p = pool(LoadBalancePolicy::RoundRobin, 1);
    p.backends[0].alive_state = AliveState::Dead { since: 100, retries_left: 0 };
    assert!(is_bad_gateway(&p.get_next_backend(CLIENT, 120)));
    assert_eq!(p.backends[0].alive_state, AliveState::Dead { since: 100, retries_left: 0 });
    assert!(is_bad_gateway(&p.get_next_backend(CLIENT, 160)));
    assert_eq!(p.backends[0].alive_state, AliveState::Dead { since: 160, retries_left: 2 });
    let live = p.get_next_backend(CLIENT, 220).unwrap();
    assert_eq!(live.backend_index, 0);
    assert_eq!(p.backends[0].pending_retries, Some(1));
}

#[test]
fn selection_succeeds_with_one_alive_backend() {
    let mut p = pool(LoadBalancePolicy::RoundRobin, 3);
    p.backends[0].alive_state = AliveState::Dead { since: 1000, retries_left: 2 };
    p.backends[1].alive_state = AliveState::Dead { since: 1000, retries_left: 0 };
    assert_eq!(p.get_next_backend(CLIENT, 1001).unwrap().backend_index, 2);
}

#[test]
fn single_backend_pool_after_its_member_dies() {
    let mut p = pool(LoadBalancePolicy::RoundRobin, 1);
    let live = p.get_next_backend(CLIENT, 1000).unwrap();
    p.set_dead_backend(&live, 1000);
    assert!(is_bad_gateway(&p.get_next_backend(CLIENT, 1001)));
}

#[test]
fn empty_pool_is_bad_gateway() {
    let mut p = pool(LoadBalancePolicy::RoundRobin, 0);
    assert!(is_bad_gateway(&p.get_next_backend(CLIENT, 1)));
}

#[test]
fn ip_hash_is_sticky_and_refuses_ipv6() {
    let mut p = pool(LoadBalancePolicy::IPHash, 3);
    assert_eq!(p.get_next_backend(ClientIp::V4([192, 168, 1, 10]), 1000).unwrap().backend_index, 0);
    assert_eq!(p.get_next_backend(ClientIp::V4([10, 0, 0, 7]), 1000).unwrap().backend_index, 1);
    assert_eq!(p.get_next_backend(ClientIp::V4([10, 0, 0, 7]), 1000).unwrap().backend_index, 1);
    assert!(is_bad_gateway(&p.get_next_backend(ClientIp::V6, 1000)));
    p.backends[1].alive_state = AliveState::Dead { since: 1000, retries_left: 2 };
    assert_eq!(p.get_next_backend(ClientIp::V4([10, 0, 0, 7]), 1000).unwrap().backend_index, 2);
}

#[test]
fn fnv_hash_of_octets() {
    assert_eq!(generate_number_from_octet([127, 0, 0, 1], 7), 1);
    assert_eq!(generate_number_from_octet([192, 168, 1, 10], 7), 2);
    assert_eq!(generate_number_from_octet([10, 0, 0, 7], 3), 1);
    assert_eq!(generate_number_from_octet([127, 0, 0, 1], u32::MAX), (7785339717392670637u64 % u32::MAX as u64) as u32);
}

#[test]
fn clock_reading_selection() {
    let mut p = pool(LoadBalancePolicy::RoundRobin, 1);
    let (r, now) = p.select_backend(CLIENT);
    assert!(now > 1_600_000_000);
    assert_eq!(r.unwrap().backend_index, 0);
}

#[test]
fn backend_addresses() {
    assert_eq!(backend_socket_addr("127.0.0.1:9001", "/api/x").unwrap(), "127.0.0.1:9001");
    assert_eq!(backend_socket_addr("backend", "/").unwrap(), "backend:80");
    assert_eq!(backend_socket_addr("https://secure.example", "/x").unwrap(), "secure.example:443");
    assert_eq!(backend_socket_addr("http://h:8080", "/x").unwrap(), "h:8080");
    assert!(matches!(
        backend_socket_addr("bad host", "/"),
        Err(CbltError::ResponseError { status_code: 502, .. })
    ));
}

#[test]
fn upstream_head_length() {
    let head = b"HTTP/1.1 200 OK\r\nContent-Length: 1\r\n\r\nA".to_vec();
    assert_eq!(get_header_len(&head).unwrap(), Some((head.len() - 1, 200)));
    let missing = b"HTTP/1.1 404 Not Found\r\n\r\n".to_vec();
    assert_eq!(get_header_len(&missing).unwrap(), Some((missing.len(), 404)));
    assert_eq!(get_header_len(&b"HTTP/1.1 200 OK\r\nContent".to_vec()).unwrap(), None);
    assert!(matches!(
        get_header_len(&b"NOT HTTP\r\n\r\n".to_vec()),
        Err(CbltError::ResponseError { status_code: 502, .. })
    ));
}

#[test]
fn upstream_status_is_reported() {
    assert_eq!(upstream_outcome(200).unwrap(), 200);
    assert!(matches!(upstream_outcome(404), Err(CbltError::ResponseError { status_code: 404, .. })));
    assert!(matches!(upstream_outcome(101), Err(CbltError::ResponseError { status_code: 101, .. })));
}

#[test]
fn dispatch_tries_each_backend_at_most_once() {
    let mut p = pool(LoadBalancePolicy::RoundRobin, 2);
    p.options.lb_interval = 0;
    let mut d = ProxyDispatch::new(&p);
    let mut tried = Vec::new();
    loop {
        match d.next_backend(&mut p, CLIENT, 5000) {
            Ok(live) => {
                tried.push(live.backend_index);
                p.set_dead_backend(&live, 5000);
            }
            Err(e) => {
                assert!(matches!(e, CbltError::ResponseError { status_code: 502, .. }));
                break;
            }
        }
    }
    assert_eq!(tried, vec![0, 1]);
}

#[test]
fn proxy_states_follow_directives() {
    let ds = vec![
        Directive::FileServer,
        Directive::ReverseProxy {
            pattern: "/api/*".to_string(),
            destinations: vec!["a:1".to_string(), "b:2".to_string()],
            options: ReverseProxyOptions { lb_retries: 3, lb_interval: 5, lb_timeout: 1, lb_policy: None },
        },
    ];
    let states = init_proxy_states(&ds, 42);
    assert_eq!(states.len(), 1);
    assert_eq!(states[0].0, "/api/*");
    assert_eq!(states[0].1.lb_policy, LoadBalancePolicy::RoundRobin);
    assert_eq!(states[0].1.backends.len(), 2);
    assert_eq!(states[0].1.backends[1].alive_state, AliveState::Alive(42));
    assert_eq!(proxy_state_index(&states, "/api/*"), Some(0));
    assert_eq!(proxy_state_index(&states, "/other"), None);
}
