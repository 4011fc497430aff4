//! Grouping virtual hosts into per-port servers, and planning how the set of
//! running port workers follows a new configuration.
use vstd::prelude::*;

use crate::config::{Directive, DirectiveView, directives_view, hosts_view};
use crate::text::{chars_of, parse_unsigned, same_prefix, unsigned_of};

verus! {

/// Default port of a host without TLS.
pub const HTTP_PORT: u16 = 80;

/// Default port of a host with TLS.
pub const HTTPS_PORT: u16 = 443;

/// A host key read as name and optional port.
#[derive(Debug)]
pub struct ParsedHost {
    pub host: String,
    pub port: Option<u16>,
}

/// The servers to run: one per port, with the hosts it serves.
#[derive(Debug, Clone)]
pub struct Server {
    pub port: u16,
    pub hosts: Vec<(String, Vec<Directive>)>,
    pub cert: Option<String>,
    pub key: Option<String>,
}

/// A server as plain values.
pub struct ServerView {
    pub port: u16,
    pub hosts: Seq<(Seq<char>, Seq<DirectiveView>)>,
    pub tls: Option<(Seq<char>, Seq<char>)>,
}

impl View for Server {
    type V = ServerView;

    open spec fn view(&self) -> ServerView {
        ServerView {
            port: self.port,
            hosts: hosts_view(self.hosts@),
            tls: match (self.cert, self.key) {
                (Some(c), Some(k)) => Some((c@, k@)),
                _ => None,
            },
        }
    }
}

/// The views of a list of servers.
pub open spec fn servers_view(v: Seq<Server>) -> Seq<ServerView> {
    v.map_values(|s: Server| s@)
}

/// A host key without a leading `http://` or `https://`.
pub open spec fn strip_scheme(s: Seq<char>) -> Seq<char> {
    if s.len() >= 7 && s.take(7) == "http://"@ {
        s.skip(7)
    } else if s.len() >= 8 && s.take(8) == "https://"@ {
        s.skip(8)
    } else {
        s
    }
}

/// The position of the first `:` in `s`, if any.
pub open spec fn colon_at(s: Seq<char>) -> Option<int>
    decreases s.len(),
{
    if s.len() == 0 {
        None
    } else {
        match colon_at(s.drop_last()) {
            Some(i) => Some(i),
            None => if s.last() == ':' {
                Some(s.len() - 1)
            } else {
                None
            },
        }
    }
}

/// The name and port that a host key gives, after its scheme: the part
/// before the first `:` and the number after it, where that is a port.
pub open spec fn parsed_host_of(key: Seq<char>) -> (Seq<char>, Option<u16>) {
    let s = strip_scheme(key);
    match colon_at(s) {
        Some(i) => (
            s.take(i),
            match unsigned_of(s.skip(i + 1), u16::MAX as int) {
                Some(p) => Some(p as u16),
                None => None,
            },
        ),
        None => (s, None),
    }
}

/// The index of `s` from which the host key continues after its scheme.
fn scheme_end(s: &Vec<char>) -> (r: usize)
    ensures
        r <= s.len(),
        strip_scheme(s@) == s@.skip(r as int),
{
    let http = chars_of("http://");
    let https = chars_of("https://");
    proof {
        reveal_strlit("http://");
        reveal_strlit("https://");
    }
    assert(http@.take(7) =~= "http://"@);
    assert(https@.take(8) =~= "https://"@);
    if s.len() >= 7 && same_prefix(s, &http, 7) {
        7
    } else if s.len() >= 8 && same_prefix(s, &https, 8) {
        8
    } else {
        assert(s@.skip(0) =~= s@);
        0
    }
}

impl ParsedHost {
    /// Reads a host key such as `example.com`, `example.com:8080` or
    /// `http://example.com`.
    pub fn from_str(host_str: &str) -> (r: ParsedHost)
        ensures
            (r.host@, r.port) == parsed_host_of(host_str@),
    {
        let c = chars_of(host_str);
        let from = scheme_end(&c);
        let ghost s = c@.skip(from as int);
        let mut i = from;
        assert(s.take(0) =~= seq![]);
        while i < c.len() && c[i] != ':'
            invariant
                from <= i <= c.len(),
                s == c@.skip(from as int),
                colon_at(s.take(i - from)) is None,
            decreases c.len() - i,
        {
            assert(s.take(i - from + 1).drop_last() =~= s.take(i - from));
            i = i + 1;
        }
        if i == c.len() {
            assert(s.take(i - from) =~= s);
            let host = host_str.substring_char(from, c.len());
            ParsedHost { host: host.to_string(), port: None }
        } else {
            assert(s.take(i - from + 1).drop_last() =~= s.take(i - from));
            proof {
                lemma_colon_extends(s, i - from + 1);
            }
            assert(s.skip(i - from + 1) =~= c@.subrange(i + 1, c.len() as int));
            let port = match parse_unsigned(&c, i + 1, c.len(), u16::MAX as u64) {
                Some(p) => Some(p as u16),
                None => None,
            };
            let host = host_str.substring_char(from, i);
            assert(s.take(i - from) =~= c@.subrange(from as int, i as int));
            ParsedHost { host: host.to_string(), port }
        }
    }
}

/// A colon found in a prefix is the first of the whole.
proof fn lemma_colon_extends(s: Seq<char>, j: int)
    requires
        0 <= j <= s.len(),
        colon_at(s.take(j)) is Some,
    ensures
        colon_at(s) == colon_at(s.take(j)),
    decreases s.len(),
{
    if j < s.len() {
        assert(s.drop_last().take(j) =~= s.take(j));
        lemma_colon_extends(s.drop_last(), j);
    } else {
        assert(s.take(j) =~= s);
    }
}

/// The TLS material of a host: that of its last `tls` directive.
pub open spec fn tls_of(ds: Seq<DirectiveView>) -> Option<(Seq<char>, Seq<char>)>
    decreases ds.len(),
{
    if ds.len() == 0 {
        None
    } else {
        match ds.last() {
            DirectiveView::TlS { cert, key } => Some((cert, key)),
            _ => tls_of(ds.drop_last()),
        }
    }
}

/// The port a host is served on: the one its key names, else 443 with TLS
/// and 80 without.
pub open spec fn port_of(key: Seq<char>, ds: Seq<DirectiveView>) -> u16 {
    match parsed_host_of(key).1 {
        Some(p) => p,
        None => if tls_of(ds) is Some {
            HTTPS_PORT
        } else {
            HTTP_PORT
        },
    }
}

/// The first server on `port`, if any.
pub open spec fn server_on(servers: Seq<ServerView>, port: u16) -> Option<int>
    decreases servers.len(),
{
    if servers.len() == 0 {
        None
    } else {
        match server_on(servers.drop_last(), port) {
            Some(i) => Some(i),
            None => if servers.last().port == port {
                Some(servers.len() - 1)
            } else {
                None
            },
        }
    }
}

/// The servers after adding one host: it joins the server on its port, or
/// starts one; its TLS material, if any, becomes the server's.
pub open spec fn add_host(
    servers: Seq<ServerView>,
    key: Seq<char>,
    ds: Seq<DirectiveView>,
) -> Seq<ServerView> {
    let port = port_of(key, ds);
    let entry = (strip_scheme(key), ds);
    match server_on(servers, port) {
        Some(i) => servers.update(
            i,
            ServerView {
                port,
                hosts: servers[i].hosts.push(entry),
                tls: match tls_of(ds) {
                    Some(t) => Some(t),
                    None => servers[i].tls,
                },
            },
        ),
        None => servers.push(ServerView { port, hosts: seq![entry], tls: tls_of(ds) }),
    }
}

/// The servers for a host table, hosts taken in order.
pub open spec fn servers_of(config: Seq<(Seq<char>, Seq<DirectiveView>)>) -> Seq<ServerView>
    decreases config.len(),
{
    if config.len() == 0 {
        seq![]
    } else {
        add_host(servers_of(config.drop_last()), config.last().0, config.last().1)
    }
}

/// Finds the TLS directive that `tls_of` names.
fn find_tls(ds: &Vec<Directive>) -> (r: Option<(String, String)>)
    ensures
        match tls_of(directives_view(ds@)) {
            Some((c, k)) => match r {
                Some((rc, rk)) => rc@ == c && rk@ == k,
                None => false,
            },
            None => r is None,
        },
{
    let ghost dv = directives_view(ds@);
    let mut i = ds.len();
    assert(dv.take(i as int) =~= dv);
    while i > 0
        invariant
            i <= ds.len(),
            dv == directives_view(ds@),
            tls_of(dv) == tls_of(dv.take(i as int)),
        decreases i,
    {
        assert(dv.take(i as int).drop_last() =~= dv.take(i - 1));
        assert(dv.take(i as int).last() == ds@[i - 1]@);
        if let Directive::TlS { cert, key } = &ds[i - 1] {
            return Some((cert.clone(), key.clone()));
        }
        i = i - 1;
    }
    None
}

/// Groups a host table into servers, one per port in order of first use:
/// each host joins the server on the port its key names (else 443 with TLS
/// and 80 without), keyed by its key without scheme; a host's TLS material
/// becomes its server's.
pub fn build_servers(config: Vec<(String, Vec<Directive>)>) -> (r: Vec<Server>)
    ensures
        servers_view(r@) == servers_of(hosts_view(config@)),
{
    let ghost cv = hosts_view(config@);
    let mut config = config;
    let mut servers: Vec<Server> = Vec::new();
    let ghost mut done: int = 0;
    assert(cv.take(0) =~= seq![]);
    assert(servers_view(servers@) =~= seq![]);
    assert(hosts_view(config@) =~= cv.skip(0));
    while config.len() > 0
        invariant
            0 <= done <= cv.len(),
            done + config.len() == cv.len(),
            hosts_view(config@) == cv.skip(done),
            servers_view(servers@) == servers_of(cv.take(done)),
        decreases config.len(),
    {
        let ghost before = servers_view(servers@);
        assert(cv.take(done + 1).drop_last() =~= cv.take(done));
        assert(hosts_view(config@)[0] == cv[done]);
        let ghost old_cfg = config@;
        let (host, directives) = config.remove(0);
        assert(config@ =~= old_cfg.skip(1));
        assert(hosts_view(config@) =~= hosts_view(old_cfg).skip(1));
        assert(cv.skip(done).skip(1) =~= cv.skip(done + 1));
        assert(cv.take(done + 1).last() == (host@, directives_view(directives@)));
        let tls = find_tls(&directives);
        let parsed = ParsedHost::from_str(host.as_str());
        let port: u16 = match parsed.port {
            Some(p) => p,
            None => if tls.is_some() {
                HTTPS_PORT
            } else {
                HTTP_PORT
            },
        };
        let chars = chars_of(host.as_str());
        let from = scheme_end(&chars);
        let key = host.as_str().substring_char(from, chars.len()).to_string();
        assert(key@ =~= strip_scheme(host@));
        let ghost dv = directives_view(directives@);
        let mut j: usize = 0;
        assert(before.take(0) =~= seq![]);
        while j < servers.len() && servers[j].port != port
            invariant
                j <= servers.len(),
                before == servers_view(servers@),
                server_on(before.take(j as int), port) is None,
            decreases servers.len() - j,
        {
            assert(before.take(j + 1).drop_last() =~= before.take(j as int));
            j = j + 1;
        }
        if j < servers.len() {
            assert(before.take(j + 1).drop_last() =~= before.take(j as int));
            proof {
                lemma_server_extends(before, j + 1, port);
            }
            let mut server = servers.remove(j);
            let ghost old_server = server@;
            server.hosts.push((key, directives));
            assert(hosts_view(server.hosts@) =~= old_server.hosts.push((strip_scheme(host@), dv)));
            if let Some((c, k)) = tls {
                server.cert = Some(c);
                server.key = Some(k);
            }
            servers.insert(j, server);
            assert(servers_view(servers@) =~= add_host(before, host@, dv));
        } else {
            assert(before.take(j as int) =~= before);
            let (cert, tkey) = match tls {
                Some((c, k)) => (Some(c), Some(k)),
                None => (None, None),
            };
            let mut hosts: Vec<(String, Vec<Directive>)> = Vec::new();
            hosts.push((key, directives));
            assert(hosts_view(hosts@) =~= seq![(strip_scheme(host@), dv)]);
            servers.push(Server { port, hosts, cert, key: tkey });
            assert(servers_view(servers@) =~= add_host(before, host@, dv));
        }
        proof {
            done = done + 1;
        }
    }
    assert(cv.take(done) =~= cv);
    servers
}

/// A server found on a port in a prefix is the first on that port.
proof fn lemma_server_extends(s: Seq<ServerView>, j: int, port: u16)
    requires
        0 <= j <= s.len(),
        server_on(s.take(j), port) is Some,
    ensures
        server_on(s, port) == server_on(s.take(j), port),
    decreases s.len(),
{
    if j < s.len() {
        assert(s.drop_last().take(j) =~= s.take(j));
        lemma_server_extends(s.drop_last(), j, port);
    } else {
        assert(s.take(j) =~= s);
    }
}

/// The ports of `ps`, in order, that are (`inside`) or are not in `other`.
pub open spec fn ports_where(ps: Seq<u16>, other: Seq<u16>, inside: bool) -> Seq<u16>
    decreases ps.len(),
{
    if ps.len() == 0 {
        seq![]
    } else {
        let rest = ports_where(ps.drop_last(), other, inside);
        if other.contains(ps.last()) == inside {
            rest.push(ps.last())
        } else {
            rest
        }
    }
}

/// The ports of a list of servers.
pub open spec fn ports_of(servers: Seq<Server>) -> Seq<u16> {
    servers.map_values(|s: Server| s.port)
}

/// How the running port workers follow a new set of servers.
#[derive(Debug)]
pub struct WorkerPlan {
    /// Workers whose port is no longer served: stop them.
    pub stop: Vec<u16>,
    /// Workers whose port is still served: give them the new hosts.
    pub update: Vec<u16>,
    /// Ports without a worker: start one.
    pub start: Vec<u16>,
}

/// The ports of `ps` that are (`inside`) or are not in `other`, in order.
fn select_ports(ps: &Vec<u16>, other: &Vec<u16>, inside: bool) -> (r: Vec<u16>)
    ensures
        r@ == ports_where(ps@, other@, inside),
{
    let mut out: Vec<u16> = Vec::new();
    let mut i: usize = 0;
    assert(ps@.take(0) =~= seq![]);
    while i < ps.len()
        invariant
            i <= ps.len(),
            out@ == ports_where(ps@.take(i as int), other@, inside),
        decreases ps.len() - i,
    {
        assert(ps@.take(i + 1).drop_last() =~= ps@.take(i as int));
        assert(ps@.take(i + 1).last() == ps@[i as int]);
        let mut found = false;
        let mut j: usize = 0;
        while j < other.len()
            invariant
                i < ps.len(),
                j <= other.len(),
                found <==> exists|k: int| 0 <= k < j && other@[k] == ps@[i as int],
            decreases other.len() - j,
        {
            if other[j] == ps[i] {
                found = true;
            }
            j = j + 1;
        }
        assert(found == other@.contains(ps@[i as int]));
        if found == inside {
            out.push(ps[i]);
        }
        i = i + 1;
    }
    assert(ps@.take(i as int) =~= ps@);
    out
}

/// Plans the move from the workers running on `running` to the servers of
/// `desired`: stop those on ports no longer served, update those on ports
/// still served, start workers for new ports.
pub fn plan_workers(running: &Vec<u16>, desired: &Vec<Server>) -> (r: WorkerPlan)
    ensures
        r.stop@ == ports_where(running@, ports_of(desired@), false),
        r.update@ == ports_where(ports_of(desired@), running@, true),
        r.start@ == ports_where(ports_of(desired@), running@, false),
{
    let mut ports: Vec<u16> = Vec::new();
    let mut i: usize = 0;
    while i < desired.len()
        invariant
            i <= desired.len(),
            ports@ =~= ports_of(desired@).take(i as int),
        decreases desired.len() - i,
    {
        ports.push(desired[i].port);
        i = i + 1;
    }
    assert(ports@ =~= ports_of(desired@));
    WorkerPlan {
        stop: select_ports(running, &ports, false),
        update: select_ports(&ports, running, true),
        start: select_ports(&ports, running, false),
    }
}

} // verus!
