//! The configuration model: per-host directive lists, and the builder that
//! reads them from a parsed configuration document.
use vstd::prelude::*;

use crate::error::CbltError;
use crate::text::{chars_of, parse_unsigned, str_eq, unsigned_of};

verus! {

/// How a reverse proxy picks among its backends.
#[derive(Debug, Clone, Copy, PartialEq, Eq, Structural)]
pub enum LoadBalancePolicy {
    RoundRobin,
    IPHash,
}

/// Load-balancing settings of one reverse-proxy directive; durations are in
/// seconds.
#[derive(Debug, Clone, Copy, PartialEq, Eq, Structural)]
pub struct ReverseProxyOptions {
    pub lb_retries: u64,
    pub lb_interval: u64,
    pub lb_timeout: u64,
    pub lb_policy: Option<LoadBalancePolicy>,
}

/// One entry of a virtual host's pipeline.
#[derive(Debug, Clone)]
pub enum Directive {
    /// Sets the file root (and a fallback file) for requests matching `pattern`.
    Root { pattern: String, path: String, fallback: Option<String> },
    /// Serves files from the current root.
    FileServer,
    /// Relays requests matching `pattern` to one of `destinations`.
    ReverseProxy { pattern: String, destinations: Vec<String>, options: ReverseProxyOptions },
    /// Redirects with `302 Found`; `{uri}` stands for the request path.
    Redir { destination: String },
    /// Redirects unless the request carries a cookie named `cookiename`.
    RedirIfNotCookie { cookiename: String, destination: String },
    /// TLS material of the host; ignored by the pipeline.
    TlS { cert: String, key: String },
}

/// A directive with its strings as character sequences.
pub enum DirectiveView {
    Root { pattern: Seq<char>, path: Seq<char>, fallback: Option<Seq<char>> },
    FileServer,
    ReverseProxy {
        pattern: Seq<char>,
        destinations: Seq<Seq<char>>,
        options: ReverseProxyOptions,
    },
    Redir { destination: Seq<char> },
    RedirIfNotCookie { cookiename: Seq<char>, destination: Seq<char> },
    TlS { cert: Seq<char>, key: Seq<char> },
}

/// The view of an optional string.
pub open spec fn opt_view(s: Option<String>) -> Option<Seq<char>> {
    match s {
        Some(x) => Some(x@),
        None => None,
    }
}

impl View for Directive {
    type V = DirectiveView;

    open spec fn view(&self) -> DirectiveView {
        match self {
            Directive::Root { pattern, path, fallback } => DirectiveView::Root {
                pattern: pattern@,
                path: path@,
                fallback: opt_view(*fallback),
            },
            Directive::FileServer => DirectiveView::FileServer,
            Directive::ReverseProxy { pattern, destinations, options } =>
                DirectiveView::ReverseProxy {
                pattern: pattern@,
                destinations: destinations.deep_view(),
                options: *options,
            },
            Directive::Redir { destination } => DirectiveView::Redir {
                destination: destination@,
            },
            Directive::RedirIfNotCookie { cookiename, destination } =>
                DirectiveView::RedirIfNotCookie {
                cookiename: cookiename@,
                destination: destination@,
            },
            Directive::TlS { cert, key } => DirectiveView::TlS { cert: cert@, key: key@ },
        }
    }
}

/// The views of a list of directives.
pub open spec fn directives_view(v: Seq<Directive>) -> Seq<DirectiveView> {
    v.map_values(|d: Directive| d@)
}

/// The views of a host table.
pub open spec fn hosts_view(v: Seq<(String, Vec<Directive>)>) -> Seq<
    (Seq<char>, Seq<DirectiveView>),
> {
    v.map_values(|p: (String, Vec<Directive>)| (p.0@, directives_view(p.1@)))
}

/// One node of a parsed configuration document: its name, its arguments
/// (`None` for an argument that is not a string), and its child block.
#[derive(Debug)]
pub struct ConfigNode {
    pub name: String,
    pub args: Vec<Option<String>>,
    pub children: Option<Vec<ConfigNode>>,
}

/// Why a configuration is refused.
pub enum ConfigFault {
    /// A node breaks the format's rules.
    Syntax,
    /// A number does not parse.
    Number,
    /// A duration does not parse.
    Duration,
}

/// The kind of configuration fault an error reports.
pub open spec fn fault_of(e: CbltError) -> Option<ConfigFault> {
    match e {
        CbltError::KdlParseError { .. } => Some(ConfigFault::Syntax),
        CbltError::ParseIntError { .. } => Some(ConfigFault::Number),
        CbltError::DurationError { .. } => Some(ConfigFault::Duration),
        _ => None,
    }
}

/// Whether `r` is the exec form of the spec outcome `s`.
pub open spec fn same_outcome<T, V>(r: Result<T, CbltError>, s: Result<V, ConfigFault>, v: spec_fn(T) -> V) -> bool {
    match r {
        Ok(x) => s == Ok::<V, ConfigFault>(v(x)),
        Err(e) => fault_of(e) is Some && s == Err::<V, ConfigFault>(fault_of(e)->0),
    }
}

/// The string arguments of a node, in order.
pub open spec fn string_args(args: Seq<Option<String>>) -> Seq<Seq<char>>
    decreases args.len(),
{
    if args.len() == 0 {
        seq![]
    } else {
        let r = string_args(args.drop_last());
        match args.last() {
            Some(s) => r.push(s@),
            None => r,
        }
    }
}

/// The children of a node; none when it has no block.
pub open spec fn child_nodes(n: ConfigNode) -> Seq<ConfigNode> {
    match n.children {
        Some(c) => c@,
        None => seq![],
    }
}

/// What humantime reads from a duration string, in whole seconds.
pub uninterp spec fn duration_secs_of(s: Seq<char>) -> Option<u64>;

/// How many ASCII digits `s` holds.
pub open spec fn digit_count(s: Seq<char>) -> nat
    decreases s.len(),
{
    if s.len() == 0 {
        0
    } else {
        digit_count(s.drop_last()) + if '0' <= s.last() <= '9' {
            1nat
        } else {
            0nat
        }
    }
}

/// The most digits a duration may hold: enough for any practical interval,
/// and far from the sums that overflow humantime's arithmetic.
pub const MAX_DURATION_DIGITS: usize = 9;

/// Relies on `humantime::parse_duration`: the duration that a string such as
/// `10s` or `1m 30s` denotes, or `None` where it denotes none. The bound on
/// digits keeps the total far below `u64::MAX` seconds, where humantime's
/// carry of whole seconds from nanoseconds can overflow and panic.
#[verifier::external_body]
fn parse_duration_secs(s: &str) -> (r: Option<u64>)
    requires
        digit_count(s@) <= MAX_DURATION_DIGITS,
    ensures
        r == duration_secs_of(s@),
{
    humantime::parse_duration(s).ok().map(|d| d.as_secs())
}

/// The seconds a duration string denotes; `None` where it holds more than
/// `MAX_DURATION_DIGITS` digits or humantime reads no duration in it.
pub open spec fn duration_value_of(s: Seq<char>) -> Option<u64> {
    if digit_count(s) <= MAX_DURATION_DIGITS {
        duration_secs_of(s)
    } else {
        None
    }
}

/// Reads a duration string in whole seconds.
pub fn read_duration(s: &str) -> (r: Option<u64>)
    ensures
        r == duration_value_of(s@),
{
    let c = crate::text::chars_of(s);
    let mut n: usize = 0;
    let mut i: usize = 0;
    assert(c@.take(0) =~= seq![]);
    while i < c.len()
        invariant
            i <= c.len(),
            c@ == s@,
            n as nat == digit_count(c@.take(i as int)),
            n <= i,
        decreases c.len() - i,
    {
        assert(c@.take(i + 1).drop_last() =~= c@.take(i as int));
        if '0' <= c[i] && c[i] <= '9' {
            n = n + 1;
        }
        i = i + 1;
    }
    assert(c@.take(i as int) =~= c@);
    if n > MAX_DURATION_DIGITS {
        None
    } else {
        parse_duration_secs(s)
    }
}

/// Options of a reverse proxy that sets none.
pub open spec fn default_proxy_options() -> ReverseProxyOptions {
    ReverseProxyOptions {
        lb_retries: 2,
        lb_interval: 60,
        lb_timeout: 1,
        lb_policy: Some(LoadBalancePolicy::RoundRobin),
    }
}

/// The options after one option node: `lb_retries <n>`, `lb_interval <d>`,
/// `lb_timeout <d>` or `lb_policy "round_robin"|"ip_hash"`.
pub open spec fn apply_proxy_option(o: ReverseProxyOptions, c: ConfigNode) -> Result<
    ReverseProxyOptions,
    ConfigFault,
> {
    let args = string_args(c.args@);
    let name = c.name@;
    if name == "lb_retries"@ {
        if args.len() == 0 {
            Ok(ReverseProxyOptions { lb_retries: 2, ..o })
        } else {
            match unsigned_of(args[0], u64::MAX as int) {
                Some(v) => Ok(ReverseProxyOptions { lb_retries: v as u64, ..o }),
                None => Err(ConfigFault::Number),
            }
        }
    } else if name == "lb_interval"@ {
        if args.len() == 0 {
            Ok(ReverseProxyOptions { lb_interval: 10, ..o })
        } else {
            match duration_value_of(args[0]) {
                Some(v) => Ok(ReverseProxyOptions { lb_interval: v, ..o }),
                None => Err(ConfigFault::Duration),
            }
        }
    } else if name == "lb_timeout"@ {
        if args.len() == 0 {
            Ok(ReverseProxyOptions { lb_timeout: 1, ..o })
        } else {
            match duration_value_of(args[0]) {
                Some(v) => Ok(ReverseProxyOptions { lb_timeout: v, ..o }),
                None => Err(ConfigFault::Duration),
            }
        }
    } else if name == "lb_policy"@ {
        if args.len() == 0 {
            Ok(o)
        } else if args[0] == "round_robin"@ {
            Ok(ReverseProxyOptions { lb_policy: Some(LoadBalancePolicy::RoundRobin), ..o })
        } else if args[0] == "ip_hash"@ {
            Ok(ReverseProxyOptions { lb_policy: Some(LoadBalancePolicy::IPHash), ..o })
        } else {
            Err(ConfigFault::Syntax)
        }
    } else {
        Err(ConfigFault::Syntax)
    }
}

/// The options that a list of option nodes sets, applied in order.
pub open spec fn proxy_options_of(children: Seq<ConfigNode>) -> Result<
    ReverseProxyOptions,
    ConfigFault,
>
    decreases children.len(),
{
    if children.len() == 0 {
        Ok(default_proxy_options())
    } else {
        match proxy_options_of(children.drop_last()) {
            Ok(o) => apply_proxy_option(o, children.last()),
            Err(e) => Err(e),
        }
    }
}

/// Once a prefix of the option nodes is refused, so is the whole list.
proof fn lemma_options_error_stays(cs: Seq<ConfigNode>, j: int)
    requires
        0 <= j <= cs.len(),
        proxy_options_of(cs.take(j)) is Err,
    ensures
        proxy_options_of(cs) == proxy_options_of(cs.take(j)),
    decreases cs.len(),
{
    if j < cs.len() {
        assert(cs.drop_last().take(j) =~= cs.take(j));
        lemma_options_error_stays(cs.drop_last(), j);
    } else {
        assert(cs.take(j) =~= cs);
    }
}

/// The string arguments of a node.
pub fn get_string_args(node: &ConfigNode) -> (r: Vec<String>)
    ensures
        r.deep_view() == string_args(node.args@),
{
    let mut out: Vec<String> = Vec::new();
    let mut i: usize = 0;
    while i < node.args.len()
        invariant
            i <= node.args.len(),
            out.deep_view() == string_args(node.args@.take(i as int)),
        decreases node.args.len() - i,
    {
        assert(node.args@.take(i + 1).drop_last() =~= node.args@.take(i as int));
        match &node.args[i] {
            Some(s) => {
                let ghost before = out.deep_view();
                out.push(s.clone());
                assert(out.deep_view() =~= before.push(s@));
            },
            None => {},
        }
        i = i + 1;
    }
    assert(node.args@.take(i as int) =~= node.args@);
    out
}

/// Reads the option block of a `reverse_proxy` node.
pub fn parse_reverse_proxy_options(node: &ConfigNode) -> (r: Result<
    ReverseProxyOptions,
    CbltError,
>)
    ensures
        same_outcome(r, proxy_options_of(child_nodes(*node)), |o: ReverseProxyOptions| o),
{
    let mut options = ReverseProxyOptions {
        lb_retries: 2,
        lb_interval: 60,
        lb_timeout: 1,
        lb_policy: Some(LoadBalancePolicy::RoundRobin),
    };
    let children = match &node.children {
        Some(c) => c,
        None => {
            return Ok(options);
        },
    };
    let ghost cs = child_nodes(*node);
    let mut i: usize = 0;
    while i < children.len()
        invariant
            cs == children@,
            cs == child_nodes(*node),
            i <= children.len(),
            proxy_options_of(cs.take(i as int)) == Ok::<ReverseProxyOptions, ConfigFault>(options),
        decreases children.len() - i,
    {
        let child = &children[i];
        assert(cs.take(i + 1).drop_last() =~= cs.take(i as int));
        assert(cs.take(i + 1).last() == *child);
        let args = get_string_args(child);
        let name = child.name.as_str();
        if str_eq(name, "lb_retries") {
            if args.len() == 0 {
                options.lb_retries = 2;
            } else {
                let digits = chars_of(args[0].as_str());
                assert(digits@.subrange(0, digits@.len() as int) =~= args.deep_view()[0]);
                match parse_unsigned(&digits, 0, digits.len(), u64::MAX) {
                    Some(v) => {
                        options.lb_retries = v;
                    },
                    None => {
                        proof {
                    lemma_options_error_stays(cs, i + 1);
                }
                return Err(CbltError::ParseIntError { details: args[0].clone() });
                    },
                }
            }
        } else if str_eq(name, "lb_interval") {
            if args.len() == 0 {
                options.lb_interval = 10;
            } else {
                assert(args.deep_view()[0] == args[0]@);
                match read_duration(args[0].as_str()) {
                    Some(v) => {
                        options.lb_interval = v;
                    },
                    None => {
                        proof {
                    lemma_options_error_stays(cs, i + 1);
                }
                return Err(CbltError::DurationError { details: args[0].clone() });
                    },
                }
            }
        } else if str_eq(name, "lb_timeout") {
            if args.len() == 0 {
                options.lb_timeout = 1;
            } else {
                assert(args.deep_view()[0] == args[0]@);
                match read_duration(args[0].as_str()) {
                    Some(v) => {
                        options.lb_timeout = v;
                    },
                    None => {
                        proof {
                    lemma_options_error_stays(cs, i + 1);
                }
                return Err(CbltError::DurationError { details: args[0].clone() });
                    },
                }
            }
        } else if str_eq(name, "lb_policy") {
            if args.len() > 0 {
                assert(args.deep_view()[0] == args[0]@);
                if str_eq(args[0].as_str(), "round_robin") {
                    options.lb_policy = Some(LoadBalancePolicy::RoundRobin);
                } else if str_eq(args[0].as_str(), "ip_hash") {
                    options.lb_policy = Some(LoadBalancePolicy::IPHash);
                } else {
                    proof {
                    lemma_options_error_stays(cs, i + 1);
                }
                return Err(CbltError::KdlParseError { details: args[0].clone() });
                }
            }
        } else {
            proof {
                    lemma_options_error_stays(cs, i + 1);
                }
                return Err(CbltError::KdlParseError { details: child.name.clone() });
        }
        i = i + 1;
    }
    assert(cs.take(i as int) =~= cs);
    Ok(options)
}

/// The directive that one node of a host block denotes.
pub open spec fn directive_of(c: ConfigNode) -> Result<DirectiveView, ConfigFault> {
    let args = string_args(c.args@);
    let name = c.name@;
    if name == "root"@ {
        if args.len() >= 2 {
            Ok(
                DirectiveView::Root {
                    pattern: args[0],
                    path: args[1],
                    fallback: if args.len() >= 3 {
                        Some(args[2])
                    } else {
                        None
                    },
                },
            )
        } else {
            Err(ConfigFault::Syntax)
        }
    } else if name == "file_server"@ {
        Ok(DirectiveView::FileServer)
    } else if name == "reverse_proxy"@ {
        if args.len() >= 2 {
            match proxy_options_of(child_nodes(c)) {
                Ok(o) => Ok(
                    DirectiveView::ReverseProxy {
                        pattern: args[0],
                        destinations: args.drop_first(),
                        options: o,
                    },
                ),
                Err(e) => Err(e),
            }
        } else {
            Err(ConfigFault::Syntax)
        }
    } else if name == "redir"@ {
        if args.len() >= 1 {
            Ok(DirectiveView::Redir { destination: args[0] })
        } else {
            Err(ConfigFault::Syntax)
        }
    } else if name == "redirifnotcookie"@ {
        if args.len() >= 2 {
            Ok(DirectiveView::RedirIfNotCookie { cookiename: args[0], destination: args[1] })
        } else {
            Err(ConfigFault::Syntax)
        }
    } else if name == "tls"@ {
        if args.len() >= 2 {
            Ok(DirectiveView::TlS { cert: args[0], key: args[1] })
        } else {
            Err(ConfigFault::Syntax)
        }
    } else {
        Err(ConfigFault::Syntax)
    }
}

/// The directives of a host block, in order.
pub open spec fn host_directives_of(children: Seq<ConfigNode>) -> Result<
    Seq<DirectiveView>,
    ConfigFault,
>
    decreases children.len(),
{
    if children.len() == 0 {
        Ok(seq![])
    } else {
        match host_directives_of(children.drop_last()) {
            Ok(ds) => match directive_of(children.last()) {
                Ok(d) => Ok(ds.push(d)),
                Err(e) => Err(e),
            },
            Err(e) => Err(e),
        }
    }
}

/// Whether a host table already holds `name`.
pub open spec fn has_host(hosts: Seq<(Seq<char>, Seq<DirectiveView>)>, name: Seq<char>) -> bool {
    exists|i: int| 0 <= i < hosts.len() && (#[trigger] hosts[i]).0 == name
}

/// The host table of a document: one entry per top-level node, in order;
/// refused where a host has no directive or appears twice.
pub open spec fn config_of(nodes: Seq<ConfigNode>) -> Result<
    Seq<(Seq<char>, Seq<DirectiveView>)>,
    ConfigFault,
>
    decreases nodes.len(),
{
    if nodes.len() == 0 {
        Ok(seq![])
    } else {
        match config_of(nodes.drop_last()) {
            Ok(hosts) => {
                let n = nodes.last();
                match host_directives_of(child_nodes(n)) {
                    Ok(ds) => if ds.len() == 0 || has_host(hosts, n.name@) {
                        Err(ConfigFault::Syntax)
                    } else {
                        Ok(hosts.push((n.name@, ds)))
                    },
                    Err(e) => Err(e),
                }
            },
            Err(e) => Err(e),
        }
    }
}

/// Once a prefix of a host block is refused, so is the whole block.
proof fn lemma_directives_error_stays(cs: Seq<ConfigNode>, j: int)
    requires
        0 <= j <= cs.len(),
        host_directives_of(cs.take(j)) is Err,
    ensures
        host_directives_of(cs) == host_directives_of(cs.take(j)),
    decreases cs.len(),
{
    if j < cs.len() {
        assert(cs.drop_last().take(j) =~= cs.take(j));
        lemma_directives_error_stays(cs.drop_last(), j);
    } else {
        assert(cs.take(j) =~= cs);
    }
}

/// Once a prefix of a document is refused, so is the whole document.
proof fn lemma_config_error_stays(ns: Seq<ConfigNode>, j: int)
    requires
        0 <= j <= ns.len(),
        config_of(ns.take(j)) is Err,
    ensures
        config_of(ns) == config_of(ns.take(j)),
    decreases ns.len(),
{
    if j < ns.len() {
        assert(ns.drop_last().take(j) =~= ns.take(j));
        lemma_config_error_stays(ns.drop_last(), j);
    } else {
        assert(ns.take(j) =~= ns);
    }
}

/// A refusal of the document for a node that breaks a rule.
fn syntax_error(what: &str, host: &String) -> (r: CbltError)
    ensures
        fault_of(r) == Some(ConfigFault::Syntax),
{
    let mut details = what.to_string();
    details.append(host.as_str());
    CbltError::KdlParseError { details }
}

/// Reads one node of a host block as a directive.
pub fn parse_directive(node: &ConfigNode, host: &String) -> (r: Result<Directive, CbltError>)
    ensures
        same_outcome(r, directive_of(*node), |d: Directive| d@),
{
    let args = get_string_args(node);
    let ghost sargs = string_args(node.args@);
    assert(args.deep_view().len() == args.len());
    let name = node.name.as_str();
    if str_eq(name, "root") {
        if args.len() >= 2 {
            let fallback = if args.len() >= 3 {
                Some(args[2].clone())
            } else {
                None
            };
            assert(sargs[0] == args[0]@ && sargs[1] == args[1]@);
            assert(args.len() >= 3 ==> sargs[2] == args[2]@);
            Ok(Directive::Root { pattern: args[0].clone(), path: args[1].clone(), fallback })
        } else {
            Err(syntax_error("Invalid 'root' directive for host ", host))
        }
    } else if str_eq(name, "file_server") {
        Ok(Directive::FileServer)
    } else if str_eq(name, "reverse_proxy") {
        if args.len() >= 2 {
            let options = parse_reverse_proxy_options(node)?;
            let mut destinations: Vec<String> = Vec::new();
            let mut i: usize = 1;
            while i < args.len()
                invariant
                    1 <= i <= args.len(),
                    args.deep_view() == sargs,
                    destinations.deep_view() =~= sargs.subrange(1, i as int),
                decreases args.len() - i,
            {
                let ghost before = destinations.deep_view();
                assert(sargs[i as int] == args[i as int]@);
                destinations.push(args[i].clone());
                assert(destinations.deep_view() =~= before.push(args[i as int]@));
                i = i + 1;
            }
            assert(sargs.subrange(1, i as int) =~= sargs.drop_first());
            assert(sargs[0] == args[0]@);
            Ok(Directive::ReverseProxy { pattern: args[0].clone(), destinations, options })
        } else {
            Err(syntax_error("Invalid 'reverse_proxy' directive for host ", host))
        }
    } else if str_eq(name, "redir") {
        if args.len() >= 1 {
            assert(sargs[0] == args[0]@);
            Ok(Directive::Redir { destination: args[0].clone() })
        } else {
            Err(syntax_error("Invalid 'redir' directive for host ", host))
        }
    } else if str_eq(name, "redirifnotcookie") {
        if args.len() >= 2 {
            assert(sargs[0] == args[0]@ && sargs[1] == args[1]@);
            Ok(
                Directive::RedirIfNotCookie {
                    cookiename: args[0].clone(),
                    destination: args[1].clone(),
                },
            )
        } else {
            Err(syntax_error("Invalid 'redirifnotcookie' directive for host ", host))
        }
    } else if str_eq(name, "tls") {
        if args.len() >= 2 {
            assert(sargs[0] == args[0]@ && sargs[1] == args[1]@);
            Ok(Directive::TlS { cert: args[0].clone(), key: args[1].clone() })
        } else {
            Err(syntax_error("Invalid 'tls' directive for host ", host))
        }
    } else {
        Err(syntax_error("Unknown directive for host ", host))
    }
}

/// Builds the host table of a configuration document: for each top-level
/// node, in order, its name and the directives of its block. A document
/// with an invalid or unknown directive, a host without directives, or a
/// host named twice is refused.
pub fn build_config(nodes: &Vec<ConfigNode>) -> (r: Result<Vec<(String, Vec<Directive>)>, CbltError>)
    ensures
        same_outcome(r, config_of(nodes@), |v: Vec<(String, Vec<Directive>)>| hosts_view(v@)),
{
    let mut hosts: Vec<(String, Vec<Directive>)> = Vec::new();
    let mut k: usize = 0;
    assert(nodes@.take(0) =~= seq![]);
    assert(hosts_view(hosts@) =~= seq![]);
    while k < nodes.len()
        invariant
            k <= nodes.len(),
            config_of(nodes@.take(k as int)) == Ok::<Seq<(Seq<char>, Seq<DirectiveView>)>, ConfigFault>(hosts_view(hosts@)),
        decreases nodes.len() - k,
    {
        let node = &nodes[k];
        assert(nodes@.take(k + 1).drop_last() =~= nodes@.take(k as int));
        assert(nodes@.take(k + 1).last() == *node);
        let ghost cs = child_nodes(*node);
        let mut directives: Vec<Directive> = Vec::new();
        assert(directives_view(directives@) =~= seq![]);
        match &node.children {
            Some(children) => {
                let mut i: usize = 0;
                assert(cs.take(0) =~= seq![]);
                while i < children.len()
                    invariant
                        k < nodes.len(),
                        *node == nodes@[k as int],
                        config_of(nodes@.take(k as int)) == Ok::<Seq<(Seq<char>, Seq<DirectiveView>)>, ConfigFault>(hosts_view(hosts@)),
                        nodes@.take(k + 1).drop_last() == nodes@.take(k as int),
                        nodes@.take(k + 1).last() == *node,
                        cs == child_nodes(*node),
                        cs == children@,
                        i <= children.len(),
                        host_directives_of(cs.take(i as int)) == Ok::<Seq<DirectiveView>, ConfigFault>(directives_view(directives@)),
                    decreases children.len() - i,
                {
                    assert(cs.take(i + 1).drop_last() =~= cs.take(i as int));
                    assert(cs.take(i + 1).last() == children@[i as int]);
                    match parse_directive(&children[i], &node.name) {
                        Ok(d) => {
                            let ghost before = directives@;
                            directives.push(d);
                            assert(directives_view(directives@) =~= directives_view(before).push(d@));
                        },
                        Err(e) => {
                            proof {
                                lemma_directives_error_stays(cs, i + 1);
                                assert(config_of(nodes@.take(k + 1)) is Err);
                                lemma_config_error_stays(nodes@, k + 1);
                            }
                            return Err(e);
                        },
                    }
                    i = i + 1;
                }
                assert(cs.take(i as int) =~= cs);
            },
            None => {
                assert(cs =~= seq![]);
            },
        }
        assert(host_directives_of(cs) == Ok::<Seq<DirectiveView>, ConfigFault>(directives_view(directives@)));
        let ghost hv = hosts_view(hosts@);
        if directives.len() == 0 {
            proof {
                lemma_config_error_stays(nodes@, k + 1);
            }
            return Err(syntax_error("No directives specified for host ", &node.name));
        }
        let mut j: usize = 0;
        while j < hosts.len()
            invariant
                j <= hosts.len(),
                hv == hosts_view(hosts@),
                k < nodes.len(),
                config_of(nodes@.take(k as int)) == Ok::<Seq<(Seq<char>, Seq<DirectiveView>)>, ConfigFault>(hv),
                nodes@.take(k + 1).drop_last() == nodes@.take(k as int),
                nodes@.take(k + 1).last() == *node,
                cs == child_nodes(*node),
                host_directives_of(cs) == Ok::<Seq<DirectiveView>, ConfigFault>(directives_view(directives@)),
                forall|m: int| 0 <= m < j ==> (#[trigger] hv[m]).0 != node.name@,
            decreases hosts.len() - j,
        {
            if hosts[j].0 == node.name {
                assert(hv[j as int].0 == node.name@);
                assert(has_host(hv, node.name@));
                proof {
                    lemma_config_error_stays(nodes@, k + 1);
                }
                return Err(syntax_error("Host already exists: ", &node.name));
            }
            j = j + 1;
        }
        assert(!has_host(hv, node.name@));
        let ghost dv = directives_view(directives@);
        hosts.push((node.name.clone(), directives));
        assert(hosts_view(hosts@) =~= hv.push((node.name@, dv)));
        k = k + 1;
    }
    assert(nodes@.take(k as int) =~= nodes@);
    Ok(hosts)
}

} // verus!
