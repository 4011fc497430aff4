//! Reading reverse-proxy hosts from the labels of orchestrator services
//! (`cblt.hosts`, `cblt.path`, `cblt.port` and friends).
use vstd::prelude::*;

use crate::config::{
    directives_view, duration_value_of, hosts_view, opt_view, read_duration, Directive,
    DirectiveView, LoadBalancePolicy, ReverseProxyOptions,
};
use crate::error::CbltError;
use crate::text::{
    append_decimal, chars_of, clone_strings, decimal_chars, parse_unsigned, push_char, same_prefix, str_eq,
    unsigned_of,
};

verus! {

/// Whether `s` begins with `p`.
pub open spec fn starts_with(s: Seq<char>, p: Seq<char>) -> bool {
    p.len() <= s.len() && s.take(p.len() as int) == p
}

/// Whether `s` begins with `p` (exec).
pub fn str_starts_with(s: &str, p: &str) -> (r: bool)
    ensures
        r == starts_with(s@, p@),
{
    let a = chars_of(s);
    let b = chars_of(p);
    if b.len() > a.len() {
        return false;
    }
    let r = same_prefix(&a, &b, b.len());
    assert(b@.take(b.len() as int) =~= b@);
    r
}

/// The labels as pairs of character sequences.
pub open spec fn labels_view(l: Seq<(String, String)>) -> Seq<(Seq<char>, Seq<char>)> {
    l.map_values(|p: (String, String)| (p.0@, p.1@))
}

/// Whether a service carries any `cblt.` label.
pub open spec fn is_cblt(labels: Seq<(Seq<char>, Seq<char>)>) -> bool {
    exists|i: int| 0 <= i < labels.len() && starts_with(#[trigger] labels[i].0, "cblt."@)
}

/// Whether a service carries any `cblt.` label.
pub fn is_cblt_service(labels: &Vec<(String, String)>) -> (r: bool)
    ensures
        r == is_cblt(labels_view(labels@)),
{
    let ghost lv = labels_view(labels@);
    let mut i: usize = 0;
    while i < labels.len()
        invariant
            i <= labels.len(),
            lv == labels_view(labels@),
            forall|k: int| 0 <= k < i ==> !starts_with(#[trigger] lv[k].0, "cblt."@),
        decreases labels.len() - i,
    {
        assert(lv[i as int].0 == labels@[i as int].0@);
        if str_starts_with(labels[i].0.as_str(), "cblt.") {
            return true;
        }
        i = i + 1;
    }
    false
}

/// The value of the first label named `key`.
pub open spec fn label_of(labels: Seq<(Seq<char>, Seq<char>)>, key: Seq<char>) -> Option<Seq<char>>
    decreases labels.len(),
{
    if labels.len() == 0 {
        None
    } else if labels[0].0 == key {
        Some(labels[0].1)
    } else {
        label_of(labels.drop_first(), key)
    }
}

/// The value of the first label named `key`.
pub fn get_label<'a>(labels: &'a Vec<(String, String)>, key: &str) -> (r: Option<&'a String>)
    ensures
        match label_of(labels_view(labels@), key@) {
            Some(v) => r is Some && r->0@ == v,
            None => r is None,
        },
{
    let ghost lv = labels_view(labels@);
    let mut i: usize = 0;
    assert(lv.skip(0) =~= lv);
    while i < labels.len()
        invariant
            i <= labels.len(),
            lv == labels_view(labels@),
            label_of(lv, key@) == label_of(lv.skip(i as int), key@),
        decreases labels.len() - i,
    {
        assert(lv.skip(i as int)[0] == (labels@[i as int].0@, labels@[i as int].1@));
        assert(lv.skip(i as int).drop_first() =~= lv.skip(i + 1));
        if str_eq(labels[i].0.as_str(), key) {
            return Some(&labels[i].1);
        }
        i = i + 1;
    }
    None
}

/// Whether `c` is whitespace in Unicode's sense, as `char::is_whitespace`
/// decides.
pub open spec fn is_space(c: char) -> bool {
    ('\u{9}' <= c <= '\u{d}') || c == ' ' || c == '\u{85}' || c == '\u{a0}' || c == '\u{1680}'
        || ('\u{2000}' <= c <= '\u{200a}') || c == '\u{2028}' || c == '\u{2029}' || c
        == '\u{202f}' || c == '\u{205f}' || c == '\u{3000}'
}

/// Decides `is_space`.
pub fn is_space_char(c: char) -> (r: bool)
    ensures
        r == is_space(c),
{
    ('\u{9}' <= c && c <= '\u{d}') || c == ' ' || c == '\u{85}' || c == '\u{a0}' || c
        == '\u{1680}' || ('\u{2000}' <= c && c <= '\u{200a}') || c == '\u{2028}' || c
        == '\u{2029}' || c == '\u{202f}' || c == '\u{205f}' || c == '\u{3000}'
}

/// `s` without leading whitespace.
pub open spec fn trim_start(s: Seq<char>) -> Seq<char>
    decreases s.len(),
{
    if s.len() > 0 && is_space(s[0]) {
        trim_start(s.drop_first())
    } else {
        s
    }
}

/// `s` without trailing whitespace.
pub open spec fn trim_end(s: Seq<char>) -> Seq<char>
    decreases s.len(),
{
    if s.len() > 0 && is_space(s.last()) {
        trim_end(s.drop_last())
    } else {
        s
    }
}

/// `s` without leading and trailing whitespace.
pub open spec fn trim(s: Seq<char>) -> Seq<char> {
    trim_end(trim_start(s))
}

/// The bounds of the trimmed part of `s[lo..hi]`.
fn trim_bounds(s: &Vec<char>, lo: usize, hi: usize) -> (r: (usize, usize))
    requires
        lo <= hi <= s.len(),
    ensures
        lo <= r.0 <= r.1 <= hi,
        trim(s@.subrange(lo as int, hi as int)) == s@.subrange(r.0 as int, r.1 as int),
{
    let mut a = lo;
    while a < hi && is_space_char(s[a])
        invariant
            lo <= a <= hi <= s.len(),
            trim_start(s@.subrange(a as int, hi as int)) == trim_start(s@.subrange(lo as int, hi as int)),
        decreases hi - a,
    {
        assert(s@.subrange(a + 1, hi as int) =~= s@.subrange(a as int, hi as int).drop_first());
        a = a + 1;
    }
    let mut b = hi;
    assert(trim_start(s@.subrange(lo as int, hi as int)) == s@.subrange(a as int, hi as int));
    while b > a && is_space_char(s[b - 1])
        invariant
            lo <= a <= b <= hi <= s.len(),
            trim_end(s@.subrange(a as int, b as int)) == trim_end(s@.subrange(a as int, hi as int)),
        decreases b,
    {
        assert(s@.subrange(a as int, b - 1) =~= s@.subrange(a as int, b as int).drop_last());
        b = b - 1;
    }
    (a, b)
}

/// The pieces of `s` between occurrences of `sep` so far, and the piece
/// still open.
pub open spec fn split_scan(s: Seq<char>, sep: char) -> (Seq<Seq<char>>, Seq<char>)
    decreases s.len(),
{
    if s.len() == 0 {
        (seq![], seq![])
    } else {
        let (done, cur) = split_scan(s.drop_last(), sep);
        if s.last() == sep {
            (done.push(cur), seq![])
        } else {
            (done, cur.push(s.last()))
        }
    }
}

/// The pieces of `s` between occurrences of `sep`, each trimmed.
pub open spec fn split_trimmed(s: Seq<char>, sep: char) -> Seq<Seq<char>> {
    let (done, cur) = split_scan(s, sep);
    done.push(cur).map_values(|p: Seq<char>| trim(p))
}

/// The words of `s` so far, and the word still open.
pub open spec fn words_scan(s: Seq<char>) -> (Seq<Seq<char>>, Seq<char>)
    decreases s.len(),
{
    if s.len() == 0 {
        (seq![], seq![])
    } else {
        let (done, cur) = words_scan(s.drop_last());
        if is_space(s.last()) {
            if cur.len() > 0 {
                (done.push(cur), seq![])
            } else {
                (done, seq![])
            }
        } else {
            (done, cur.push(s.last()))
        }
    }
}

/// The whitespace-separated words of `s`.
pub open spec fn words(s: Seq<char>) -> Seq<Seq<char>> {
    let (done, cur) = words_scan(s);
    if cur.len() > 0 {
        done.push(cur)
    } else {
        done
    }
}

/// Splits `s` at each `sep` and trims each piece.
pub fn split_list(s: &str, sep: char) -> (r: Vec<String>)
    ensures
        r.deep_view() == split_trimmed(s@, sep),
{
    let c = chars_of(s);
    let ghost cs = s@;
    let mut out: Vec<String> = Vec::new();
    let ghost mut raw: Seq<Seq<char>> = seq![];
    let mut start: usize = 0;
    let mut i: usize = 0;
    assert(cs.take(0) =~= seq![]);
    while i < c.len()
        invariant
            c@ == cs,
            cs == s@,
            start <= i <= c.len(),
            split_scan(cs.take(i as int), sep) == (raw, cs.subrange(start as int, i as int)),
            out.deep_view() == raw.map_values(|p: Seq<char>| trim(p)),
        decreases c.len() - i,
    {
        assert(cs.take(i + 1).drop_last() =~= cs.take(i as int));
        assert(cs.take(i + 1).last() == c@[i as int]);
        if c[i] == sep {
            let (a, b) = trim_bounds(&c, start, i);
            let ghost before = out.deep_view();
            let ghost piece = cs.subrange(start as int, i as int);
            out.push(s.substring_char(a, b).to_string());
            assert(out.deep_view() =~= before.push(trim(piece)));
            proof {
                raw = raw.push(piece);
            }
            assert(out.deep_view() =~= raw.map_values(|p: Seq<char>| trim(p)));
            start = i + 1;
        } else {
            assert(cs.subrange(start as int, i + 1) =~= cs.subrange(start as int, i as int).push(c@[i as int]));
        }
        i = i + 1;
    }
    assert(cs.take(i as int) =~= cs);
    let (a, b) = trim_bounds(&c, start, i);
    let ghost before = out.deep_view();
    let ghost piece = cs.subrange(start as int, i as int);
    out.push(s.substring_char(a, b).to_string());
    assert(out.deep_view() =~= before.push(trim(piece)));
    proof {
        raw = raw.push(piece);
    }
    assert(out.deep_view() =~= raw.map_values(|p: Seq<char>| trim(p)));
    out
}

/// Splits `s` into its whitespace-separated words.
pub fn split_words(s: &str) -> (r: Vec<String>)
    ensures
        r.deep_view() == words(s@),
{
    let c = chars_of(s);
    let ghost cs = s@;
    let mut out: Vec<String> = Vec::new();
    let mut start: usize = 0;
    let mut i: usize = 0;
    assert(cs.take(0) =~= seq![]);
    while i < c.len()
        invariant
            c@ == cs,
            cs == s@,
            start <= i <= c.len(),
            words_scan(cs.take(i as int)) == (out.deep_view(), cs.subrange(start as int, i as int)),
        decreases c.len() - i,
    {
        assert(cs.take(i + 1).drop_last() =~= cs.take(i as int));
        assert(cs.take(i + 1).last() == c@[i as int]);
        if is_space_char(c[i]) {
            if i > start {
                let ghost before = out.deep_view();
                out.push(s.substring_char(start, i).to_string());
                assert(out.deep_view() =~= before.push(cs.subrange(start as int, i as int)));
            }
            start = i + 1;
        } else {
            assert(cs.subrange(start as int, i + 1) =~= cs.subrange(start as int, i as int).push(c@[i as int]));
        }
        i = i + 1;
    }
    assert(cs.take(i as int) =~= cs);
    if i > start {
        let ghost before = out.deep_view();
        out.push(s.substring_char(start, i).to_string());
        assert(out.deep_view() =~= before.push(cs.subrange(start as int, i as int)));
    }
    out
}

/// `s` without its `/` characters.
pub open spec fn without_slashes(s: Seq<char>) -> Seq<char>
    decreases s.len(),
{
    if s.len() == 0 {
        seq![]
    } else {
        let r = without_slashes(s.drop_last());
        if s.last() == '/' {
            r
        } else {
            r.push(s.last())
        }
    }
}

/// The destination that a container's names give: the first name that
/// begins with `prefix`, without its slashes.
pub open spec fn container_dest(names: Seq<Seq<char>>, prefix: Seq<char>) -> Option<Seq<char>>
    decreases names.len(),
{
    if names.len() == 0 {
        None
    } else if starts_with(names[0], prefix) {
        Some(without_slashes(names[0]))
    } else {
        container_dest(names.drop_first(), prefix)
    }
}

/// The destinations that the running containers give, in order; `None`
/// where a container has no names.
pub open spec fn destinations_of(cs: Seq<Option<Seq<Seq<char>>>>, prefix: Seq<char>) -> Option<
    Seq<Seq<char>>,
>
    decreases cs.len(),
{
    if cs.len() == 0 {
        Some(seq![])
    } else {
        match destinations_of(cs.drop_last(), prefix) {
            None => None,
            Some(d) => match cs.last() {
                None => None,
                Some(names) => match container_dest(names, prefix) {
                    Some(x) => Some(d.push(x)),
                    None => Some(d),
                },
            },
        }
    }
}

/// The containers' names as character sequences.
pub open spec fn containers_view(c: Seq<Option<Vec<String>>>) -> Seq<Option<Seq<Seq<char>>>> {
    c.map_values(
        |o: Option<Vec<String>>|
            match o {
                Some(v) => Some(v.deep_view()),
                None => None,
            },
    )
}

/// Why a service's labels are refused.
pub enum LabelFault {
    ServiceName,
    ContainerName,
    Missing,
    Format,
    Policy,
}

/// The kind of label fault an error reports.
pub open spec fn label_fault(e: CbltError) -> Option<LabelFault> {
    match e {
        CbltError::ServiceNameNotFound => Some(LabelFault::ServiceName),
        CbltError::ContainerNameNotFound => Some(LabelFault::ContainerName),
        CbltError::LabelNotFound { .. } => Some(LabelFault::Missing),
        CbltError::InvalidLabelFormat { .. } => Some(LabelFault::Format),
        CbltError::KdlParseError { .. } => Some(LabelFault::Policy),
        _ => None,
    }
}

/// The words of each secret entry; `None` where one is not
/// `<host> <key> <cert>`.
pub open spec fn secrets_of(entries: Seq<Seq<char>>) -> Option<Seq<Seq<Seq<char>>>>
    decreases entries.len(),
{
    if entries.len() == 0 {
        Some(seq![])
    } else {
        match secrets_of(entries.drop_last()) {
            None => None,
            Some(ws) => if words(entries.last()).len() == 3 {
                Some(ws.push(words(entries.last())))
            } else {
                None
            },
        }
    }
}

/// The key and certificate of the last secret entry for `host`.
pub open spec fn secret_for(ws: Seq<Seq<Seq<char>>>, host: Seq<char>) -> Option<(Seq<char>, Seq<char>)>
    decreases ws.len(),
{
    if ws.len() == 0 {
        None
    } else if ws.last()[0] == host {
        Some((ws.last()[1], ws.last()[2]))
    } else {
        secret_for(ws.drop_last(), host)
    }
}

/// A duration label in seconds, `default` where it is absent.
pub open spec fn duration_label(v: Option<Seq<char>>, default: u64) -> Result<u64, LabelFault> {
    match v {
        None => Ok(default),
        Some(x) => match duration_value_of(x) {
            Some(d) => Ok(d),
            None => Err(LabelFault::Format),
        },
    }
}

/// The load-balancing options that a service's labels set.
pub open spec fn label_options(l: Seq<(Seq<char>, Seq<char>)>) -> Result<ReverseProxyOptions, LabelFault> {
    let policy = match label_of(l, "cblt.lb_policy"@) {
        None => Ok(None),
        Some(p) => if p == "round_robin"@ {
            Ok(Some(LoadBalancePolicy::RoundRobin))
        } else if p == "ip_hash"@ {
            Ok(Some(LoadBalancePolicy::IPHash))
        } else {
            Err(LabelFault::Policy)
        },
    };
    match policy {
        Err(f) => Err(f),
        Ok(lb_policy) => match duration_label(label_of(l, "cblt.lb_interval"@), 10) {
            Err(f) => Err(f),
            Ok(lb_interval) => match duration_label(label_of(l, "cblt.lb_timeout"@), 1) {
                Err(f) => Err(f),
                Ok(lb_timeout) => match label_of(l, "cblt.lb_retries"@) {
                    None => Ok(ReverseProxyOptions { lb_retries: 2, lb_interval, lb_timeout, lb_policy }),
                    Some(r) => match unsigned_of(r, u64::MAX as int) {
                        Some(n) => Ok(
                            ReverseProxyOptions { lb_retries: n as u64, lb_interval, lb_timeout, lb_policy },
                        ),
                        None => Err(LabelFault::Format),
                    },
                },
            },
        },
    }
}

/// What one labelled service contributes: the hosts it serves, the reverse
/// proxy they get, and the TLS secrets by host.
pub struct ServicePlan {
    pub hosts: Seq<Seq<char>>,
    pub directive: DirectiveView,
    pub secrets: Seq<Seq<Seq<char>>>,
}

/// Each destination followed by `:` and the port.
pub open spec fn with_port(dests: Seq<Seq<char>>, port: u16) -> Seq<Seq<char>> {
    dests.map_values(|d: Seq<char>| d + ":"@ + decimal_chars(port as nat))
}

/// What a labelled service contributes, or why its labels are refused.
pub open spec fn service_plan(
    name: Option<Seq<char>>,
    l: Seq<(Seq<char>, Seq<char>)>,
    cs: Seq<Option<Seq<Seq<char>>>>,
) -> Result<ServicePlan, LabelFault> {
    match name {
        None => Err(LabelFault::ServiceName),
        Some(n) => match destinations_of(cs, "/"@ + n + "."@) {
            None => Err(LabelFault::ContainerName),
            Some(dests) => match (
                label_of(l, "cblt.hosts"@),
                label_of(l, "cblt.path"@),
                label_of(l, "cblt.port"@),
            ) {
                (Some(h), Some(p), Some(pt)) => match unsigned_of(pt, u16::MAX as int) {
                    None => Err(LabelFault::Format),
                    Some(port) => {
                        let secrets = match label_of(l, "cblt.secrets"@) {
                            None => Some(seq![]),
                            Some(sv) => secrets_of(split_trimmed(sv, ',')),
                        };
                        match secrets {
                            None => Err(LabelFault::Format),
                            Some(ws) => match label_options(l) {
                                Err(f) => Err(f),
                                Ok(o) => Ok(
                                    ServicePlan {
                                        hosts: split_trimmed(h, ','),
                                        directive: DirectiveView::ReverseProxy {
                                            pattern: p,
                                            destinations: with_port(dests, port as u16),
                                            options: o,
                                        },
                                        secrets: ws,
                                    },
                                ),
                            },
                        }
                    },
                },
                _ => Err(LabelFault::Missing),
            },
        },
    }
}

/// The directives a host gets from a service: the reverse proxy, then its
/// TLS secret if it has one.
pub open spec fn host_additions(plan: ServicePlan, host: Seq<char>) -> Seq<DirectiveView> {
    match secret_for(plan.secrets, host) {
        Some((k, c)) => seq![plan.directive, DirectiveView::TlS { cert: c, key: k }],
        None => seq![plan.directive],
    }
}

/// The first entry of a host table keyed by `key`.
pub open spec fn host_index(hosts: Seq<(Seq<char>, Seq<DirectiveView>)>, key: Seq<char>) -> Option<int>
    decreases hosts.len(),
{
    if hosts.len() == 0 {
        None
    } else {
        match host_index(hosts.drop_last(), key) {
            Some(i) => Some(i),
            None => if hosts.last().0 == key {
                Some(hosts.len() - 1)
            } else {
                None
            },
        }
    }
}

/// The host table with `ds` appended to the entry of `key`, which is
/// created where missing.
pub open spec fn append_to_host(
    hosts: Seq<(Seq<char>, Seq<DirectiveView>)>,
    key: Seq<char>,
    ds: Seq<DirectiveView>,
) -> Seq<(Seq<char>, Seq<DirectiveView>)> {
    match host_index(hosts, key) {
        Some(i) => hosts.update(i, (key, hosts[i].1 + ds)),
        None => hosts.push((key, ds)),
    }
}

/// The host table after a service's hosts, the first `k` of them, got
/// their directives.
pub open spec fn apply_plan(
    hosts: Seq<(Seq<char>, Seq<DirectiveView>)>,
    plan: ServicePlan,
    k: int,
) -> Seq<(Seq<char>, Seq<DirectiveView>)>
    decreases k,
{
    if k <= 0 {
        hosts
    } else {
        let h = plan.hosts[k - 1];
        append_to_host(apply_plan(hosts, plan, k - 1), h, host_additions(plan, h))
    }
}

/// `s` without its `/` characters.
fn remove_slashes(s: &str) -> (r: String)
    ensures
        r@ == without_slashes(s@),
{
    let c = chars_of(s);
    let mut out = String::new();
    let mut i: usize = 0;
    assert(c@.take(0) =~= seq![]);
    while i < c.len()
        invariant
            i <= c.len(),
            c@ == s@,
            out@ == without_slashes(c@.take(i as int)),
        decreases c.len() - i,
    {
        assert(c@.take(i + 1).drop_last() =~= c@.take(i as int));
        if c[i] != '/' {
            push_char(&mut out, c[i]);
        }
        i = i + 1;
    }
    assert(c@.take(i as int) =~= c@);
    out
}

/// The destination of one container: its first name that begins with
/// `prefix`, without slashes.
pub fn container_destination(names: &Vec<String>, prefix: &str) -> (r: Option<String>)
    ensures
        match container_dest(names.deep_view(), prefix@) {
            Some(d) => r is Some && r->0@ == d,
            None => r is None,
        },
{
    let ghost nv = names.deep_view();
    let mut i: usize = 0;
    assert(nv.skip(0) =~= nv);
    while i < names.len()
        invariant
            i <= names.len(),
            nv == names.deep_view(),
            container_dest(nv, prefix@) == container_dest(nv.skip(i as int), prefix@),
        decreases names.len() - i,
    {
        assert(nv.skip(i as int)[0] == names@[i as int]@);
        assert(nv.skip(i as int).drop_first() =~= nv.skip(i + 1));
        if str_starts_with(names[i].as_str(), prefix) {
            return Some(remove_slashes(names[i].as_str()));
        }
        i = i + 1;
    }
    None
}

/// The destinations of the running containers of a service; `None` where a
/// container has no names.
pub fn container_destinations(containers: &Vec<Option<Vec<String>>>, prefix: &str) -> (r: Option<Vec<String>>)
    ensures
        match destinations_of(containers_view(containers@), prefix@) {
            Some(d) => r is Some && r->0.deep_view() == d,
            None => r is None,
        },
{
    let ghost cv = containers_view(containers@);
    let mut out: Vec<String> = Vec::new();
    let mut i: usize = 0;
    assert(cv.take(0) =~= seq![]);
    while i < containers.len()
        invariant
            i <= containers.len(),
            cv == containers_view(containers@),
            destinations_of(cv.take(i as int), prefix@) == Some(out.deep_view()),
        decreases containers.len() - i,
    {
        assert(cv.take(i + 1).drop_last() =~= cv.take(i as int));
        assert(cv.take(i + 1).last() == cv[i as int]);
        match &containers[i] {
            None => {
                proof {
                    lemma_destinations_none_stays(cv, prefix@, i as int + 1);
                }
                return None;
            },
            Some(names) => {
                if let Some(d) = container_destination(names, prefix) {
                    let ghost before = out.deep_view();
                    out.push(d);
                    assert(out.deep_view() =~= before.push(d@));
                }
            },
        }
        i = i + 1;
    }
    assert(cv.take(i as int) =~= cv);
    Some(out)
}

/// Once a prefix of the containers has one without names, so has the whole.
proof fn lemma_destinations_none_stays(cs: Seq<Option<Seq<Seq<char>>>>, prefix: Seq<char>, j: int)
    requires
        0 <= j <= cs.len(),
        destinations_of(cs.take(j), prefix) is None,
    ensures
        destinations_of(cs, prefix) is None,
    decreases cs.len(),
{
    if j < cs.len() {
        assert(cs.drop_last().take(j) =~= cs.take(j));
        lemma_destinations_none_stays(cs.drop_last(), prefix, j);
    } else {
        assert(cs.take(j) =~= cs);
    }
}

/// Reads the `cblt.secrets` label: the words of each comma-separated entry,
/// `None` where one is not `<host> <key> <cert>`.
pub fn parse_secrets(v: &str) -> (r: Option<Vec<Vec<String>>>)
    ensures
        match secrets_of(split_trimmed(v@, ',')) {
            Some(ws) => r is Some && r->0.deep_view() == ws,
            None => r is None,
        },
{
    let entries = split_list(v, ',');
    let ghost ev = entries.deep_view();
    let mut out: Vec<Vec<String>> = Vec::new();
    let mut i: usize = 0;
    assert(ev.take(0) =~= seq![]);
    while i < entries.len()
        invariant
            i <= entries.len(),
            ev == entries.deep_view(),
            ev == split_trimmed(v@, ','),
            secrets_of(ev.take(i as int)) == Some(out.deep_view()),
        decreases entries.len() - i,
    {
        assert(ev.take(i + 1).drop_last() =~= ev.take(i as int));
        assert(ev.take(i + 1).last() == entries@[i as int]@);
        let w = split_words(entries[i].as_str());
        if w.len() != 3 {
            proof {
                lemma_secrets_none_stays(ev, i as int + 1);
            }
            return None;
        }
        let ghost before = out.deep_view();
        let ghost wv = w.deep_view();
        out.push(w);
        assert(out.deep_view() =~= before.push(wv));
        i = i + 1;
    }
    assert(ev.take(i as int) =~= ev);
    Some(out)
}

/// Once a prefix of the secret entries is malformed, so is the whole.
proof fn lemma_secrets_none_stays(es: Seq<Seq<char>>, j: int)
    requires
        0 <= j <= es.len(),
        secrets_of(es.take(j)) is None,
    ensures
        secrets_of(es) is None,
    decreases es.len(),
{
    if j < es.len() {
        assert(es.drop_last().take(j) =~= es.take(j));
        lemma_secrets_none_stays(es.drop_last(), j);
    } else {
        assert(es.take(j) =~= es);
    }
}

/// The key and certificate of the last secret entry for `host`.
pub fn find_secret(ws: &Vec<Vec<String>>, host: &str) -> (r: Option<(String, String)>)
    requires
        forall|i: int| 0 <= i < ws.len() ==> (#[trigger] ws@[i]).len() == 3,
    ensures
        match secret_for(ws.deep_view(), host@) {
            Some((k, c)) => match r {
                Some((rk, rc)) => rk@ == k && rc@ == c,
                None => false,
            },
            None => r is None,
        },
{
    let ghost wv = ws.deep_view();
    let mut i = ws.len();
    assert(wv.take(i as int) =~= wv);
    while i > 0
        invariant
            i <= ws.len(),
            wv == ws.deep_view(),
            forall|k: int| 0 <= k < ws.len() ==> (#[trigger] ws@[k]).len() == 3,
            secret_for(wv, host@) == secret_for(wv.take(i as int), host@),
        decreases i,
    {
        assert(wv.take(i as int).drop_last() =~= wv.take(i - 1));
        assert(wv.take(i as int).last() == ws@[i - 1].deep_view());
        let entry = &ws[i - 1];
        assert(entry.len() == 3);
        if str_eq(entry[0].as_str(), host) {
            return Some((entry[1].clone(), entry[2].clone()));
        }
        i = i - 1;
    }
    None
}

/// A refusal of a label with a malformed value.
fn bad_label(name: &str) -> (r: CbltError)
    ensures
        label_fault(r) == Some(LabelFault::Format),
{
    CbltError::InvalidLabelFormat { details: name.to_string() }
}

/// Reads a duration label, `default` where it is absent.
fn duration_value(labels: &Vec<(String, String)>, name: &str, default: u64) -> (r: Result<u64, CbltError>)
    ensures
        match duration_label(label_of(labels_view(labels@), name@), default) {
            Ok(d) => r == Ok::<u64, CbltError>(d),
            Err(f) => r is Err && label_fault(r->Err_0) == Some(f),
        },
{
    match get_label(labels, name) {
        None => Ok(default),
        Some(v) => match read_duration(v.as_str()) {
            Some(d) => Ok(d),
            None => Err(bad_label(name)),
        },
    }
}

/// Reads the load-balancing labels of a service.
pub fn options_from_labels(labels: &Vec<(String, String)>) -> (r: Result<ReverseProxyOptions, CbltError>)
    ensures
        match label_options(labels_view(labels@)) {
            Ok(o) => r == Ok::<ReverseProxyOptions, CbltError>(o),
            Err(f) => r is Err && label_fault(r->Err_0) == Some(f),
        },
{
    let lb_policy = match get_label(labels, "cblt.lb_policy") {
        None => None,
        Some(p) => if str_eq(p.as_str(), "round_robin") {
            Some(LoadBalancePolicy::RoundRobin)
        } else if str_eq(p.as_str(), "ip_hash") {
            Some(LoadBalancePolicy::IPHash)
        } else {
            return Err(CbltError::KdlParseError { details: p.clone() });
        },
    };
    let lb_interval = duration_value(labels, "cblt.lb_interval", 10)?;
    let lb_timeout = duration_value(labels, "cblt.lb_timeout", 1)?;
    let lb_retries = match get_label(labels, "cblt.lb_retries") {
        None => 2,
        Some(r) => {
            let c = chars_of(r.as_str());
            assert(c@.subrange(0, c@.len() as int) =~= r@);
            match parse_unsigned(&c, 0, c.len(), u64::MAX) {
                Some(n) => n,
                None => {
                    return Err(bad_label("cblt.lb_retries"));
                },
            }
        },
    };
    Ok(ReverseProxyOptions { lb_retries, lb_interval, lb_timeout, lb_policy })
}

/// Every well-formed secret entry has three words.
proof fn lemma_secret_words(es: Seq<Seq<char>>)
    ensures
        secrets_of(es) matches Some(ws) ==> forall|i: int|
            0 <= i < ws.len() ==> (#[trigger] ws[i]).len() == 3,
    decreases es.len(),
{
    if es.len() > 0 {
        lemma_secret_words(es.drop_last());
    }
}

/// Appends `ds` to the directives of the host keyed by `key`, adding the
/// host where it is missing.
fn append_directives(hosts: &mut Vec<(String, Vec<Directive>)>, key: String, ds: Vec<Directive>)
    ensures
        hosts_view(final(hosts)@) == append_to_host(
            hosts_view(old(hosts)@),
            key@,
            directives_view(ds@),
        ),
{
    let ghost hv = hosts_view(hosts@);
    let ghost dv = directives_view(ds@);
    let mut j: usize = 0;
    assert(hv.take(0) =~= seq![]);
    while j < hosts.len() && hosts[j].0 != key
        invariant
            j <= hosts.len(),
            hv == hosts_view(hosts@),
            hv == hosts_view(old(hosts)@),
            host_index(hv.take(j as int), key@) is None,
        decreases hosts.len() - j,
    {
        assert(hv.take(j + 1).drop_last() =~= hv.take(j as int));
        j = j + 1;
    }
    if j == hosts.len() {
        assert(hv.take(j as int) =~= hv);
        hosts.push((key, ds));
        assert(hosts_view(hosts@) =~= hv.push((key@, dv)));
    } else {
        assert(hv.take(j + 1).drop_last() =~= hv.take(j as int));
        proof {
            lemma_host_index_extends(hv, j + 1, key@);
        }
        let (name, mut list) = hosts.remove(j);
        let ghost start = directives_view(list@);
        let mut ds = ds;
        let ghost mut moved: int = 0;
        while ds.len() > 0
            invariant
                0 <= moved <= dv.len(),
                directives_view(ds@) == dv.skip(moved),
                directives_view(list@) == start + dv.take(moved),
            decreases ds.len(),
        {
            let ghost before = directives_view(list@);
            let ghost old_ds = ds@;
            assert(directives_view(old_ds).len() == old_ds.len());
            assert(moved < dv.len());
            let d = ds.remove(0);
            assert(d == old_ds[0]);
            assert(directives_view(old_ds)[0] == old_ds[0]@);
            assert(dv.skip(moved)[0] == dv[moved]);
            assert(directives_view(ds@) =~= directives_view(old_ds).skip(1));
            assert(dv.skip(moved).skip(1) =~= dv.skip(moved + 1));
            list.push(d);
            assert(dv.take(moved + 1) =~= dv.take(moved).push(dv[moved]));
            assert(directives_view(list@) =~= before.push(d@));
            proof {
                moved = moved + 1;
            }
        }
        assert(dv.take(moved) =~= dv);
        let ghost entry = (name@, directives_view(list@));
        hosts.insert(j, (name, list));
        assert(hosts_view(hosts@) =~= hv.update(j as int, (key@, hv[j as int].1 + dv)));
    }
}

/// A host found in a prefix of the table is the first of the whole.
proof fn lemma_host_index_extends(hosts: Seq<(Seq<char>, Seq<DirectiveView>)>, j: int, key: Seq<char>)
    requires
        0 <= j <= hosts.len(),
        host_index(hosts.take(j), key) is Some,
    ensures
        host_index(hosts, key) == host_index(hosts.take(j), key),
    decreases hosts.len(),
{
    if j < hosts.len() {
        assert(hosts.drop_last().take(j) =~= hosts.take(j));
        lemma_host_index_extends(hosts.drop_last(), j, key);
    } else {
        assert(hosts.take(j) =~= hosts);
    }
}

/// A refusal of a service for a missing label.
fn missing_label(name: &str) -> (r: CbltError)
    ensures
        label_fault(r) == Some(LabelFault::Missing),
{
    CbltError::LabelNotFound { details: name.to_string() }
}

/// Adds the hosts of one labelled service to `hosts`: each host named by
/// `cblt.hosts` gets a reverse proxy for the `cblt.path` pattern to the
/// service's containers on `cblt.port`, with the options of the `cblt.lb_*`
/// labels, and its TLS secret from `cblt.secrets` if there is one. A
/// refused service leaves `hosts` as it was.
pub fn add_service(
    hosts: &mut Vec<(String, Vec<Directive>)>,
    service_name: Option<String>,
    labels: &Vec<(String, String)>,
    containers: &Vec<Option<Vec<String>>>,
) -> (r: Result<(), CbltError>)
    ensures
        match service_plan(opt_view(service_name), labels_view(labels@), containers_view(containers@)) {
            Err(f) => r is Err && label_fault(r->Err_0) == Some(f) && final(hosts)@ == old(hosts)@,
            Ok(plan) => r is Ok && hosts_view(final(hosts)@) == apply_plan(
                hosts_view(old(hosts)@),
                plan,
                plan.hosts.len() as int,
            ),
        },
{
    let name = match service_name {
        None => {
            return Err(CbltError::ServiceNameNotFound);
        },
        Some(n) => n,
    };
    let mut prefix = "/".to_string();
    prefix.append(name.as_str());
    prefix.append(".");
    assert(prefix@ =~= "/"@ + name@ + "."@);
    let dests = match container_destinations(containers, prefix.as_str()) {
        None => {
            return Err(CbltError::ContainerNameNotFound);
        },
        Some(d) => d,
    };
    let hosts_label = match get_label(labels, "cblt.hosts") {
        None => {
            return Err(missing_label("cblt.hosts"));
        },
        Some(v) => v,
    };
    let path = match get_label(labels, "cblt.path") {
        None => {
            return Err(missing_label("cblt.path"));
        },
        Some(v) => v,
    };
    let port_label = match get_label(labels, "cblt.port") {
        None => {
            return Err(missing_label("cblt.port"));
        },
        Some(v) => v,
    };
    let pc = chars_of(port_label.as_str());
    assert(pc@.subrange(0, pc@.len() as int) =~= port_label@);
    let port: u16 = match parse_unsigned(&pc, 0, pc.len(), u16::MAX as u64) {
        Some(p) => p as u16,
        None => {
            return Err(bad_label("cblt.port"));
        },
    };
    let secrets: Vec<Vec<String>> = match get_label(labels, "cblt.secrets") {
        None => {
            let empty: Vec<Vec<String>> = Vec::new();
            assert(empty.deep_view() =~= seq![]);
            empty
        },
        Some(v) => match parse_secrets(v.as_str()) {
            Some(ws) => ws,
            None => {
                return Err(bad_label("cblt.secrets"));
            },
        },
    };
    proof {
        if let Some(v) = label_of(labels_view(labels@), "cblt.secrets"@) {
            lemma_secret_words(split_trimmed(v, ','));
        }
    }
    assert forall|i: int| 0 <= i < secrets.len() implies (#[trigger] secrets@[i]).len() == 3 by {
        assert(secrets.deep_view()[i].len() == secrets@[i].len());
    }
    assert(unsigned_of(port_label@, u16::MAX as int) == Some(port as int));
    assert(match label_of(labels_view(labels@), "cblt.secrets"@) {
        None => Some(seq![]),
        Some(sv) => secrets_of(split_trimmed(sv, ',')),
    } == Some(secrets.deep_view()));
    let options = options_from_labels(labels)?;
    let mut destinations: Vec<String> = Vec::new();
    let mut i: usize = 0;
    while i < dests.len()
        invariant
            i <= dests.len(),
            destinations.deep_view() =~= with_port(dests.deep_view(), port).take(i as int),
        decreases dests.len() - i,
    {
        let ghost before = destinations.deep_view();
        let mut d = dests[i].clone();
        d.append(":");
        append_decimal(&mut d, port as u64);
        assert(dests.deep_view()[i as int] == dests@[i as int]@);
        assert(d@ =~= with_port(dests.deep_view(), port)[i as int]);
        let ghost dview = d@;
        destinations.push(d);
        assert(destinations.deep_view() =~= before.push(dview));
        i = i + 1;
    }
    assert(with_port(dests.deep_view(), port).take(i as int) =~= with_port(dests.deep_view(), port));
    let host_list = split_list(hosts_label.as_str(), ',');
    let ghost plan = ServicePlan {
        hosts: split_trimmed(hosts_label@, ','),
        directive: DirectiveView::ReverseProxy {
            pattern: path@,
            destinations: with_port(dests.deep_view(), port),
            options,
        },
        secrets: secrets.deep_view(),
    };
    assert(service_plan(opt_view(Some(name)), labels_view(labels@), containers_view(containers@))
        == Ok::<ServicePlan, LabelFault>(plan));
    let ghost start = hosts_view(hosts@);
    let mut k: usize = 0;
    while k < host_list.len()
        invariant
            k <= host_list.len(),
            host_list.deep_view() == plan.hosts,
            hosts_view(hosts@) == apply_plan(start, plan, k as int),
            destinations.deep_view() == with_port(dests.deep_view(), port),
            plan.secrets == secrets.deep_view(),
            plan.directive == (DirectiveView::ReverseProxy {
                pattern: path@,
                destinations: with_port(dests.deep_view(), port),
                options,
            }),
            forall|i: int| 0 <= i < secrets.len() ==> (#[trigger] secrets@[i]).len() == 3,
        decreases host_list.len() - k,
    {
        let host = &host_list[k];
        assert(plan.hosts[k as int] == host@);
        let mut ds: Vec<Directive> = Vec::new();
        ds.push(
            Directive::ReverseProxy {
                pattern: path.clone(),
                destinations: clone_strings(&destinations),
                options,
            },
        );
        match find_secret(&secrets, host.as_str()) {
            Some((key, cert)) => {
                ds.push(Directive::TlS { cert, key });
            },
            None => {},
        }
        assert(directives_view(ds@) =~= host_additions(plan, host@));
        append_directives(hosts, host.clone(), ds);
        k = k + 1;
    }
    Ok(())
}

} // verus!
