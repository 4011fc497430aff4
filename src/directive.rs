//! The directive pipeline: picking the virtual host of a request and walking
//! its directives to the action that answers it.
use vstd::prelude::*;

use crate::config::{
    directives_view, opt_view, Directive, DirectiveView, LoadBalancePolicy, ReverseProxyOptions,
};
use crate::pattern::{matches_pattern, pattern_matches};
use crate::request::{cookie_present, has_cookie, header_text_of, Request};
use crate::reverse_proxy::{AliveState, ReverseProxyState};
use crate::text::{chars_of, clone_strings, matches_at, occurs_at, push_char, str_eq};

verus! {

/// The directives of one virtual host and the backend pools of its
/// reverse proxies, keyed by pattern.
#[derive(Debug)]
pub struct HostDetails {
    pub directives: Vec<Directive>,
    pub reverse_proxy_states: Vec<(String, ReverseProxyState)>,
}

/// The keys of a host table.
pub open spec fn host_keys<T>(hosts: Seq<(String, T)>) -> Seq<Seq<char>> {
    hosts.map_values(|p: (String, T)| p.0@)
}

/// Whether a host key is a wildcard: it begins with `*`.
pub open spec fn is_wildcard(key: Seq<char>) -> bool {
    key.len() > 0 && key[0] == '*'
}

/// The first wildcard key, if any.
pub open spec fn first_wildcard(keys: Seq<Seq<char>>) -> Option<int>
    decreases keys.len(),
{
    if keys.len() == 0 {
        None
    } else {
        match first_wildcard(keys.drop_last()) {
            Some(i) => Some(i),
            None => if is_wildcard(keys.last()) {
                Some(keys.len() - 1)
            } else {
                None
            },
        }
    }
}

/// The first key equal to `host`, if any.
pub open spec fn first_exact(keys: Seq<Seq<char>>, host: Seq<char>) -> Option<int>
    decreases keys.len(),
{
    if keys.len() == 0 {
        None
    } else {
        match first_exact(keys.drop_last(), host) {
            Some(i) => Some(i),
            None => if keys.last() == host {
                Some(keys.len() - 1)
            } else {
                None
            },
        }
    }
}

/// The host entry that serves a request whose `Host` header reads `host`:
/// a wildcard entry whenever there is one, otherwise the entry keyed
/// exactly by `host`.
pub open spec fn host_choice(keys: Seq<Seq<char>>, host: Seq<char>) -> Option<int> {
    match first_wildcard(keys) {
        Some(i) => Some(i),
        None => first_exact(keys, host),
    }
}

/// Picks the host entry for a request whose `Host` header reads `host`;
/// `None` means the request is refused with `403`.
pub fn select_host<T>(hosts: &Vec<(String, T)>, host: &str) -> (r: Option<usize>)
    ensures
        match host_choice(host_keys(hosts@), host@) {
            Some(i) => r == Some(i as usize),
            None => r is None,
        },
{
    let ghost keys = host_keys(hosts@);
    let mut i: usize = 0;
    assert(keys.take(0) =~= seq![]);
    while i < hosts.len()
        invariant
            i <= hosts.len(),
            keys == host_keys(hosts@),
            first_wildcard(keys.take(i as int)) is None,
        decreases hosts.len() - i,
    {
        assert(keys.take(i + 1).drop_last() =~= keys.take(i as int));
        assert(keys.take(i + 1).last() == hosts@[i as int].0@);
        let k = chars_of(hosts[i].0.as_str());
        if k.len() > 0 && k[0] == '*' {
            proof {
                lemma_wildcard_extends(keys, i as int + 1);
            }
            return Some(i);
        }
        i = i + 1;
    }
    assert(keys.take(i as int) =~= keys);
    let mut j: usize = 0;
    assert(keys.take(0) =~= seq![]);
    while j < hosts.len()
        invariant
            j <= hosts.len(),
            keys == host_keys(hosts@),
            first_wildcard(keys) is None,
            first_exact(keys.take(j as int), host@) is None,
        decreases hosts.len() - j,
    {
        assert(keys.take(j + 1).drop_last() =~= keys.take(j as int));
        assert(keys.take(j + 1).last() == hosts@[j as int].0@);
        if str_eq(hosts[j].0.as_str(), host) {
            proof {
                lemma_exact_extends(keys, j as int + 1, host@);
            }
            return Some(j);
        }
        j = j + 1;
    }
    assert(keys.take(j as int) =~= keys);
    None
}

/// A wildcard found in a prefix of the keys is the first of all of them.
proof fn lemma_wildcard_extends(keys: Seq<Seq<char>>, j: int)
    requires
        0 <= j <= keys.len(),
        first_wildcard(keys.take(j)) is Some,
    ensures
        first_wildcard(keys) == first_wildcard(keys.take(j)),
    decreases keys.len(),
{
    if j < keys.len() {
        assert(keys.drop_last().take(j) =~= keys.take(j));
        lemma_wildcard_extends(keys.drop_last(), j);
    } else {
        assert(keys.take(j) =~= keys);
    }
}

/// A key equal to `host` found in a prefix of the keys is the first of all
/// of them.
proof fn lemma_exact_extends(keys: Seq<Seq<char>>, j: int, host: Seq<char>)
    requires
        0 <= j <= keys.len(),
        first_exact(keys.take(j), host) is Some,
    ensures
        first_exact(keys, host) == first_exact(keys.take(j), host),
    decreases keys.len(),
{
    if j < keys.len() {
        assert(keys.drop_last().take(j) =~= keys.take(j));
        lemma_exact_extends(keys.drop_last(), j, host);
    } else {
        assert(keys.take(j) =~= keys);
    }
}

/// Where the walk over a host's directives stands between two actions: the
/// next directive, and the root and fallback file set so far.
#[derive(Debug)]
pub struct Walk {
    pub next: usize,
    pub root_path: Option<String>,
    pub fallback_file: Option<String>,
}

impl Walk {
    /// A walk at the first directive, with no root.
    pub fn new() -> (r: Walk)
        ensures
            r.next == 0,
            r.root_path is None,
            r.fallback_file is None,
    {
        Walk { next: 0, root_path: None, fallback_file: None }
    }
}

/// What the pipeline does next for a request.
#[derive(Debug)]
pub enum Action {
    /// Serve a file from `root_path`, falling back to `fallback_file`.
    ServeFile { root_path: Option<String>, fallback_file: Option<String> },
    /// Relay the request through the backend pool of `pattern`.
    Proxy { pattern: String },
    /// Answer `302 Found` with this location.
    Redirect { location: String },
    /// No directive answered: `404 Not Found`.
    NotFound,
}

/// An action as plain values.
pub enum ActionView {
    ServeFile { root_path: Option<Seq<char>>, fallback_file: Option<Seq<char>> },
    Proxy { pattern: Seq<char> },
    Redirect { location: Seq<char> },
    NotFound,
}

impl View for Action {
    type V = ActionView;

    open spec fn view(&self) -> ActionView {
        match self {
            Action::ServeFile { root_path, fallback_file } => ActionView::ServeFile {
                root_path: opt_view(*root_path),
                fallback_file: opt_view(*fallback_file),
            },
            Action::Proxy { pattern } => ActionView::Proxy { pattern: pattern@ },
            Action::Redirect { location } => ActionView::Redirect { location: location@ },
            Action::NotFound => ActionView::NotFound,
        }
    }
}

/// `s` with every occurrence of `pat`, from left to right and without
/// overlap, replaced by `with`.
pub open spec fn replace_all(s: Seq<char>, pat: Seq<char>, with: Seq<char>) -> Seq<char>
    decreases s.len(),
{
    if s.len() == 0 {
        seq![]
    } else if pat.len() > 0 && occurs_at(s, pat, 0) {
        with + replace_all(s.skip(pat.len() as int), pat, with)
    } else {
        seq![s[0]] + replace_all(s.drop_first(), pat, with)
    }
}

/// The location of a redirect: `destination` with `{uri}` replaced by the
/// request path.
pub open spec fn redirect_location(destination: Seq<char>, path: Seq<char>) -> Seq<char> {
    replace_all(destination, "{uri}"@, path)
}

/// Builds a redirect location by substituting the request path for each
/// `{uri}` in `destination`.
pub fn replace_uri(destination: &str, path: &str) -> (r: String)
    ensures
        r@ == redirect_location(destination@, path@),
{
    let d = chars_of(destination);
    let pat = chars_of("{uri}");
    proof {
        reveal_strlit("{uri}");
    }
    let ghost ds = destination@;
    let mut out = String::new();
    let mut i: usize = 0;
    assert(ds.skip(0) =~= ds);
    while i < d.len()
        invariant
            i <= d.len(),
            d@ == ds,
            pat@ == "{uri}"@,
            pat@.len() == 5,
            out@ + replace_all(ds.skip(i as int), pat@, path@) == replace_all(ds, pat@, path@),
        decreases d.len() - i,
    {
        let ghost rest = ds.skip(i as int);
        if d.len() - i >= 5 && matches_at(&d, &pat, i) {
            proof {
                assert(rest.subrange(0, 5) =~= ds.subrange(i as int, i + 5));
                assert(rest.skip(5) =~= ds.skip(i + 5));
            }
            let ghost before = out@;
            out.append(path);
            assert(out@ + replace_all(ds.skip(i + 5), pat@, path@) =~= before + replace_all(rest, pat@, path@));
            i = i + 5;
        } else {
            proof {
                if i + 5 <= d.len() {
                    assert(rest.subrange(0, 5) =~= ds.subrange(i as int, i + 5));
                }
                assert(rest.drop_first() =~= ds.skip(i + 1));
            }
            let ghost before = out@;
            push_char(&mut out, d[i]);
            assert(out@ + replace_all(ds.skip(i + 1), pat@, path@) =~= before + replace_all(rest, pat@, path@));
            i = i + 1;
        }
    }
    assert(ds.skip(i as int) =~= seq![]);
    assert(out@ + replace_all(ds.skip(i as int), pat@, path@) =~= out@);
    out
}

/// Where the walk over the directives `ds` leads from directive `i`, with
/// the root and fallback set so far, for a request with path `path` and
/// cookie header `cookies`: the action, the directive after the one that
/// chose it, and the root and fallback then in force. `Root` entries whose
/// pattern matches set the root and fallback; `FileServer`, a matching
/// `ReverseProxy`, `Redir` and `RedirIfNotCookie` without the cookie each
/// choose an action; reaching the end means `404`.
pub open spec fn walk_from(
    ds: Seq<DirectiveView>,
    i: int,
    root: Option<Seq<char>>,
    fb: Option<Seq<char>>,
    path: Seq<char>,
    cookies: Seq<char>,
) -> (ActionView, int, Option<Seq<char>>, Option<Seq<char>>)
    decreases ds.len() - i,
{
    if i < 0 || i >= ds.len() {
        (ActionView::NotFound, ds.len() as int, root, fb)
    } else {
        match ds[i] {
            DirectiveView::Root { pattern, path: dir, fallback } => if pattern_matches(
                pattern,
                path,
            ) {
                walk_from(ds, i + 1, Some(dir), fallback, path, cookies)
            } else {
                walk_from(ds, i + 1, root, fb, path, cookies)
            },
            DirectiveView::FileServer => (
                ActionView::ServeFile { root_path: root, fallback_file: fb },
                i + 1,
                root,
                fb,
            ),
            DirectiveView::ReverseProxy { pattern, .. } => if pattern_matches(pattern, path) {
                (ActionView::Proxy { pattern }, i + 1, root, fb)
            } else {
                walk_from(ds, i + 1, root, fb, path, cookies)
            },
            DirectiveView::Redir { destination } => (
                ActionView::Redirect { location: redirect_location(destination, path) },
                i + 1,
                root,
                fb,
            ),
            DirectiveView::RedirIfNotCookie { cookiename, destination } => if !cookie_present(
                cookies,
                cookiename,
            ) {
                (
                    ActionView::Redirect { location: redirect_location(destination, path) },
                    i + 1,
                    root,
                    fb,
                )
            } else {
                walk_from(ds, i + 1, root, fb, path, cookies)
            },
            DirectiveView::TlS { .. } => walk_from(ds, i + 1, root, fb, path, cookies),
        }
    }
}

/// A copy of an optional string.
fn clone_opt(s: &Option<String>) -> (r: Option<String>)
    ensures
        opt_view(r) == opt_view(*s),
{
    match s {
        Some(x) => Some(x.clone()),
        None => None,
    }
}

/// Walks the directives from where `walk` stands to the next action for
/// `request`, and leaves `walk` just after the directive that chose it. A
/// caller whose file or proxy action does not match calls again to go on.
pub fn next_action(directives: &Vec<Directive>, walk: &mut Walk, request: &Request) -> (r: Action)
    ensures
        ({
            let (a, n, root, fb) = walk_from(
                directives_view(directives@),
                old(walk).next as int,
                opt_view(old(walk).root_path),
                opt_view(old(walk).fallback_file),
                request@.path,
                header_text_of(request@, "Cookie"@),
            );
            &&& r@ == a
            &&& final(walk).next as int == n
            &&& opt_view(final(walk).root_path) == root
            &&& opt_view(final(walk).fallback_file) == fb
        }),
{
    let ghost ds = directives_view(directives@);
    let ghost cookies = header_text_of(request@, "Cookie"@);
    let ghost goal = walk_from(
        ds,
        walk.next as int,
        opt_view(walk.root_path),
        opt_view(walk.fallback_file),
        request@.path,
        cookies,
    );
    if walk.next >= directives.len() {
        walk.next = directives.len();
        return Action::NotFound;
    }
    let mut i = walk.next;
    while i < directives.len()
        invariant
            i <= directives.len(),
            ds == directives_view(directives@),
            cookies == header_text_of(request@, "Cookie"@),
            goal == walk_from(
                ds,
                old(walk).next as int,
                opt_view(old(walk).root_path),
                opt_view(old(walk).fallback_file),
                request@.path,
                cookies,
            ),
            walk_from(
                ds,
                i as int,
                opt_view(walk.root_path),
                opt_view(walk.fallback_file),
                request@.path,
                cookies,
            ) == goal,
        decreases directives.len() - i,
    {
        assert(ds[i as int] == directives@[i as int]@);
        match &directives[i] {
            Directive::Root { pattern, path, fallback } => {
                if matches_pattern(pattern.as_str(), request.path.as_str()) {
                    walk.root_path = Some(path.clone());
                    walk.fallback_file = clone_opt(fallback);
                }
            },
            Directive::FileServer => {
                walk.next = i + 1;
                return Action::ServeFile {
                    root_path: clone_opt(&walk.root_path),
                    fallback_file: clone_opt(&walk.fallback_file),
                };
            },
            Directive::ReverseProxy { pattern, .. } => {
                if matches_pattern(pattern.as_str(), request.path.as_str()) {
                    walk.next = i + 1;
                    return Action::Proxy { pattern: pattern.clone() };
                }
            },
            Directive::Redir { destination } => {
                walk.next = i + 1;
                return Action::Redirect {
                    location: replace_uri(destination.as_str(), request.path.as_str()),
                };
            },
            Directive::RedirIfNotCookie { cookiename, destination } => {
                if !has_cookie(request, cookiename.as_str()) {
                    walk.next = i + 1;
                    return Action::Redirect {
                        location: replace_uri(destination.as_str(), request.path.as_str()),
                    };
                }
            },
            Directive::TlS { .. } => {},
        }
        i = i + 1;
    }
    walk.next = directives.len();
    Action::NotFound
}

/// A request whose `Host` is no configured key gets `403` when no key is a
/// wildcard; a key equal to it is chosen otherwise.
pub proof fn lemma_host_isolation(keys: Seq<Seq<char>>, host: Seq<char>)
    requires
        forall|i: int| 0 <= i < keys.len() ==> !is_wildcard(#[trigger] keys[i]),
    ensures
        (forall|i: int| 0 <= i < keys.len() ==> #[trigger] keys[i] != host) ==> host_choice(
            keys,
            host,
        ) is None,
        host_choice(keys, host) matches Some(i) ==> 0 <= i < keys.len() && keys[i] == host,
{
    lemma_no_wildcard(keys);
    lemma_exact_found(keys, host);
}

/// Without wildcard keys there is no first wildcard.
proof fn lemma_no_wildcard(keys: Seq<Seq<char>>)
    requires
        forall|i: int| 0 <= i < keys.len() ==> !is_wildcard(#[trigger] keys[i]),
    ensures
        first_wildcard(keys) is None,
    decreases keys.len(),
{
    if keys.len() > 0 {
        assert forall|i: int| 0 <= i < keys.drop_last().len() implies !is_wildcard(
            #[trigger] keys.drop_last()[i],
        ) by {
            assert(keys.drop_last()[i] == keys[i]);
        }
        lemma_no_wildcard(keys.drop_last());
    }
}

/// The first exact match is a key equal to the host, and exists when one
/// does.
proof fn lemma_exact_found(keys: Seq<Seq<char>>, host: Seq<char>)
    ensures
        first_exact(keys, host) matches Some(i) ==> 0 <= i < keys.len() && keys[i] == host,
        (forall|i: int| 0 <= i < keys.len() ==> #[trigger] keys[i] != host) ==> first_exact(
            keys,
            host,
        ) is None,
    decreases keys.len(),
{
    if keys.len() > 0 {
        lemma_exact_found(keys.drop_last(), host);
        if forall|i: int| 0 <= i < keys.len() ==> #[trigger] keys[i] != host {
            assert(keys.last() != host);
            assert forall|i: int| 0 <= i < keys.drop_last().len() implies #[trigger] keys.drop_last()[i]
                != host by {
                assert(keys.drop_last()[i] == keys[i]);
            }
        }
        if let Some(i) = first_exact(keys.drop_last(), host) {
            assert(keys.drop_last()[i] == keys[i]);
        }
    }
}

/// The first wildcard is a wildcard key, and exists when one does.
proof fn lemma_wildcard_found(keys: Seq<Seq<char>>, j: int)
    requires
        0 <= j < keys.len(),
        is_wildcard(keys[j]),
    ensures
        first_wildcard(keys) matches Some(i) && 0 <= i < keys.len() && is_wildcard(keys[i]),
    decreases keys.len(),
{
    if j < keys.len() - 1 {
        assert(keys.drop_last()[j] == keys[j]);
        lemma_wildcard_found(keys.drop_last(), j);
        let i = first_wildcard(keys.drop_last())->0;
        assert(keys.drop_last()[i] == keys[i]);
    } else if let Some(i) = first_wildcard(keys.drop_last()) {
        lemma_first_wildcard_is(keys.drop_last());
        assert(keys.drop_last()[i] == keys[i]);
    }
}

/// A first wildcard, where found, is a wildcard key.
proof fn lemma_first_wildcard_is(keys: Seq<Seq<char>>)
    ensures
        first_wildcard(keys) matches Some(i) ==> 0 <= i < keys.len() && is_wildcard(keys[i]),
    decreases keys.len(),
{
    if keys.len() > 0 {
        lemma_first_wildcard_is(keys.drop_last());
        if let Some(i) = first_wildcard(keys.drop_last()) {
            assert(keys.drop_last()[i] == keys[i]);
        }
    }
}

/// Where some key is a wildcard, every request goes to the same wildcard
/// entry, whatever its `Host` header.
pub proof fn lemma_wildcard_precedence(keys: Seq<Seq<char>>, j: int, host: Seq<char>, other: Seq<char>)
    requires
        0 <= j < keys.len(),
        is_wildcard(keys[j]),
    ensures
        host_choice(keys, host) matches Some(i) && 0 <= i < keys.len() && is_wildcard(keys[i]),
        host_choice(keys, host) == host_choice(keys, other),
{
    lemma_wildcard_found(keys, j);
}

/// The pool of the reverse proxy with this pattern: the first entry keyed
/// by it.
pub fn proxy_state_index(states: &Vec<(String, ReverseProxyState)>, pattern: &str) -> (r: Option<usize>)
    ensures
        match r {
            Some(i) => i < states.len() && states@[i as int].0@ == pattern@ && forall|k: int|
                0 <= k < i ==> states@[k].0@ != pattern@,
            None => forall|k: int| 0 <= k < states.len() ==> states@[k].0@ != pattern@,
        },
{
    let mut i: usize = 0;
    while i < states.len()
        invariant
            i <= states.len(),
            forall|k: int| 0 <= k < i ==> states@[k].0@ != pattern@,
        decreases states.len() - i,
    {
        if str_eq(states[i].0.as_str(), pattern) {
            return Some(i);
        }
        i = i + 1;
    }
    None
}

/// The reverse proxies of a directive list, in order: pattern,
/// destinations and options of each.
pub open spec fn proxy_entries(ds: Seq<DirectiveView>) -> Seq<
    (Seq<char>, Seq<Seq<char>>, ReverseProxyOptions),
>
    decreases ds.len(),
{
    if ds.len() == 0 {
        seq![]
    } else {
        let rest = proxy_entries(ds.drop_last());
        match ds.last() {
            DirectiveView::ReverseProxy { pattern, destinations, options } => rest.push(
                (pattern, destinations, options),
            ),
            _ => rest,
        }
    }
}

/// Whether `state` is the fresh pool of a reverse proxy with these
/// destinations and options at `now`.
pub open spec fn fresh_pool(
    state: ReverseProxyState,
    destinations: Seq<Seq<char>>,
    options: ReverseProxyOptions,
    now: u64,
) -> bool {
    &&& state.wf()
    &&& state.backends.len() == destinations.len()
    &&& state.options == options
    &&& state.lb_policy == match options.lb_policy {
        Some(p) => p,
        None => LoadBalancePolicy::RoundRobin,
    }
    &&& state.current_backend == 0
    &&& forall|i: int|
        0 <= i < destinations.len() ==> {
            &&& (#[trigger] state.backends@[i]).url@ == destinations[i]
            &&& state.backends@[i].alive_state == AliveState::Alive(now)
            &&& state.backends@[i].pending_retries is None
        }
}

/// The backend pools of a host's reverse proxies, one per `ReverseProxy`
/// directive in order, keyed by its pattern, all backends alive as of `now`
/// and the policy round-robin where none is set.
pub fn init_proxy_states(directives: &Vec<Directive>, now: u64) -> (r: Vec<(String, ReverseProxyState)>)
    ensures
        r.len() == proxy_entries(directives_view(directives@)).len(),
        forall|k: int|
            0 <= k < r.len() ==> {
                let (pattern, destinations, options) = #[trigger] proxy_entries(
                    directives_view(directives@),
                )[k];
                &&& r@[k].0@ == pattern
                &&& fresh_pool(r@[k].1, destinations, options, now)
            },
{
    let ghost dv = directives_view(directives@);
    let mut states: Vec<(String, ReverseProxyState)> = Vec::new();
    let mut i: usize = 0;
    assert(dv.take(0) =~= seq![]);
    while i < directives.len()
        invariant
            i <= directives.len(),
            dv == directives_view(directives@),
            states.len() == proxy_entries(dv.take(i as int)).len(),
            forall|k: int|
                0 <= k < states.len() ==> {
                    let (pattern, destinations, options) = #[trigger] proxy_entries(
                        dv.take(i as int),
                    )[k];
                    &&& states@[k].0@ == pattern
                    &&& fresh_pool(states@[k].1, destinations, options, now)
                },
        decreases directives.len() - i,
    {
        assert(dv.take(i + 1).drop_last() =~= dv.take(i as int));
        assert(dv.take(i + 1).last() == directives@[i as int]@);
        let ghost prev = proxy_entries(dv.take(i as int));
        if let Directive::ReverseProxy { pattern, destinations, options } = &directives[i] {
            let policy = match options.lb_policy {
                Some(p) => p,
                None => LoadBalancePolicy::RoundRobin,
            };
            let urls = clone_strings(destinations);
            let state = ReverseProxyState::new(urls, policy, *options, now);
            states.push((pattern.clone(), state));
            assert(proxy_entries(dv.take(i + 1)) == prev.push(
                (pattern@, destinations.deep_view(), *options),
            ));
            assert forall|k: int| 0 <= k < states.len() implies {
                let (p, d, o) = #[trigger] proxy_entries(dv.take(i + 1))[k];
                &&& states@[k].0@ == p
                &&& fresh_pool(states@[k].1, d, o, now)
            } by {
                if k < states.len() - 1 {
                    assert(proxy_entries(dv.take(i + 1))[k] == prev[k]);
                } else {
                    assert(forall|j: int| 0 <= j < destinations.len() ==> destinations.deep_view()[j] == destinations@[j]@);
                }
            }
        }
        i = i + 1;
    }
    assert(dv.take(i as int) =~= dv);
    states
}

} // verus!
