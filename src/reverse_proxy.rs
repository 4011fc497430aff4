//! Backend pools of the reverse proxy: liveness tracking and backend selection.
use vstd::arithmetic::div_mod::{lemma_mod_add_multiples_vanish, lemma_mod_self_0, lemma_small_mod};
use vstd::prelude::*;

use crate::config::{LoadBalancePolicy, ReverseProxyOptions};
use crate::error::{response_error, CbltError};
use crate::text::{append_decimal, contains, contains_str, decimal_chars, str_eq};
use crate::uri::{parse_uri, uri_of};

verus! {

/// Offset basis of 64-bit FNV-1a.
pub const FNV_OFFSET_BASIS: u64 = 0xcbf29ce484222325;

/// Prime of 64-bit FNV-1a.
pub const FNV_PRIME: u64 = 0x100000001b3;

/// Status sent when no backend can take a request.
pub const BAD_GATEWAY: u16 = 502;

/// Liveness of one backend.
#[derive(Debug, Clone, Copy, PartialEq, Eq, Structural)]
pub enum AliveState {
    /// Reachable; the time of the last state change, in seconds.
    Alive(u64),
    /// Unreachable since `since`; `retries_left` revival attempts remain.
    Dead { since: u64, retries_left: u64 },
}

/// One upstream authority and its liveness.
#[derive(Debug)]
pub struct Backend {
    pub url: String,
    pub alive_state: AliveState,
    /// Set while the backend is provisionally revived: the retries that
    /// remain should its dispatch fail.
    pub pending_retries: Option<u64>,
}

/// The address of a connected client, as far as backend selection reads it.
#[derive(Debug, Clone, Copy)]
pub enum ClientIp {
    V4([u8; 4]),
    V6,
}

/// The pool behind one reverse-proxy pattern.
#[derive(Debug)]
pub struct ReverseProxyState {
    pub backends: Vec<Backend>,
    pub lb_policy: LoadBalancePolicy,
    /// Where the next round-robin scan starts.
    pub current_backend: usize,
    pub options: ReverseProxyOptions,
}

/// The backend chosen for one dispatch.
#[derive(Debug)]
pub struct LiveBackend {
    pub address: String,
    pub backend_index: usize,
}

/// One round of 64-bit FNV-1a.
pub open spec fn fnv_step(h: u64, b: u8) -> u64 {
    (h ^ (b as u64)).wrapping_mul(FNV_PRIME)
}

/// 64-bit FNV-1a of a byte sequence.
pub open spec fn fnv1a(bytes: Seq<u8>) -> u64
    decreases bytes.len(),
{
    if bytes.len() == 0 {
        FNV_OFFSET_BASIS
    } else {
        fnv_step(fnv1a(bytes.drop_last()), bytes.last())
    }
}

/// FNV-1a of the four octets of an IPv4 address, reduced modulo `max`.
pub fn generate_number_from_octet(octets: [u8; 4], max: u32) -> (r: u32)
    requires
        max > 0,
    ensures
        r as int == fnv1a(octets@) as int % max as int,
{
    let mut hash: u64 = FNV_OFFSET_BASIS;
    let mut i: usize = 0;
    while i < 4
        invariant
            i <= 4,
            octets@.len() == 4,
            hash == fnv1a(octets@.take(i as int)),
        decreases 4 - i,
    {
        assert(octets@.take(i + 1).drop_last() =~= octets@.take(i as int));
        hash = (hash ^ (octets[i] as u64)).wrapping_mul(FNV_PRIME);
        i = i + 1;
    }
    assert(octets@.take(4) =~= octets@);
    (hash % (max as u64)) as u32
}

/// The modulus of the address hash for a pool of `n` backends: `n`, capped
/// to what `u32` holds.
pub open spec fn hash_modulus(n: nat) -> u32 {
    if n > u32::MAX {
        u32::MAX
    } else {
        n as u32
    }
}

/// Whether `interval` seconds have passed from `since` to `now`.
pub open spec fn interval_elapsed(since: u64, now: u64, interval: u64) -> bool {
    now as int >= since as int + interval as int
}

/// Whether a selection scan that reaches a backend in this state picks it.
pub open spec fn is_eligible(s: AliveState, now: u64, interval: u64) -> bool {
    match s {
        AliveState::Alive(_) => true,
        AliveState::Dead { since, retries_left } => interval_elapsed(since, now, interval)
            && retries_left > 0,
    }
}

/// A backend after a selection scan has examined it: a dead backend whose
/// interval has passed is revived with one retry fewer, or, with no retry
/// left, starts a new dead period with its retries restored.
pub open spec fn visited(b: Backend, now: u64, opts: ReverseProxyOptions) -> Backend {
    match b.alive_state {
        AliveState::Alive(_) => b,
        AliveState::Dead { since, retries_left } => if interval_elapsed(
            since,
            now,
            opts.lb_interval,
        ) {
            if retries_left > 0 {
                Backend {
                    alive_state: AliveState::Alive(now),
                    pending_retries: Some((retries_left - 1) as u64),
                    ..b
                }
            } else {
                Backend {
                    alive_state: AliveState::Dead { since: now, retries_left: opts.lb_retries },
                    ..b
                }
            }
        } else {
            b
        },
    }
}

/// The scan that selection performs from position `start`, having examined
/// `k` backends: the pool afterwards, and the index picked, if any.
pub open spec fn scan(
    bs: Seq<Backend>,
    start: int,
    k: int,
    now: u64,
    opts: ReverseProxyOptions,
) -> (Seq<Backend>, Option<int>)
    decreases bs.len() - k,
{
    if k >= bs.len() || k < 0 {
        (bs, None)
    } else {
        let i = (start + k) % (bs.len() as int);
        let nbs = bs.update(i, visited(bs[i], now, opts));
        if is_eligible(bs[i].alive_state, now, opts.lb_interval) {
            (nbs, Some(i))
        } else {
            scan(nbs, start, k + 1, now, opts)
        }
    }
}

/// A backend after a failed dispatch at `now`: dead from `now`, with the
/// retries it keeps.
pub open spec fn failed_backend(b: Backend, now: u64, opts: ReverseProxyOptions) -> Backend {
    Backend {
        alive_state: AliveState::Dead { since: now, retries_left: retries_after_failure(b, opts) },
        pending_retries: None,
        ..b
    }
}

/// The retries a backend keeps when a dispatch to it fails.
pub open spec fn retries_after_failure(b: Backend, opts: ReverseProxyOptions) -> u64 {
    match b.pending_retries {
        Some(r) => r,
        None => opts.lb_retries,
    }
}

/// A backend's retry counts never exceed the configured retries.
pub open spec fn backend_wf(b: Backend, opts: ReverseProxyOptions) -> bool {
    &&& (b.alive_state matches AliveState::Dead { retries_left, .. } ==> retries_left
        <= opts.lb_retries)
    &&& (b.pending_retries matches Some(r) ==> r <= opts.lb_retries)
}

impl ReverseProxyState {
    /// The pool's invariant: the cursor points into the pool and no retry
    /// count exceeds the configured retries.
    pub open spec fn wf(&self) -> bool {
        &&& (self.backends.len() == 0 || self.current_backend < self.backends.len())
        &&& forall|i: int|
            0 <= i < self.backends.len() ==> #[trigger] backend_wf(
                self.backends@[i],
                self.options,
            )
    }

    /// Where a selection for `client` starts; `None` where none can start:
    /// an empty pool, or an IPv6 client under `IPHash`.
    pub open spec fn start_index(&self, client: ClientIp) -> Option<int> {
        if self.backends.len() == 0 {
            None
        } else {
            match self.lb_policy {
                LoadBalancePolicy::RoundRobin => Some(self.current_backend as int),
                LoadBalancePolicy::IPHash => match client {
                    ClientIp::V4(o) => Some(fnv1a(o@) as int % hash_modulus(self.backends.len() as nat) as int),
                    ClientIp::V6 => None,
                },
            }
        }
    }

    /// A new pool over `backends`, all alive as of `now`, with the cursor at
    /// the first.
    pub fn new(
        backends: Vec<String>,
        lb_policy: LoadBalancePolicy,
        options: ReverseProxyOptions,
        now: u64,
    ) -> (r: Self)
        ensures
            r.wf(),
            r.backends.len() == backends.len(),
            r.lb_policy == lb_policy,
            r.options == options,
            r.current_backend == 0,
            forall|i: int|
                0 <= i < backends.len() ==> {
                    &&& (#[trigger] r.backends@[i]).url@ == backends@[i]@
                    &&& r.backends@[i].alive_state == AliveState::Alive(now)
                    &&& r.backends@[i].pending_retries is None
                },
    {
        let mut pool: Vec<Backend> = Vec::new();
        let mut i: usize = 0;
        while i < backends.len()
            invariant
                i <= backends.len(),
                pool.len() == i,
                forall|j: int|
                    0 <= j < i ==> {
                        &&& (#[trigger] pool@[j]).url@ == backends@[j]@
                        &&& pool@[j].alive_state == AliveState::Alive(now)
                        &&& pool@[j].pending_retries is None
                    },
            decreases backends.len() - i,
        {
            pool.push(
                Backend {
                    url: backends[i].clone(),
                    alive_state: AliveState::Alive(now),
                    pending_retries: None,
                },
            );
            i = i + 1;
        }
        ReverseProxyState { backends: pool, lb_policy, current_backend: 0, options }
    }
    /// The pool and cursor after a selection for `client` at `now`, and
    /// the index picked, if any.
    pub open spec fn spec_select(&self, client: ClientIp, now: u64) -> (
        Seq<Backend>,
        usize,
        Option<int>,
    ) {
        match self.start_index(client) {
            None => (self.backends@, self.current_backend, None),
            Some(start) => {
                let (bs, pick) = scan(self.backends@, start, 0, now, self.options);
                let cursor = match (self.lb_policy, pick) {
                    (LoadBalancePolicy::RoundRobin, Some(i)) => ((i + 1) % (
                    self.backends.len() as int)) as usize,
                    _ => self.current_backend,
                };
                (bs, cursor, pick)
            },
        }
    }

    /// Picks the backend for one dispatch at time `now`. The scan starts at
    /// the round-robin cursor, or at the client's address hash under
    /// `IPHash`, and walks the pool once, in order and wrapping around; it
    /// takes the first backend that is alive, or dead with its interval
    /// passed and a retry left (reviving it). Dead backends whose interval
    /// passed with no retry left start a new dead period.
    pub fn get_next_backend(&mut self, client: ClientIp, now: u64) -> (r: Result<
        LiveBackend,
        CbltError,
    >)
        requires
            old(self).wf(),
        ensures
            final(self).wf(),
            final(self).lb_policy == old(self).lb_policy,
            final(self).options == old(self).options,
            ({
                let (bs, cursor, pick) = old(self).spec_select(client, now);
                &&& final(self).backends@ == bs
                &&& final(self).current_backend == cursor
                &&& match r {
                    Ok(live) => pick == Some(live.backend_index as int) && live.address@
                        == bs[live.backend_index as int].url@,
                    Err(e) => pick is None && e.is_response(BAD_GATEWAY),
                }
            }),
    {
        let n = self.backends.len();
        if n == 0 {
            return Err(response_error("No healthy backends", BAD_GATEWAY));
        }
        let start: usize = match self.lb_policy {
            LoadBalancePolicy::RoundRobin => self.current_backend,
            LoadBalancePolicy::IPHash => match client {
                ClientIp::V4(octets) => {
                    let max: u32 = if n > u32::MAX as usize {
                        u32::MAX
                    } else {
                        n as u32
                    };
                    generate_number_from_octet(octets, max) as usize
                },
                ClientIp::V6 => {
                    return Err(response_error("IPv6 not supported", BAD_GATEWAY));
                },
            },
        };
        let ghost pool0 = self.backends@;
        let ghost opts = self.options;
        let interval = self.options.lb_interval;
        let retries = self.options.lb_retries;
        let mut idx: usize = start;
        let mut k: usize = 0;
        proof {
            lemma_small_mod(start as nat, n as nat);
        }
        while k < n
            invariant
                n == self.backends.len(),
                0 < n,
                start < n,
                k <= n,
                idx < n,
                idx as int == (if start + k < n {
                    start + k
                } else {
                    start + k - n
                }),
                self.options == opts,
                interval == opts.lb_interval,
                retries == opts.lb_retries,
                self.lb_policy == old(self).lb_policy,
                self.current_backend == old(self).current_backend,
                self.options == old(self).options,
                old(self).backends@ == pool0,
                pool0.len() == n,
                old(self).wf(),
                start as int == old(self).start_index(client)->0,
                old(self).start_index(client) is Some,
                scan(self.backends@, start as int, k as int, now, opts) == scan(
                    pool0,
                    start as int,
                    0,
                    now,
                    opts,
                ),
                forall|i: int|
                    0 <= i < self.backends.len() ==> #[trigger] backend_wf(
                        self.backends@[i],
                        self.options,
                    ),
            decreases n - k,
        {
            let ghost before = self.backends@;
            proof {
                if start + k < n {
                    lemma_small_mod((start + k) as nat, n as nat);
                } else {
                    lemma_small_mod((start + k - n) as nat, n as nat);
                    lemma_mod_add_multiples_vanish((start + k - n) as int, n as int);
                }
                assert(backend_wf(before[idx as int], self.options));
            }
            let state = self.backends[idx].alive_state;
            let mut picked = false;
            match state {
                AliveState::Alive(_) => {
                    picked = true;
                },
                AliveState::Dead { since, retries_left } => {
                    if now >= since && now - since >= interval {
                        if retries_left > 0 {
                            self.backends[idx].alive_state = AliveState::Alive(now);
                            self.backends[idx].pending_retries = Some(retries_left - 1);
                            picked = true;
                        } else {
                            self.backends[idx].alive_state = AliveState::Dead {
                                since: now,
                                retries_left: retries,
                            };
                        }
                    }
                },
            }
            assert(self.backends@ =~= before.update(
                idx as int,
                visited(before[idx as int], now, opts),
            ));
            assert forall|j: int| 0 <= j < n implies #[trigger] backend_wf(
                self.backends@[j],
                self.options,
            ) by {
                if j != idx {
                    assert(self.backends@[j] == before[j]);
                    assert(backend_wf(before[j], self.options));
                }
            }
            if picked {
                assert(scan(before, start as int, k as int, now, opts) == (
                    self.backends@,
                    Some(idx as int),
                ));
                proof {
                    if idx + 1 < n {
                        lemma_small_mod((idx + 1) as nat, n as nat);
                    } else {
                        lemma_mod_self_0(n as int);
                    }
                }
                let live = LiveBackend { address: self.backends[idx].url.clone(), backend_index: idx };
                if let LoadBalancePolicy::RoundRobin = self.lb_policy {
                    self.current_backend = if idx + 1 == n {
                        0
                    } else {
                        idx + 1
                    };
                }
                return Ok(live);
            }
            idx = if idx + 1 == n {
                0
            } else {
                idx + 1
            };
            k = k + 1;
        }
        assert(scan(self.backends@, start as int, k as int, now, opts) == (
            self.backends@,
            None::<int>,
        ));
        Err(response_error("No healthy backends", BAD_GATEWAY))
    }

    /// Records a failed dispatch to `live` at `now`: the backend becomes dead
    /// from `now`, keeping the retries of a provisional revival or, if it was
    /// alive, all the configured retries.
    pub fn set_dead_backend(&mut self, live: &LiveBackend, now: u64)
        requires
            old(self).wf(),
            live.backend_index < old(self).backends.len(),
        ensures
            final(self).wf(),
            final(self).lb_policy == old(self).lb_policy,
            final(self).options == old(self).options,
            final(self).current_backend == old(self).current_backend,
            ({
                let i = live.backend_index as int;
                let b = old(self).backends@[i];
                final(self).backends@ == old(self).backends@.update(
                    i,
                    failed_backend(b, now, old(self).options),
                )
            }),
    {
        let i = live.backend_index;
        let retries_left = match self.backends[i].pending_retries {
            Some(r) => r,
            None => self.options.lb_retries,
        };
        let ghost before = self.backends@;
        assert(backend_wf(before[i as int], self.options));
        self.backends[i].alive_state = AliveState::Dead { since: now, retries_left };
        self.backends[i].pending_retries = None;
        assert(self.backends@ =~= before.update(
            i as int,
            Backend {
                alive_state: AliveState::Dead { since: now, retries_left },
                pending_retries: None,
                ..before[i as int]
            },
        ));
        assert(backend_wf(self.backends@[i as int], self.options));
    }

    /// Records a successful dispatch to `live` at `now`: the backend is alive
    /// as of `now`.
    pub fn set_alive_backend(&mut self, live: &LiveBackend, now: u64)
        requires
            old(self).wf(),
            live.backend_index < old(self).backends.len(),
        ensures
            final(self).wf(),
            final(self).lb_policy == old(self).lb_policy,
            final(self).options == old(self).options,
            final(self).current_backend == old(self).current_backend,
            ({
                let i = live.backend_index as int;
                final(self).backends@ == old(self).backends@.update(
                    i,
                    Backend {
                        alive_state: AliveState::Alive(now),
                        pending_retries: None,
                        ..old(self).backends@[i]
                    },
                )
            }),
    {
        let i = live.backend_index;
        let ghost before = self.backends@;
        self.backends[i].alive_state = AliveState::Alive(now);
        self.backends[i].pending_retries = None;
        assert(self.backends@ =~= before.update(
            i as int,
            Backend {
                alive_state: AliveState::Alive(now),
                pending_retries: None,
                ..before[i as int]
            },
        ));
        assert(backend_wf(self.backends@[i as int], self.options));
    }
}

/// Positions `start + k` with `start, k < n` wrap around `n` at most once.
proof fn lemma_wrap(start: int, k: int, n: int)
    requires
        0 <= start < n,
        0 <= k <= n,
    ensures
        (start + k) % n == (if start + k < n {
            start + k
        } else {
            start + k - n
        }),
{
    if start + k < n {
        lemma_small_mod((start + k) as nat, n as nat);
    } else {
        lemma_small_mod((start + k - n) as nat, n as nat);
        lemma_mod_add_multiples_vanish(start + k - n, n);
    }
}

/// A scan leaves a dead backend whose interval has not passed untouched,
/// and does not pick it.
proof fn lemma_scan_skips_resting(
    bs: Seq<Backend>,
    start: int,
    k: int,
    now: u64,
    opts: ReverseProxyOptions,
    j: int,
)
    requires
        0 <= j < bs.len(),
        bs[j].alive_state matches AliveState::Dead { since, .. } && !interval_elapsed(
            since,
            now,
            opts.lb_interval,
        ),
    ensures
        scan(bs, start, k, now, opts).0.len() == bs.len(),
        scan(bs, start, k, now, opts).0[j] == bs[j],
        scan(bs, start, k, now, opts).1 != Some(j),
    decreases bs.len() - k,
{
    if k >= bs.len() || k < 0 {
    } else {
        let i = (start + k) % (bs.len() as int);
        let nbs = bs.update(i, visited(bs[i], now, opts));
        if !is_eligible(bs[i].alive_state, now, opts.lb_interval) {
            lemma_scan_skips_resting(nbs, start, k + 1, now, opts, j);
        }
    }
}

/// A scan that still has an alive backend ahead of it picks some backend.
proof fn lemma_scan_finds_alive(
    bs: Seq<Backend>,
    start: int,
    k: int,
    now: u64,
    opts: ReverseProxyOptions,
    m: int,
)
    requires
        0 <= start < bs.len(),
        0 <= k <= m < bs.len(),
        bs[(start + m) % (bs.len() as int)].alive_state is Alive,
    ensures
        scan(bs, start, k, now, opts).1 is Some,
    decreases bs.len() - k,
{
    let n = bs.len() as int;
    let i = (start + k) % n;
    let nbs = bs.update(i, visited(bs[i], now, opts));
    if !is_eligible(bs[i].alive_state, now, opts.lb_interval) {
        lemma_wrap(start, k, n);
        lemma_wrap(start, m, n);
        assert(m != k);
        lemma_wrap(start, k + 1, n);
        assert(nbs[(start + m) % n] == bs[(start + m) % n]);
        lemma_scan_finds_alive(nbs, start, k + 1, now, opts, m);
    }
}

/// Selection never touches a backend that is dead and whose interval has
/// not passed yet: it stays as it is and is not picked.
pub proof fn lemma_resting_backend_untouched(
    s: ReverseProxyState,
    client: ClientIp,
    now: u64,
    j: int,
)
    requires
        s.wf(),
        0 <= j < s.backends.len(),
        s.backends@[j].alive_state matches AliveState::Dead { since, .. } && !interval_elapsed(
            since,
            now,
            s.options.lb_interval,
        ),
    ensures
        s.spec_select(client, now).0[j] == s.backends@[j],
        s.spec_select(client, now).2 != Some(j),
{
    if let Some(start) = s.start_index(client) {
        lemma_scan_skips_resting(s.backends@, start, 0, now, s.options, j);
    }
}

/// Selection succeeds whenever some backend is alive (for an IPv4 client
/// under `IPHash`).
pub proof fn lemma_selection_total(s: ReverseProxyState, client: ClientIp, now: u64, j: int)
    requires
        s.wf(),
        0 <= j < s.backends.len(),
        s.backends@[j].alive_state is Alive,
        s.lb_policy == LoadBalancePolicy::IPHash ==> client is V4,
    ensures
        s.spec_select(client, now).2 is Some,
{
    let n = s.backends.len() as int;
    let start = s.start_index(client)->0;
    assert(0 <= start < n) by {
        if let (LoadBalancePolicy::IPHash, ClientIp::V4(o)) = (s.lb_policy, client) {
            vstd::arithmetic::div_mod::lemma_mod_bound(fnv1a(o@) as int, hash_modulus(n as nat) as int);
        }
    }
    let m = if j >= start {
        j - start
    } else {
        j - start + n
    };
    lemma_wrap(start, m, n);
    lemma_scan_finds_alive(s.backends@, start, 0, now, s.options, m);
}

/// The most headers an upstream response head may carry.
pub const UPSTREAM_HEADER_LIMIT: usize = 64;

/// The URI a backend is reached at for a request path: the backend's
/// address followed by the path, with `http://` in front where the address
/// names no scheme.
pub open spec fn absolute_target(address: Seq<char>, path: Seq<char>) -> Seq<char> {
    if contains(address, "://"@) {
        address + path
    } else {
        "http://"@ + address + path
    }
}

/// The `host:port` to connect to for a backend address and request path:
/// the URI's host and port, the port being 443 for `https` and 80 otherwise
/// where the URI gives none; `None` where the URI is invalid or has no host.
pub open spec fn backend_addr_of(address: Seq<char>, path: Seq<char>) -> Option<Seq<char>> {
    match uri_of(absolute_target(address, path)) {
        Some(u) => match u.host {
            Some(h) => {
                let port: u16 = match u.port {
                    Some(p) => p,
                    None => if u.scheme == Some("https"@) {
                        443u16
                    } else {
                        80u16
                    },
                };
                Some(h + ":"@ + decimal_chars(port as nat))
            },
            None => None,
        },
        None => None,
    }
}

/// The socket address of the backend at `address` for a request with
/// `path`; a destination that does not parse fails with `502`.
pub fn backend_socket_addr(address: &str, path: &str) -> (r: Result<String, CbltError>)
    ensures
        match backend_addr_of(address@, path@) {
            Some(a) => r is Ok && r->Ok_0@ == a,
            None => r is Err && r->Err_0.is_response(BAD_GATEWAY),
        },
{
    let mut target = if contains_str(address, "://") {
        String::new()
    } else {
        "http://".to_string()
    };
    target.append(address);
    target.append(path);
    assert(target@ =~= absolute_target(address@, path@));
    let parts = match parse_uri(target.as_str()) {
        Some(u) => u,
        None => {
            return Err(response_error("Invalid destination URI", BAD_GATEWAY));
        },
    };
    let host = match parts.host {
        Some(h) => h,
        None => {
            return Err(response_error("Invalid destination URI", BAD_GATEWAY));
        },
    };
    let port: u16 = match parts.port {
        Some(p) => p,
        None => {
            let https = match &parts.scheme {
                Some(s) => str_eq(s.as_str(), "https"),
                None => false,
            };
            if https {
                443
            } else {
                80
            }
        },
    };
    let mut out = host;
    out.append(":");
    append_decimal(&mut out, port as u64);
    Ok(out)
}

/// Outcome of looking for the end of an upstream response head.
#[derive(Debug, Clone, Copy)]
pub enum HeadLen {
    /// The head's length and the status code read from it.
    Complete(usize, Option<u16>),
    Partial,
    Invalid,
}

/// What httparse finds at the start of an upstream response, allowing at
/// most `max_headers` headers.
pub uninterp spec fn response_head_of(buf: Seq<u8>, max_headers: usize) -> HeadLen;

/// Relies on `httparse::Response::parse`: the length and status code of a
/// complete head, or that it is incomplete, or invalid.
#[verifier::external_body]
fn parse_response_head(buf: &[u8], max_headers: usize) -> (r: HeadLen)
    ensures
        r == response_head_of(buf@, max_headers),
{
    let mut headers = vec![httparse::EMPTY_HEADER; max_headers];
    let mut res = httparse::Response::new(&mut headers);
    match res.parse(buf) {
        Ok(httparse::Status::Complete(n)) => HeadLen::Complete(n, res.code),
        Ok(httparse::Status::Partial) => HeadLen::Partial,
        Err(_) => HeadLen::Invalid,
    }
}

/// The length and status of the upstream response head at the start of
/// `buf`: `Ok(None)` while it is incomplete, a `502` error where it is
/// malformed.
pub fn get_header_len(buf: &Vec<u8>) -> (r: Result<Option<(usize, u16)>, CbltError>)
    ensures
        match response_head_of(buf@, UPSTREAM_HEADER_LIMIT) {
            HeadLen::Complete(n, Some(code)) => if n <= buf.len() {
                r == Ok::<Option<(usize, u16)>, CbltError>(Some((n, code)))
            } else {
                r is Err && r->Err_0.is_response(BAD_GATEWAY)
            },
            HeadLen::Complete(_, None) => r is Err && r->Err_0.is_response(BAD_GATEWAY),
            HeadLen::Partial => r == Ok::<Option<(usize, u16)>, CbltError>(None),
            HeadLen::Invalid => r is Err && r->Err_0.is_response(BAD_GATEWAY),
        },
{
    match parse_response_head(buf.as_slice(), UPSTREAM_HEADER_LIMIT) {
        HeadLen::Complete(n, Some(code)) => {
            if n <= buf.len() {
                Ok(Some((n, code)))
            } else {
                Err(response_error("Malformed backend response", BAD_GATEWAY))
            }
        },
        HeadLen::Complete(_, None) => Err(response_error("Backend response without status", BAD_GATEWAY)),
        HeadLen::Partial => Ok(None),
        HeadLen::Invalid => Err(response_error("Malformed backend response", BAD_GATEWAY)),
    }
}

/// What a relayed dispatch reports once the backend's answer has been
/// passed on: `200` itself, and any other status as a response error
/// carrying that status.
pub fn upstream_outcome(status: u16) -> (r: Result<u16, CbltError>)
    ensures
        status == 200 ==> r == Ok::<u16, CbltError>(200),
        status != 200 ==> r is Err && r->Err_0.is_response(status),
{
    if status == 200 {
        Ok(200)
    } else {
        Err(response_error("Backend answered with an error status", status))
    }
}

/// Relies on `SystemTime::now` and `SystemTime::duration_since(UNIX_EPOCH)`:
/// the whole seconds since the Unix epoch, 0 where the clock reads earlier.
#[verifier::external_body]
pub fn current_timestamp_seconds() -> (r: u64) {
    std::time::SystemTime::now().duration_since(std::time::UNIX_EPOCH).map(|d| d.as_secs()).unwrap_or(0)
}

impl ReverseProxyState {
    /// Picks a backend as `get_next_backend` does, at the current time,
    /// which it returns beside the outcome.
    pub fn select_backend(&mut self, client: ClientIp) -> (r: (Result<LiveBackend, CbltError>, u64))
        requires
            old(self).wf(),
        ensures
            final(self).wf(),
            final(self).lb_policy == old(self).lb_policy,
            final(self).options == old(self).options,
            ({
                let (bs, cursor, pick) = old(self).spec_select(client, r.1);
                &&& final(self).backends@ == bs
                &&& final(self).current_backend == cursor
                &&& match r.0 {
                    Ok(live) => pick == Some(live.backend_index as int) && live.address@
                        == bs[live.backend_index as int].url@,
                    Err(e) => pick is None && e.is_response(BAD_GATEWAY),
                }
            }),
    {
        let now = current_timestamp_seconds();
        (self.get_next_backend(client, now), now)
    }
}

/// The backends that one request may still try.
#[derive(Debug)]
pub struct ProxyDispatch {
    pub selections_left: usize,
}

impl ProxyDispatch {
    /// A dispatch that may select as many times as the pool has backends.
    pub fn new(state: &ReverseProxyState) -> (r: Self)
        ensures
            r.selections_left == state.backends.len(),
    {
        ProxyDispatch { selections_left: state.backends.len() }
    }

    /// Selects the backend to connect to next, at `now`. Each call uses up
    /// one selection; once none is left the dispatch fails with `502` and
    /// the pool stays as it is, so a request tries at most as many
    /// backends as the pool holds.
    pub fn next_backend(&mut self, state: &mut ReverseProxyState, client: ClientIp, now: u64) -> (r:
        Result<LiveBackend, CbltError>)
        requires
            old(state).wf(),
        ensures
            final(state).wf(),
            final(state).lb_policy == old(state).lb_policy,
            final(state).options == old(state).options,
            old(self).selections_left == 0 ==> {
                &&& r is Err && r->Err_0.is_response(BAD_GATEWAY)
                &&& final(self).selections_left == 0
                &&& final(state).backends@ == old(state).backends@
                &&& final(state).current_backend == old(state).current_backend
            },
            old(self).selections_left > 0 ==> {
                let (bs, cursor, pick) = old(state).spec_select(client, now);
                &&& final(self).selections_left == old(self).selections_left - 1
                &&& final(state).backends@ == bs
                &&& final(state).current_backend == cursor
                &&& match r {
                    Ok(live) => pick == Some(live.backend_index as int) && live.address@
                        == bs[live.backend_index as int].url@,
                    Err(e) => pick is None && e.is_response(BAD_GATEWAY),
                }
            },
    {
        if self.selections_left == 0 {
            return Err(response_error("No healthy backends", BAD_GATEWAY));
        }
        self.selections_left = self.selections_left - 1;
        state.get_next_backend(client, now)
    }
}

/// Failover under round-robin: when the backend at the cursor is alive and
/// its dispatch fails, and the backend after it is alive too, the failed
/// one is dead from `now` with all its retries and the next selection at
/// the same time takes the backend after it.
pub proof fn lemma_failover(s0: ReverseProxyState, s1: ReverseProxyState, client: ClientIp, now: u64)
    requires
        s0.wf(),
        s0.lb_policy == LoadBalancePolicy::RoundRobin,
        s0.backends.len() >= 2,
        s0.backends@[s0.current_backend as int].alive_state is Alive,
        s0.backends@[s0.current_backend as int].pending_retries is None,
        s0.backends@[(s0.current_backend + 1) % (s0.backends.len() as int)].alive_state is Alive,
        s1.backends@ == s0.spec_select(client, now).0.update(
            s0.current_backend as int,
            failed_backend(s0.spec_select(client, now).0[s0.current_backend as int], now, s0.options),
        ),
        s1.current_backend == s0.spec_select(client, now).1,
        s1.lb_policy == s0.lb_policy,
        s1.options == s0.options,
    ensures
        s0.spec_select(client, now).2 == Some(s0.current_backend as int),
        s1.backends@[s0.current_backend as int].alive_state == (AliveState::Dead {
            since: now,
            retries_left: s0.options.lb_retries,
        }),
        s1.spec_select(client, now).2 == Some(
            (s0.current_backend + 1) % (s0.backends.len() as int),
        ),
{
    let n = s0.backends.len() as int;
    let c = s0.current_backend as int;
    let bs = s0.backends@;
    lemma_small_mod(c as nat, n as nat);
    assert(bs.update(c, visited(bs[c], now, s0.options)) =~= bs);
    let c1 = (c + 1) % n;
    if c + 1 < n {
        lemma_small_mod((c + 1) as nat, n as nat);
    } else {
        lemma_mod_self_0(n);
    }
    assert(c1 != c);
    lemma_small_mod(c1 as nat, n as nat);
    assert(s1.backends@[c1] == bs[c1]);
}

} // verus!
