//! A mutually authenticated TLS load balancer, modelled as a poll-driven
//! engine whose decisions are verified: upstream selection, connection
//! bookkeeping, per-identity rate limiting, the handshake and data-phase
//! state machines and active health probing.
//!
//! Sockets and the TLS layer stay with the caller, which performs the I/O
//! that the engine asks for and reports what it observed.

use vstd::prelude::*;

pub mod accounting;
pub mod client;
pub mod config;
pub mod handshake;
pub mod health;
pub mod server;

use crate::accounting::{
    lemma_live_none, lemma_live_push, lemma_live_total, lemma_live_update, lemma_loads_total, live,
    live_in_pool, loads_total,
};
use crate::client::{
    conns_to, ended, lemma_conns_to_concat, lemma_conns_to_push, lemma_conns_to_same_targets,
    lemma_conns_to_split, still_open, stepped_conn, Client, ConnState, Connection, Transfer,
    RATE_LIMIT,
};
use crate::handshake::{
    finished, in_handshake, is_finished, polled, HandshakeEvent, PartialConnState,
    PartialConnection,
};
use crate::health::{ProbeAction, ProbeOutcome};
use crate::server::{eligible, selected, with_prober, ServerGroup, Upstream};

verus! {

pub open spec fn pool_has(pools: Seq<ServerGroup>, g: u32) -> bool {
    exists|p: int| 0 <= p < pools.len() && #[trigger] pools[p].spec_id() == g
}

pub open spec fn pool_index(pools: Seq<ServerGroup>, g: u32) -> int {
    choose|p: int| 0 <= p < pools.len() && #[trigger] pools[p].spec_id() == g
}

pub open spec fn client_has(cls: Seq<Client>, e: Seq<char>) -> bool {
    exists|i: int| 0 <= i < cls.len() && #[trigger] cls[i].spec_email() == e
}

pub open spec fn client_index(cls: Seq<Client>, e: Seq<char>) -> int {
    choose|i: int| 0 <= i < cls.len() && #[trigger] cls[i].spec_email() == e
}

/// Endpoint `s` of pool `g` exists.
pub open spec fn endpoint_exists(pools: Seq<ServerGroup>, g: u32, s: u32) -> bool {
    pool_has(pools, g) && pools[pool_index(pools, g)].has(s)
}

/// Endpoint `s` of pool `g`, when it exists.
pub open spec fn endpoint(pools: Seq<ServerGroup>, g: u32, s: u32) -> Upstream {
    let sg = pools[pool_index(pools, g)];
    sg.servers()[sg.index_of(s)]
}

/// The count recorded for endpoint `s` of pool `g` (zero when absent).
pub open spec fn pool_load(pools: Seq<ServerGroup>, g: u32, s: u32) -> nat {
    if pool_has(pools, g) {
        pools[pool_index(pools, g)].load_of(s)
    } else {
        0
    }
}

/// Records are well formed and identities unique.
pub open spec fn records_wf(cls: Seq<Client>) -> bool {
    &&& forall|i: int| 0 <= i < cls.len() ==> (#[trigger] cls[i]).wf()
    &&& forall|i: int, j: int|
        0 <= i < j < cls.len() ==> #[trigger] cls[i].spec_email() != #[trigger] cls[j].spec_email()
}

/// Pools are well formed and their ids unique.
pub open spec fn pools_wf(pools: Seq<ServerGroup>) -> bool {
    &&& forall|p: int| 0 <= p < pools.len() ==> (#[trigger] pools[p]).wf()
    &&& forall|p: int, q: int|
        0 <= p < q < pools.len() ==> #[trigger] pools[p].spec_id() != #[trigger] pools[q].spec_id()
}

/// Every live connection is attributed to an endpoint that exists.
pub open spec fn targets_known(cls: Seq<Client>, pools: Seq<ServerGroup>) -> bool {
    forall|ci: int, k: int|
        0 <= ci < cls.len() && 0 <= k < cls[ci].conns().len() ==> endpoint_exists(
            pools,
            (#[trigger] cls[ci].conns()[k]).upstream_serv_group,
            cls[ci].conns()[k].upstream_serv_id,
        )
}

/// Each endpoint's recorded count is the number of live connections
/// attributed to it.
pub open spec fn counts_match(cls: Seq<Client>, pools: Seq<ServerGroup>) -> bool {
    forall|p: int, s: u32|
        0 <= p < pools.len() && #[trigger] pools[p].has(s) ==> pools[p].load_of(s) == live(
            cls,
            pools[p].spec_id(),
            s,
        )
}

/// Each endpoint that exists has the count of the live connections
/// attributed to it plus those of `extra`.
pub open spec fn loads_match(cls: Seq<Client>, pools: Seq<ServerGroup>, extra: Seq<Connection>) -> bool {
    forall|g: u32, s: u32|
        #[trigger] endpoint_exists(pools, g, s) ==> pool_load(pools, g, s) == live(cls, g, s)
            + conns_to(extra, g, s)
}

pub proof fn lemma_loads_match_iff(cls: Seq<Client>, pools: Seq<ServerGroup>)
    requires
        pools_wf(pools),
    ensures
        counts_match(cls, pools) <==> loads_match(cls, pools, Seq::<Connection>::empty()),
{
    if counts_match(cls, pools) {
        assert forall|g: u32, s: u32| #[trigger] endpoint_exists(pools, g, s) implies pool_load(pools, g, s)
            == live(cls, g, s) + conns_to(Seq::<Connection>::empty(), g, s) by {
            let p = pool_index(pools, g);
            assert(pools[p].has(s));
        }
    }
    if loads_match(cls, pools, Seq::<Connection>::empty()) {
        assert forall|p: int, s: u32| 0 <= p < pools.len() && #[trigger] pools[p].has(s) implies pools[p].load_of(s)
            == live(cls, pools[p].spec_id(), s) by {
            let g = pools[p].spec_id();
            assert(pool_has(pools, g));
            let q = pool_index(pools, g);
            if q != p {
                assert(pools[q].spec_id() != pools[p].spec_id());
            }
            assert(endpoint_exists(pools, g, s));
        }
    }
}

/// The connections after one poll of each, given what their directions did.
pub open spec fn stepped_conns(cs: Seq<Connection>, obs: Seq<(Transfer, Transfer)>) -> Seq<Connection> {
    Seq::new(cs.len(), |k: int| stepped_conn(cs[k], obs[k].0, obs[k].1))
}

/// The connections that the first `n` records reap after one poll.
pub open spec fn reaped(cls: Seq<Client>, obs: Seq<Vec<(Transfer, Transfer)>>, n: int) -> Seq<Connection>
    decreases n,
{
    if n <= 0 {
        Seq::empty()
    } else {
        reaped(cls, obs, n - 1) + stepped_conns(cls[n - 1].conns(), obs[n - 1]@).filter(ended())
    }
}

/// Probe I/O that is due for endpoint `server_id` of pool `pool_id`.
#[derive(Clone, Copy, PartialEq, Eq, Debug, Structural)]
pub struct ProbeRequest {
    pub pool_id: u32,
    pub server_id: u32,
    pub action: ProbeAction,
}

/// The probe requests of one pool polled at second `now`, endpoint by endpoint.
pub open spec fn pool_requests(sg: ServerGroup, now: int) -> Seq<ProbeRequest> {
    Seq::new(
        sg.servers().len(),
        |j: int|
            ProbeRequest {
                pool_id: sg.spec_id(),
                server_id: sg.servers()[j].id,
                action: sg.servers()[j].prober.due(now),
            },
    )
}

/// The probe requests of the first `n` pools polled at second `now`.
pub open spec fn probe_requests(pools: Seq<ServerGroup>, now: int, n: int) -> Seq<ProbeRequest>
    decreases n,
{
    if n <= 0 {
        Seq::empty()
    } else {
        probe_requests(pools, now, n - 1) + pool_requests(pools[n - 1], now)
    }
}

/// Relies on chrono::Utc::now and DateTime::timestamp: the current
/// wall-clock time in whole seconds since the Unix epoch. Nothing is
/// promised of the value.
#[verifier::external_body]
fn unix_now() -> (r: i64) {
    chrono::Utc::now().timestamp()
}

/// What becomes of a session whose handshake is over.
#[derive(PartialEq, Eq, Debug)]
pub enum Disposition {
    /// The handshake failed.
    Failed,
    /// No identity, or one that is not registered.
    UnknownIdentity,
    /// The identity's pool does not exist.
    NoPool,
    /// No endpoint of the identity's pool is healthy.
    NoHealthyUpstream,
    /// Connect to `address`, endpoint `server_id` of pool `pool_id`, then
    /// call `LoadBalancer::promote`.
    Connect { pool_id: u32, server_id: u32, address: String },
}

/// Why a completed handshake was not promoted to a connection.
#[derive(Clone, Copy, PartialEq, Eq, Debug, Structural)]
pub enum PromotionError {
    /// No identity, or one that is not registered.
    UnknownIdentity,
    /// The identity's pool does not exist.
    NoPool,
    /// The endpoint is not in the identity's pool.
    UnknownServer,
    /// The endpoint's count cannot grow any further.
    Saturated,
    /// The identity already had ten admissions in the current bucket.
    RateLimited,
}

/// The engine: identity records, upstream pools and the handshakes in
/// progress.
pub struct LoadBalancer {
    clients: Vec<Client>,
    server_groups: Vec<ServerGroup>,
    partial_conns: Vec<PartialConnection>,
}

impl LoadBalancer {
    pub closed spec fn clients(self) -> Seq<Client> {
        self.clients@
    }

    pub closed spec fn pools(self) -> Seq<ServerGroup> {
        self.server_groups@
    }

    pub closed spec fn pending(self) -> Seq<PartialConnection> {
        self.partial_conns@
    }

    pub open spec fn records_wf(self) -> bool {
        records_wf(self.clients())
    }

    pub open spec fn pools_wf(self) -> bool {
        pools_wf(self.pools())
    }

    pub open spec fn targets_known(self) -> bool {
        targets_known(self.clients(), self.pools())
    }

    pub open spec fn counts_match(self) -> bool {
        counts_match(self.clients(), self.pools())
    }

    pub open spec fn wf(self) -> bool {
        &&& self.records_wf()
        &&& self.pools_wf()
        &&& self.targets_known()
        &&& self.counts_match()
    }

    /// In a well-formed engine, the count recorded for an endpoint is the
    /// number of live connections attributed to it: a connection is counted
    /// from its promotion until it is reaped, and released exactly once.
    pub proof fn lemma_load_is_live(self, g: u32, s: u32)
        requires
            self.wf(),
            endpoint_exists(self.pools(), g, s),
        ensures
            pool_load(self.pools(), g, s) == live(self.clients(), g, s),
    {
        lemma_loads_match_iff(self.clients(), self.pools());
        assert(conns_to(Seq::<Connection>::empty(), g, s) == 0);
    }

    /// In a well-formed engine, the recorded counts of each pool add up to
    /// the number of live connections attributed to that pool.
    pub proof fn lemma_pool_counts_sum(self, p: int)
        requires
            self.wf(),
            0 <= p < self.pools().len(),
        ensures
            loads_total(self.pools()[p].servers()) == live_in_pool(self.clients(), self.pools()[p].spec_id()),
    {
        let sg = self.pools()[p];
        let g = sg.spec_id();
        let us = sg.servers();
        let cls = self.clients();
        assert(sg.wf());
        assert(pool_index(self.pools(), g) == p) by {
            assert(pool_has(self.pools(), g));
            let q = pool_index(self.pools(), g);
            if q != p {
                assert(self.pools()[q].spec_id() != self.pools()[p].spec_id());
            }
        }
        assert forall|j: int| 0 <= j < us.len() implies server::load(#[trigger] us[j]) == live(cls, g, us[j].id) by {
            let s = us[j].id;
            assert(sg.has(s));
            let k = sg.index_of(s);
            if k != j {
                assert(us[k].id != us[j].id);
            }
        }
        lemma_loads_total(cls, g, us);
        assert forall|ci: int, k: int|
            0 <= ci < cls.len() && 0 <= k < cls[ci].conns().len() && (#[trigger] cls[ci].conns()[k]).upstream_serv_group == g
            implies exists|i: int| 0 <= i < us.len() && #[trigger] us[i].id == cls[ci].conns()[k].upstream_serv_id by {
            let c = cls[ci].conns()[k];
            assert(endpoint_exists(self.pools(), c.upstream_serv_group, c.upstream_serv_id));
            assert(sg.has(c.upstream_serv_id));
            let i = sg.index_of(c.upstream_serv_id);
            assert(us[i].id == c.upstream_serv_id);
        }
        lemma_live_total(cls, g, us);
    }

    /// An engine with no identities, pools or handshakes.
    pub fn new() -> (r: Self)
        ensures
            r.wf(),
            r.clients() == Seq::<Client>::empty(),
            r.pools() == Seq::<ServerGroup>::empty(),
            r.pending() == Seq::<PartialConnection>::empty(),
    {
        LoadBalancer { clients: Vec::new(), server_groups: Vec::new(), partial_conns: Vec::new() }
    }

    /// Pools with the same ids, position by position, are found alike.
    pub proof fn lemma_same_pool_ids(a: Self, b: Self)
        requires
            a.pools_wf(),
            a.pools().len() == b.pools().len(),
            forall|p: int| 0 <= p < a.pools().len() ==> #[trigger] b.pools()[p].spec_id() == a.pools()[p].spec_id(),
        ensures
            forall|g: u32| #[trigger] pool_has(b.pools(), g) == pool_has(a.pools(), g),
            forall|g: u32| pool_has(a.pools(), g) ==> #[trigger] pool_index(b.pools(), g) == pool_index(a.pools(), g),
    {
        assert forall|g: u32| #[trigger] pool_has(b.pools(), g) == pool_has(a.pools(), g) by {
            if pool_has(a.pools(), g) {
                let p = pool_index(a.pools(), g);
                assert(b.pools()[p].spec_id() == g);
            }
            if pool_has(b.pools(), g) {
                let p = pool_index(b.pools(), g);
                assert(a.pools()[p].spec_id() == g);
            }
        }
        assert forall|g: u32| pool_has(a.pools(), g) implies #[trigger] pool_index(b.pools(), g) == pool_index(a.pools(), g) by {
            let p = pool_index(a.pools(), g);
            let q = pool_index(b.pools(), g);
            assert(pool_has(b.pools(), g));
            assert(a.pools()[q].spec_id() == g);
            if p < q {
                assert(a.pools()[p].spec_id() != a.pools()[q].spec_id());
            } else if q < p {
                assert(a.pools()[q].spec_id() != a.pools()[p].spec_id());
            }
        }
    }

    /// Records with the same identities, position by position, are found alike.
    pub proof fn lemma_same_client_ids(a: Self, b: Self)
        requires
            a.records_wf(),
            a.clients().len() == b.clients().len(),
            forall|i: int| 0 <= i < a.clients().len() ==> #[trigger] b.clients()[i].spec_email() == a.clients()[i].spec_email(),
        ensures
            forall|e: Seq<char>| #[trigger] client_has(b.clients(), e) == client_has(a.clients(), e),
            forall|e: Seq<char>| client_has(a.clients(), e) ==> #[trigger] client_index(b.clients(), e) == client_index(a.clients(), e),
    {
        assert forall|e: Seq<char>| #[trigger] client_has(b.clients(), e) == client_has(a.clients(), e) by {
            if client_has(a.clients(), e) {
                let i = client_index(a.clients(), e);
                assert(b.clients()[i].spec_email() == e);
            }
            if client_has(b.clients(), e) {
                let i = client_index(b.clients(), e);
                assert(a.clients()[i].spec_email() == e);
            }
        }
        assert forall|e: Seq<char>| client_has(a.clients(), e) implies #[trigger] client_index(b.clients(), e) == client_index(a.clients(), e) by {
            let i = client_index(a.clients(), e);
            let j = client_index(b.clients(), e);
            assert(client_has(b.clients(), e));
            assert(a.clients()[j].spec_email() == e);
            if i < j {
                assert(a.clients()[i].spec_email() != a.clients()[j].spec_email());
            } else if j < i {
                assert(a.clients()[j].spec_email() != a.clients()[i].spec_email());
            }
        }
    }

    /// Replacing pool `p` by a well-formed pool with the same id, at least
    /// the same endpoints and counts that match the live connections keeps
    /// the engine well formed.
    proof fn lemma_pool_replaced(self, a: Self, p: int)
        requires
            a.wf(),
            0 <= p < a.pools().len(),
            self.clients() == a.clients(),
            self.pools() == a.pools().update(p, self.pools()[p]),
            self.pools()[p].wf(),
            self.pools()[p].spec_id() == a.pools()[p].spec_id(),
            forall|s: u32| a.pools()[p].has(s) ==> #[trigger] self.pools()[p].has(s),
            forall|s: u32|
                #[trigger] self.pools()[p].has(s) ==> self.pools()[p].load_of(s) == live(
                    self.clients(),
                    self.pools()[p].spec_id(),
                    s,
                ),
        ensures
            self.wf(),
            forall|g: u32| #[trigger] pool_has(self.pools(), g) == pool_has(a.pools(), g),
            forall|g: u32| pool_has(a.pools(), g) ==> #[trigger] pool_index(self.pools(), g) == pool_index(a.pools(), g),
    {
        let b = self;
        Self::lemma_same_pool_ids(a, b);
        assert forall|x: int, y: int|
            0 <= x < y < b.pools().len() implies #[trigger] b.pools()[x].spec_id()
            != #[trigger] b.pools()[y].spec_id() by {
            assert(a.pools()[x].spec_id() != a.pools()[y].spec_id());
        }
        assert forall|x: int| 0 <= x < b.pools().len() implies (#[trigger] b.pools()[x]).wf() by {
            if x != p {
                assert(b.pools()[x] == a.pools()[x]);
            }
        }
        assert forall|ci: int, k: int|
            0 <= ci < b.clients().len() && 0 <= k < b.clients()[ci].conns().len()
            implies endpoint_exists(b.pools(), 
            (#[trigger] b.clients()[ci].conns()[k]).upstream_serv_group,
            b.clients()[ci].conns()[k].upstream_serv_id,
        ) by {
            let c = a.clients()[ci].conns()[k];
            assert(endpoint_exists(a.pools(), c.upstream_serv_group, c.upstream_serv_id));
            let q = pool_index(a.pools(), c.upstream_serv_group);
            if q == p {
                assert(b.pools()[p].has(c.upstream_serv_id));
            } else {
                assert(b.pools()[q] == a.pools()[q]);
            }
        }
        assert forall|q: int, sv: u32|
            0 <= q < b.pools().len() && #[trigger] b.pools()[q].has(sv)
            implies b.pools()[q].load_of(sv) == live(b.clients(), b.pools()[q].spec_id(), sv) by {
            if q != p {
                assert(b.pools()[q] == a.pools()[q]);
            }
        }
    }

    /// Appending a well-formed pool with a new id, whose counts match the
    /// live connections, keeps the engine well formed.
    proof fn lemma_pool_added(self, a: Self)
        requires
            a.wf(),
            self.clients() == a.clients(),
            self.pools().len() == a.pools().len() + 1,
            self.pools().drop_last() == a.pools(),
            self.pools().last().wf(),
            !pool_has(a.pools(), self.pools().last().spec_id()),
            forall|s: u32|
                #[trigger] self.pools().last().has(s) ==> self.pools().last().load_of(s) == live(
                    self.clients(),
                    self.pools().last().spec_id(),
                    s,
                ),
        ensures
            self.wf(),
            forall|g: u32| #[trigger] pool_has(self.pools(), g) == (pool_has(a.pools(), g) || g == self.pools().last().spec_id()),
            forall|g: u32| pool_has(a.pools(), g) ==> #[trigger] pool_index(self.pools(), g) == pool_index(a.pools(), g),
            pool_index(self.pools(), self.pools().last().spec_id()) == a.pools().len(),
    {
        let b = self;
        let n = a.pools().len() as int;
        let g0 = b.pools().last().spec_id();
        assert forall|x: int| 0 <= x < n implies #[trigger] b.pools()[x] == a.pools()[x] by {
            assert(b.pools().drop_last()[x] == b.pools()[x]);
        }
        assert forall|x: int, y: int|
            0 <= x < y < b.pools().len() implies #[trigger] b.pools()[x].spec_id()
            != #[trigger] b.pools()[y].spec_id() by {
            if y < n {
                assert(a.pools()[x].spec_id() != a.pools()[y].spec_id());
            } else {
                assert(b.pools()[x] == a.pools()[x]);
            }
        }
        assert forall|g: u32| #[trigger] pool_has(b.pools(), g) == (pool_has(a.pools(), g) || g == g0) by {
            if pool_has(a.pools(), g) {
                let q = pool_index(a.pools(), g);
                assert(b.pools()[q] == a.pools()[q]);
            }
            if g == g0 {
                assert(b.pools()[n].spec_id() == g0);
            }
            if pool_has(b.pools(), g) {
                let q = pool_index(b.pools(), g);
                if q < n {
                    assert(b.pools()[q] == a.pools()[q]);
                }
            }
        }
        assert forall|g: u32| pool_has(a.pools(), g) implies #[trigger] pool_index(b.pools(), g) == pool_index(a.pools(), g) by {
            let q = pool_index(a.pools(), g);
            let r = pool_index(b.pools(), g);
            assert(b.pools()[q] == a.pools()[q]);
            if q != r {
                assert(b.pools()[q].spec_id() != b.pools()[r].spec_id());
            }
        }
        let r = pool_index(b.pools(), g0);
        assert(b.pools()[n].spec_id() == g0);
        if r != n {
            assert(b.pools()[r].spec_id() != b.pools()[n].spec_id());
        }
        assert forall|ci: int, k: int|
            0 <= ci < b.clients().len() && 0 <= k < b.clients()[ci].conns().len()
            implies endpoint_exists(b.pools(), 
            (#[trigger] b.clients()[ci].conns()[k]).upstream_serv_group,
            b.clients()[ci].conns()[k].upstream_serv_id,
        ) by {
            let c = a.clients()[ci].conns()[k];
            assert(endpoint_exists(a.pools(), c.upstream_serv_group, c.upstream_serv_id));
            let q = pool_index(a.pools(), c.upstream_serv_group);
            assert(b.pools()[q] == a.pools()[q]);
        }
        assert forall|x: int| 0 <= x < b.pools().len() implies (#[trigger] b.pools()[x]).wf() by {
            if x < n {
                assert(b.pools()[x] == a.pools()[x]);
            }
        }
        assert forall|q: int, sv: u32|
            0 <= q < b.pools().len() && #[trigger] b.pools()[q].has(sv)
            implies b.pools()[q].load_of(sv) == live(b.clients(), b.pools()[q].spec_id(), sv) by {
            if q < n {
                assert(b.pools()[q] == a.pools()[q]);
            }
        }
    }

    /// What the engine decides for a session whose handshake is over.
    pub open spec fn disposition_of(self, c: PartialConnection, d: Disposition) -> bool {
        if c.state != PartialConnState::COMPLETED {
            d == Disposition::Failed
        } else {
            match c.email_address {
                None => d == Disposition::UnknownIdentity,
                Some(e) => if !client_has(self.clients(), e@) {
                    d == Disposition::UnknownIdentity
                } else {
                    let g = self.clients()[client_index(self.clients(), e@)].group();
                    if !pool_has(self.pools(), g) {
                        d == Disposition::NoPool
                    } else {
                        let sg = self.pools()[pool_index(self.pools(), g)];
                        match d {
                            Disposition::NoHealthyUpstream => selected(
                                sg.servers(),
                                |u: Upstream| eligible(true, u),
                                None,
                            ),
                            Disposition::Connect { pool_id, server_id, address } => {
                                &&& pool_id == g
                                &&& selected(
                                    sg.servers(),
                                    |u: Upstream| eligible(true, u),
                                    Some(server_id),
                                )
                                &&& sg.has(server_id)
                                &&& address == sg.servers()[sg.index_of(server_id)].address
                            },
                            _ => false,
                        }
                    }
                },
            }
        }
    }

    /// The outcome of promoting `session` to endpoint `server_id` at second `now`.
    pub open spec fn promotion_result(self, session: PartialConnection, server_id: u32, now: i64) -> Result<(), PromotionError> {
        match session.email_address {
            None => Err(PromotionError::UnknownIdentity),
            Some(e) => if !client_has(self.clients(), e@) {
                Err(PromotionError::UnknownIdentity)
            } else {
                let c = self.clients()[client_index(self.clients(), e@)];
                let g = c.group();
                if !pool_has(self.pools(), g) {
                    Err(PromotionError::NoPool)
                } else {
                    let sg = self.pools()[pool_index(self.pools(), g)];
                    if !sg.has(server_id) {
                        Err(PromotionError::UnknownServer)
                    } else if sg.load_of(server_id) >= usize::MAX {
                        Err(PromotionError::Saturated)
                    } else if c.admitted_in(now as int) >= RATE_LIMIT {
                        Err(PromotionError::RateLimited)
                    } else {
                        Ok(())
                    }
                }
            },
        }
    }

    /// A session planned to connect, whose connect succeeds, is promoted
    /// when `promote` is called right away with the planned endpoint,
    /// unless the identity's rate limit (or the endpoint's count limit)
    /// rejects it.
    pub proof fn lemma_planned_promotion(self, c: PartialConnection, d: Disposition, now: i64)
        requires
            self.wf(),
            self.disposition_of(c, d),
            d is Connect,
        ensures
            match self.promotion_result(c, d->server_id, now) {
                Ok(()) => true,
                Err(e) => e == PromotionError::RateLimited || e == PromotionError::Saturated,
            },
    {
    }

    /// Promotes a completed handshake whose upstream socket to endpoint
    /// `server_id` of the identity's pool is established: the endpoint's
    /// count grows by one and the identity's record admits the new
    /// connection at second `now`. When the rate limit rejects it, the count
    /// is released again at once. A connection is added exactly on `Ok`.
    pub fn promote(&mut self, session: PartialConnection, server_id: u32, now: i64) -> (r: Result<(), PromotionError>)
        requires
            old(self).wf(),
        ensures
            final(self).wf(),
            r == old(self).promotion_result(session, server_id, now),
            final(self).pending() == old(self).pending(),
            final(self).clients().len() == old(self).clients().len(),
            forall|i: int| 0 <= i < old(self).clients().len() ==> #[trigger] final(self).clients()[i].spec_email() == old(self).clients()[i].spec_email(),
            forall|g: u32| #[trigger] pool_has(final(self).pools(), g) == pool_has(old(self).pools(), g),
            r is Ok ==> {
                let ci = client_index(old(self).clients(), session.email_address->0@);
                let g = old(self).clients()[ci].group();
                &&& final(self).clients()[ci].conns() == old(self).clients()[ci].conns().push(
                    Connection { token: session.token, conn_state: ConnState::OKAY, upstream_serv_group: g, upstream_serv_id: server_id },
                )
                &&& pool_load(final(self).pools(), g, server_id) == pool_load(old(self).pools(), g, server_id) + 1
                &&& forall|h: u32, sv: u32| !(h == g && sv == server_id) ==> #[trigger] pool_load(final(self).pools(), h, sv) == pool_load(old(self).pools(), h, sv)
                &&& forall|i: int| 0 <= i < old(self).clients().len() && i != ci ==> #[trigger] final(self).clients()[i] == old(self).clients()[i]
            },
            r is Err ==> {
                &&& forall|h: u32, sv: u32| #[trigger] pool_load(final(self).pools(), h, sv) == pool_load(old(self).pools(), h, sv)
                &&& forall|i: int| 0 <= i < old(self).clients().len() ==> #[trigger] final(self).clients()[i].conns() == old(self).clients()[i].conns()
            },
    {
        let ghost a = *old(self);
        let e = match &session.email_address {
            Some(e) => e,
            None => {
                return Err(PromotionError::UnknownIdentity);
            },
        };
        let ci = match self.find_client(e) {
            Some(ci) => ci,
            None => {
                return Err(PromotionError::UnknownIdentity);
            },
        };
        let g = self.clients[ci].get_server_group();
        let p = match self.find_pool(g) {
            Some(p) => p,
            None => {
                return Err(PromotionError::NoPool);
            },
        };
        proof {
            assert(self.pools()[p as int].wf());
        }
        if self.server_groups[p].get_server_address(&server_id).is_none() {
            return Err(PromotionError::UnknownServer);
        }
        if let Some(c) = self.server_groups[p].active_count(server_id) {
            if c == usize::MAX {
                return Err(PromotionError::Saturated);
            }
        }
        let mut sg = self.server_groups.remove(p);
        let ghost sa = sg;
        sg.add_connection(&server_id);
        let ghost s1 = sg;
        let conn = Connection::from_partial_connection(session, g, server_id);
        let ghost x = conn;
        let mut c = self.clients.remove(ci);
        let ghost ca = c;
        let admitted = c.admit_connection(conn, now);
        if !admitted {
            sg.remove_connection(&server_id);
        }
        let ghost sb = sg;
        let ghost cb = c;
        self.clients.insert(ci, c);
        self.server_groups.insert(p, sg);
        proof {
            let b = *self;
            let j = sa.index_of(server_id);
            assert(b.pools() =~= a.pools().update(p as int, sb));
            assert(b.clients() =~= a.clients().update(ci as int, cb));
            assert(sa == a.pools()[p as int]);
            assert(ca == a.clients()[ci as int]);
            assert(sa.has(server_id));
            ServerGroup::lemma_update_one(sa, s1, j, s1.servers()[j]);
            if !admitted {
                ServerGroup::lemma_update_one(s1, sb, j, sb.servers()[j]);
                assert(sb.servers() =~= sa.servers().update(j, sb.servers()[j]));
            }
            let u = sb.servers()[j];
            assert(sb.servers() == sa.servers().update(j, u));
            ServerGroup::lemma_update_one(sa, sb, j, u);
            assert(sb.load_of(server_id) == sa.load_of(server_id) + if admitted { 1nat } else { 0nat });
            Self::lemma_same_pool_ids(a, b);
            Self::lemma_same_client_ids(a, b);
            assert(pools_wf(b.pools())) by {
                assert forall|x1: int, y1: int|
                    0 <= x1 < y1 < b.pools().len() implies #[trigger] b.pools()[x1].spec_id()
                    != #[trigger] b.pools()[y1].spec_id() by {
                    assert(a.pools()[x1].spec_id() != a.pools()[y1].spec_id());
                }
                assert forall|q: int| 0 <= q < b.pools().len() implies (#[trigger] b.pools()[q]).wf() by {
                    if q != p as int {
                        assert(b.pools()[q] == a.pools()[q]);
                    }
                }
            }
            assert(records_wf(b.clients())) by {
                assert forall|x1: int, y1: int|
                    0 <= x1 < y1 < b.clients().len() implies #[trigger] b.clients()[x1].spec_email()
                    != #[trigger] b.clients()[y1].spec_email() by {
                    assert(a.clients()[x1].spec_email() != a.clients()[y1].spec_email());
                }
                assert forall|q: int| 0 <= q < b.clients().len() implies (#[trigger] b.clients()[q]).wf() by {
                    if q != ci as int {
                        assert(b.clients()[q] == a.clients()[q]);
                    }
                }
            }
            assert(targets_known(b.clients(), b.pools())) by {
                assert forall|cj: int, k: int|
                    0 <= cj < b.clients().len() && 0 <= k < b.clients()[cj].conns().len()
                    implies endpoint_exists(
                    b.pools(),
                    (#[trigger] b.clients()[cj].conns()[k]).upstream_serv_group,
                    b.clients()[cj].conns()[k].upstream_serv_id,
                ) by {
                    let cc = b.clients()[cj].conns()[k];
                    if cj == ci as int && k == ca.conns().len() {
                        assert(cc == x);
                        assert(pool_has(a.pools(), g));
                        assert(pool_has(b.pools(), g));
                        assert(pool_index(b.pools(), g) == p as int);
                        assert(b.pools()[p as int] == sb);
                        assert(sb.has(server_id));
                    } else {
                        if cj == ci as int {
                            assert(cb.conns()[k] == ca.conns()[k]);
                        } else {
                            assert(b.clients()[cj] == a.clients()[cj]);
                        }
                        assert(cc == a.clients()[cj].conns()[k]);
                        assert(endpoint_exists(a.pools(), cc.upstream_serv_group, cc.upstream_serv_id));
                        let q = pool_index(a.pools(), cc.upstream_serv_group);
                        if q != p as int {
                            assert(b.pools()[q] == a.pools()[q]);
                        } else {
                            assert(sb.has(cc.upstream_serv_id));
                        }
                    }
                }
            }
            let delta = |h: u32, sv: u32| if admitted && h == g && sv == server_id { 1nat } else { 0nat };
            assert forall|h: u32, sv: u32| #[trigger] live(b.clients(), h, sv) == live(a.clients(), h, sv) + delta(h, sv) by {
                lemma_live_update(a.clients(), ci as int, cb, h, sv);
                if admitted {
                    lemma_conns_to_push(ca.conns(), x, h, sv);
                }
            }
            assert(counts_match(b.clients(), b.pools())) by {
                assert forall|q: int, sv: u32|
                    0 <= q < b.pools().len() && #[trigger] b.pools()[q].has(sv)
                    implies b.pools()[q].load_of(sv) == live(b.clients(), b.pools()[q].spec_id(), sv) by {
                    assert(live(b.clients(), b.pools()[q].spec_id(), sv) == live(a.clients(), b.pools()[q].spec_id(), sv) + delta(b.pools()[q].spec_id(), sv));
                    if q != p as int {
                        assert(b.pools()[q] == a.pools()[q]);
                        assert(a.pools()[q].spec_id() != a.pools()[p as int].spec_id());
                    } else if sv != server_id {
                        assert(sb.count_of(sv) == sa.count_of(sv));
                    }
                }
            }
            assert forall|h: u32, sv: u32| !(admitted && h == g && sv == server_id) implies #[trigger] pool_load(b.pools(), h, sv) == pool_load(a.pools(), h, sv) by {
                if h == g {
                    assert(pool_has(b.pools(), h));
                    assert(pool_index(b.pools(), h) == p as int);
                    assert(b.pools()[p as int] == sb);
                    if sv != server_id {
                        assert(sb.count_of(sv) == sa.count_of(sv));
                    }
                } else if pool_has(a.pools(), h) {
                    let q = pool_index(a.pools(), h);
                    assert(q != p as int);
                    assert(b.pools()[q] == a.pools()[q]);
                }
            }
            assert(pool_index(b.pools(), g) == p as int);
        }
        if admitted {
            Ok(())
        } else {
            Err(PromotionError::RateLimited)
        }
    }

    /// Releases one connection of endpoint `sv` of pool `g`.
    fn release(&mut self, g: u32, sv: u32)
        requires
            pools_wf(old(self).pools()),
            endpoint_exists(old(self).pools(), g, sv),
            pool_load(old(self).pools(), g, sv) > 0,
        ensures
            pools_wf(final(self).pools()),
            final(self).clients() == old(self).clients(),
            final(self).pending() == old(self).pending(),
            final(self).pools().len() == old(self).pools().len(),
            forall|p: int| 0 <= p < old(self).pools().len() ==> #[trigger] final(self).pools()[p].spec_id() == old(self).pools()[p].spec_id(),
            forall|h: u32, s: u32| #[trigger] endpoint_exists(final(self).pools(), h, s) == endpoint_exists(old(self).pools(), h, s),
            forall|h: u32, s: u32| #[trigger] pool_load(final(self).pools(), h, s) == pool_load(old(self).pools(), h, s) - if h == g && s == sv { 1int } else { 0int },
    {
        let ghost a = *old(self);
        let p = match self.find_pool(g) {
            Some(p) => p,
            None => {
                return;
            },
        };
        let mut sg = self.server_groups.remove(p);
        let ghost sa = sg;
        proof {
            assert(sa == a.pools()[p as int]);
        }
        sg.remove_connection(&sv);
        let ghost sb = sg;
        self.server_groups.insert(p, sg);
        proof {
            let b = *self;
            assert(b.pools() =~= a.pools().update(p as int, sb));
            let j = sa.index_of(sv);
            ServerGroup::lemma_update_one(sa, sb, j, sb.servers()[j]);
            Self::lemma_same_pool_ids(a, b);
            assert forall|x1: int, y1: int|
                0 <= x1 < y1 < b.pools().len() implies #[trigger] b.pools()[x1].spec_id()
                != #[trigger] b.pools()[y1].spec_id() by {
                assert(a.pools()[x1].spec_id() != a.pools()[y1].spec_id());
            }
            assert forall|q: int| 0 <= q < b.pools().len() implies (#[trigger] b.pools()[q]).wf() by {
                if q != p as int {
                    assert(b.pools()[q] == a.pools()[q]);
                }
            }
            assert forall|h: u32, s: u32| #[trigger] endpoint_exists(b.pools(), h, s) == endpoint_exists(a.pools(), h, s) by {
                if pool_has(a.pools(), h) {
                    let q = pool_index(a.pools(), h);
                    if q != p as int {
                        assert(b.pools()[q] == a.pools()[q]);
                    }
                }
            }
            assert forall|h: u32, s: u32| #[trigger] pool_load(b.pools(), h, s) == pool_load(a.pools(), h, s) - if h == g && s == sv { 1int } else { 0int } by {
                if h == g {
                    assert(b.pools()[p as int] == sb);
                    if s != sv {
                        assert(sb.count_of(s) == sa.count_of(s));
                    }
                } else if pool_has(a.pools(), h) {
                    let q = pool_index(a.pools(), h);
                    assert(q != p as int);
                    assert(b.pools()[q] == a.pools()[q]);
                }
            }
        }
    }

    /// Steps every connection of every record with what the caller
    /// observed for it (`observed[i][k]` for connection `k` of record `i`,
    /// in the shape `connection_tokens` gives), then reaps the connections
    /// that ended, in order, and releases each one's endpoint count exactly
    /// once. Connections that stay open keep their counts.
    pub fn handle_clients(&mut self, observed: &Vec<Vec<(Transfer, Transfer)>>) -> (r: Vec<Connection>)
        requires
            old(self).wf(),
            observed@.len() == old(self).clients().len(),
            forall|i: int| 0 <= i < observed@.len() ==> (#[trigger] observed@[i])@.len() == old(self).clients()[i].conns().len(),
        ensures
            final(self).wf(),
            final(self).pending() == old(self).pending(),
            final(self).pools().len() == old(self).pools().len(),
            forall|p: int| 0 <= p < old(self).pools().len() ==> #[trigger] final(self).pools()[p].spec_id() == old(self).pools()[p].spec_id(),
            forall|h: u32, sv: u32| #[trigger] endpoint_exists(final(self).pools(), h, sv) == endpoint_exists(old(self).pools(), h, sv),
            final(self).clients().len() == old(self).clients().len(),
            forall|i: int| 0 <= i < old(self).clients().len() ==> {
                &&& (#[trigger] final(self).clients()[i]).spec_email() == old(self).clients()[i].spec_email()
                &&& final(self).clients()[i].group() == old(self).clients()[i].group()
                &&& final(self).clients()[i].conns() == stepped_conns(old(self).clients()[i].conns(), observed@[i]@).filter(still_open())
            },
            r@ == reaped(old(self).clients(), observed@, old(self).clients().len() as int),
            forall|h: u32, sv: u32| #[trigger] pool_load(final(self).pools(), h, sv) + conns_to(r@, h, sv) == pool_load(old(self).pools(), h, sv),
    {
        let ghost a = *old(self);
        let mut out: Vec<Connection> = Vec::new();
        let mut i: usize = 0;
        while i < self.clients.len()
            invariant
                self.wf(),
                a == *old(self),
                a.wf(),
                self.pending() == a.pending(),
                self.clients@.len() == a.clients().len(),
                observed@.len() == a.clients().len(),
                forall|j: int| 0 <= j < observed@.len() ==> (#[trigger] observed@[j])@.len() == a.clients()[j].conns().len(),
                i <= a.clients().len(),
                self.pools().len() == a.pools().len(),
                forall|p: int| 0 <= p < a.pools().len() ==> #[trigger] self.pools()[p].spec_id() == a.pools()[p].spec_id(),
                forall|h: u32, sv: u32| #[trigger] endpoint_exists(self.pools(), h, sv) == endpoint_exists(a.pools(), h, sv),
                forall|j: int| 0 <= j < i ==> {
                    &&& (#[trigger] self.clients()[j]).spec_email() == a.clients()[j].spec_email()
                    &&& self.clients()[j].group() == a.clients()[j].group()
                    &&& self.clients()[j].conns() == stepped_conns(a.clients()[j].conns(), observed@[j]@).filter(still_open())
                },
                forall|j: int| i <= j < a.clients().len() ==> #[trigger] self.clients()[j] == a.clients()[j],
                out@ == reaped(a.clients(), observed@, i as int),
                forall|h: u32, sv: u32| #[trigger] pool_load(self.pools(), h, sv) + conns_to(out@, h, sv) == pool_load(a.pools(), h, sv),
            decreases a.clients().len() - i,
        {
            let ghost before = *self;
            let mut c = self.clients.remove(i);
            let ghost c0 = c;
            c.poll(&observed[i]);
            let ghost c1 = c;
            let mut removed = c.cleanup_connections();
            let ghost c2 = c;
            let ghost rem0 = removed@;
            self.clients.insert(i, c);
            let ghost mid = *self;
            proof {
                let obs = observed@[i as int]@;
                assert(c0 == a.clients()[i as int]);
                assert(c0 == before.clients()[i as int]);
                assert(c1.conns() =~= stepped_conns(c0.conns(), obs));
                assert(mid.clients() =~= before.clients().update(i as int, c2));
                assert forall|h: u32, sv: u32| #[trigger] live(mid.clients(), h, sv) + conns_to(rem0, h, sv) == live(before.clients(), h, sv) by {
                    lemma_live_update(before.clients(), i as int, c2, h, sv);
                    lemma_conns_to_same_targets(c0.conns(), c1.conns(), h, sv);
                    lemma_conns_to_split(c1.conns(), h, sv);
                }
                Self::lemma_same_client_ids(before, mid);
                assert forall|x1: int, y1: int|
                    0 <= x1 < y1 < mid.clients().len() implies #[trigger] mid.clients()[x1].spec_email()
                    != #[trigger] mid.clients()[y1].spec_email() by {
                    assert(before.clients()[x1].spec_email() != before.clients()[y1].spec_email());
                }
                assert forall|q: int| 0 <= q < mid.clients().len() implies (#[trigger] mid.clients()[q]).wf() by {
                    if q != i as int {
                        assert(mid.clients()[q] == before.clients()[q]);
                    }
                }
                // every kept or reaped connection is one of the stepped ones
                assert forall|m: int| 0 <= m < c1.conns().len() implies endpoint_exists(
                    mid.pools(),
                    (#[trigger] c1.conns()[m]).upstream_serv_group,
                    c1.conns()[m].upstream_serv_id,
                ) by {
                    assert(c1.conns()[m].upstream_serv_group == c0.conns()[m].upstream_serv_group);
                    assert(c0.conns()[m] == before.clients()[i as int].conns()[m]);
                }
                assert forall|cj: int, k: int|
                    0 <= cj < mid.clients().len() && 0 <= k < mid.clients()[cj].conns().len()
                    implies endpoint_exists(
                    mid.pools(),
                    (#[trigger] mid.clients()[cj].conns()[k]).upstream_serv_group,
                    mid.clients()[cj].conns()[k].upstream_serv_id,
                ) by {
                    if cj == i as int {
                        let cc = c2.conns()[k];
                        assert(c1.conns().filter(still_open()).contains(cc));
                        c1.conns().lemma_filter_contains_rev(still_open(), cc);
                        let m = choose|m: int| 0 <= m < c1.conns().len() && c1.conns()[m] == cc;
                        assert(endpoint_exists(mid.pools(), c1.conns()[m].upstream_serv_group, c1.conns()[m].upstream_serv_id));
                    } else {
                        assert(mid.clients()[cj] == before.clients()[cj]);
                    }
                }
                assert forall|k: int| 0 <= k < rem0.len() implies endpoint_exists(
                    mid.pools(),
                    (#[trigger] rem0[k]).upstream_serv_group,
                    rem0[k].upstream_serv_id,
                ) by {
                    let cc = rem0[k];
                    assert(c1.conns().filter(ended()).contains(cc));
                    c1.conns().lemma_filter_contains_rev(ended(), cc);
                    let m = choose|m: int| 0 <= m < c1.conns().len() && c1.conns()[m] == cc;
                    assert(endpoint_exists(mid.pools(), c1.conns()[m].upstream_serv_group, c1.conns()[m].upstream_serv_id));
                }
                lemma_loads_match_iff(before.clients(), before.pools());
                assert(rem0.subrange(0, rem0.len() as int) =~= rem0);
                assert(rem0.subrange(0, 0) =~= Seq::<Connection>::empty());
                assert(out@ + rem0.subrange(0, 0) =~= out@);
            }
            let ghost mut jj: int = 0;
            while removed.len() > 0
                invariant
                    a.wf(),
                    self.pending() == a.pending(),
                    self.clients() == mid.clients(),
                    records_wf(self.clients()),
                    pools_wf(self.pools()),
                    targets_known(self.clients(), self.pools()),
                    self.pools().len() == a.pools().len(),
                    forall|p: int| 0 <= p < a.pools().len() ==> #[trigger] self.pools()[p].spec_id() == a.pools()[p].spec_id(),
                    forall|h: u32, sv: u32| #[trigger] endpoint_exists(self.pools(), h, sv) == endpoint_exists(a.pools(), h, sv),
                    0 <= jj <= rem0.len(),
                    removed@ == rem0.subrange(jj, rem0.len() as int),
                    forall|k: int| 0 <= k < removed@.len() ==> endpoint_exists(
                        self.pools(),
                        (#[trigger] removed@[k]).upstream_serv_group,
                        removed@[k].upstream_serv_id,
                    ),
                    loads_match(self.clients(), self.pools(), removed@),
                    out@ == reaped(a.clients(), observed@, i as int) + rem0.subrange(0, jj),
                    forall|h: u32, sv: u32| #[trigger] pool_load(self.pools(), h, sv) + conns_to(out@, h, sv) == pool_load(a.pools(), h, sv),
                decreases removed@.len(),
            {
                let ghost rest0 = removed@;
                let x = removed.remove(0);
                let g = x.upstream_serv_group;
                let sv = x.upstream_serv_id;
                proof {
                    assert(rest0 =~= seq![x] + removed@);
                    assert forall|h: u32, s2: u32| #[trigger] conns_to(rest0, h, s2) == conns_to(removed@, h, s2) + if x.upstream_serv_group == h && x.upstream_serv_id == s2 { 1nat } else { 0nat } by {
                        lemma_conns_to_concat(seq![x], removed@, h, s2);
                        assert(seq![x].drop_last() =~= Seq::<Connection>::empty());
                        assert(seq![x].last() == x);
                        assert(conns_to(Seq::<Connection>::empty(), h, s2) == 0);
                    }
                    assert(endpoint_exists(self.pools(), g, sv));
                    assert(conns_to(rest0, g, sv) >= 1);
                }
                let ghost pre = *self;
                self.release(g, sv);
                proof {
                    lemma_conns_to_push(out@, x, g, sv);
                    assert forall|h: u32, s2: u32| #[trigger] conns_to(out@.push(x), h, s2) == conns_to(out@, h, s2) + if x.upstream_serv_group == h && x.upstream_serv_id == s2 { 1nat } else { 0nat } by {
                        lemma_conns_to_push(out@, x, h, s2);
                    }
                    assert forall|cj: int, k: int|
                        0 <= cj < self.clients().len() && 0 <= k < self.clients()[cj].conns().len()
                        implies endpoint_exists(
                        self.pools(),
                        (#[trigger] self.clients()[cj].conns()[k]).upstream_serv_group,
                        self.clients()[cj].conns()[k].upstream_serv_id,
                    ) by {
                        assert(endpoint_exists(pre.pools(), self.clients()[cj].conns()[k].upstream_serv_group, self.clients()[cj].conns()[k].upstream_serv_id));
                    }
                    assert forall|k: int| 0 <= k < removed@.len() implies endpoint_exists(
                        self.pools(),
                        (#[trigger] removed@[k]).upstream_serv_group,
                        removed@[k].upstream_serv_id,
                    ) by {
                        assert(removed@[k] == rest0[k + 1]);
                    }
                    assert(rem0.subrange(0, jj + 1) =~= rem0.subrange(0, jj).push(x));
                    jj = jj + 1;
                    assert(removed@ =~= rem0.subrange(jj, rem0.len() as int));
                }
                out.push(x);
            }
            proof {
                assert(jj == rem0.len());
                assert(rem0.subrange(0, jj) =~= rem0);
                assert(rem0 == stepped_conns(a.clients()[i as int].conns(), observed@[i as int]@).filter(ended()));
                assert(loads_match(self.clients(), self.pools(), Seq::<Connection>::empty())) by {
                    assert(removed@ =~= Seq::<Connection>::empty());
                }
                lemma_loads_match_iff(self.clients(), self.pools());
            }
            i = i + 1;
        }
        out
    }

    /// Polls the prober of every endpoint of every pool at second `now` and
    /// returns the probe I/O that is due, pool by pool and endpoint by
    /// endpoint. Only the probers change.
    pub fn handle_server_groups_at(&mut self, now: i64) -> (r: Vec<ProbeRequest>)
        requires
            old(self).wf(),
        ensures
            final(self).wf(),
            final(self).clients() == old(self).clients(),
            final(self).pending() == old(self).pending(),
            final(self).pools().len() == old(self).pools().len(),
            r@ == probe_requests(old(self).pools(), now as int, old(self).pools().len() as int),
            forall|p: int| 0 <= p < old(self).pools().len() ==> {
                &&& (#[trigger] final(self).pools()[p]).spec_id() == old(self).pools()[p].spec_id()
                &&& final(self).pools()[p].servers().len() == old(self).pools()[p].servers().len()
                &&& forall|j: int| 0 <= j < old(self).pools()[p].servers().len() ==> #[trigger] final(self).pools()[p].servers()[j]
                    == with_prober(old(self).pools()[p].servers()[j], old(self).pools()[p].servers()[j].prober.polled(now))
            },
            forall|h: u32, sv: u32| #[trigger] pool_load(final(self).pools(), h, sv) == pool_load(old(self).pools(), h, sv),
            forall|h: u32, sv: u32| #[trigger] endpoint_exists(final(self).pools(), h, sv) == endpoint_exists(old(self).pools(), h, sv),
    {
        let ghost a = *old(self);
        let mut out: Vec<ProbeRequest> = Vec::new();
        let mut p: usize = 0;
        while p < self.server_groups.len()
            invariant
                self.wf(),
                a == *old(self),
                a.wf(),
                self.clients() == a.clients(),
                self.pending() == a.pending(),
                self.pools().len() == a.pools().len(),
                p <= a.pools().len(),
                out@ == probe_requests(a.pools(), now as int, p as int),
                forall|q: int| 0 <= q < a.pools().len() ==> (#[trigger] self.pools()[q]).spec_id() == a.pools()[q].spec_id(),
                forall|q: int| 0 <= q < p ==> {
                    &&& (#[trigger] self.pools()[q]).servers().len() == a.pools()[q].servers().len()
                    &&& forall|j: int| 0 <= j < a.pools()[q].servers().len() ==> #[trigger] self.pools()[q].servers()[j]
                        == with_prober(a.pools()[q].servers()[j], a.pools()[q].servers()[j].prober.polled(now))
                },
                forall|q: int| p <= q < a.pools().len() ==> #[trigger] self.pools()[q] == a.pools()[q],
                forall|h: u32, sv: u32| #[trigger] pool_load(self.pools(), h, sv) == pool_load(a.pools(), h, sv),
                forall|h: u32, sv: u32| #[trigger] endpoint_exists(self.pools(), h, sv) == endpoint_exists(a.pools(), h, sv),
            decreases a.pools().len() - p,
        {
            let ghost before = *self;
            let mut sg = self.server_groups.remove(p);
            let ghost sa = sg;
            proof {
                assert(sa == before.pools()[p as int]);
                assert(sa == a.pools()[p as int]);
            }
            let reqs = sg.poll(now);
            let ghost sb = sg;
            let pid = sg.id();
            self.server_groups.insert(p, sg);
            let mut k: usize = 0;
            let ghost out0 = out@;
            while k < reqs.len()
                invariant
                    k <= reqs@.len(),
                    reqs@.len() == sa.servers().len(),
                    pid == sa.spec_id(),
                    forall|j: int| 0 <= j < reqs@.len() ==> #[trigger] reqs@[j] == (sa.servers()[j].id, sa.servers()[j].prober.due(now as int)),
                    out@ == out0 + pool_requests(sa, now as int).subrange(0, k as int),
                decreases reqs@.len() - k,
            {
                let (sid, action) = reqs[k];
                out.push(ProbeRequest { pool_id: pid, server_id: sid, action });
                proof {
                    assert(pool_requests(sa, now as int).subrange(0, k as int + 1) =~= pool_requests(sa, now as int).subrange(0, k as int).push(ProbeRequest { pool_id: pid, server_id: sid, action }));
                }
                k = k + 1;
            }
            proof {
                assert(pool_requests(sa, now as int).subrange(0, k as int) =~= pool_requests(sa, now as int));
                let b = *self;
                assert(b.pools() =~= before.pools().update(p as int, sb));
                ServerGroup::lemma_same_ids_and_counts(sa, sb);
                self.lemma_pool_replaced(before, p as int);
                assert forall|h: u32, sv: u32| #[trigger] pool_load(b.pools(), h, sv) == pool_load(before.pools(), h, sv) by {
                    if pool_has(before.pools(), h) {
                        let q = pool_index(before.pools(), h);
                        if q != p as int {
                            assert(b.pools()[q] == before.pools()[q]);
                        }
                    }
                }
                assert forall|h: u32, sv: u32| #[trigger] endpoint_exists(b.pools(), h, sv) == endpoint_exists(before.pools(), h, sv) by {
                    if pool_has(before.pools(), h) {
                        let q = pool_index(before.pools(), h);
                        if q != p as int {
                            assert(b.pools()[q] == before.pools()[q]);
                        }
                    }
                }
            }
            p = p + 1;
        }
        out
    }

    /// Reads the clock and polls every prober at that second (see
    /// `handle_server_groups_at`); returns the second it read with the
    /// probe I/O that is due.
    pub fn handle_server_groups(&mut self) -> (r: (i64, Vec<ProbeRequest>))
        requires
            old(self).wf(),
        ensures
            final(self).wf(),
            final(self).clients() == old(self).clients(),
            final(self).pending() == old(self).pending(),
            final(self).pools().len() == old(self).pools().len(),
            r.1@ == probe_requests(old(self).pools(), r.0 as int, old(self).pools().len() as int),
            forall|p: int| 0 <= p < old(self).pools().len() ==> {
                &&& (#[trigger] final(self).pools()[p]).spec_id() == old(self).pools()[p].spec_id()
                &&& final(self).pools()[p].servers().len() == old(self).pools()[p].servers().len()
                &&& forall|j: int| 0 <= j < old(self).pools()[p].servers().len() ==> #[trigger] final(self).pools()[p].servers()[j]
                    == with_prober(old(self).pools()[p].servers()[j], old(self).pools()[p].servers()[j].prober.polled(r.0))
            },
            forall|h: u32, sv: u32| #[trigger] pool_load(final(self).pools(), h, sv) == pool_load(old(self).pools(), h, sv),
            forall|h: u32, sv: u32| #[trigger] endpoint_exists(final(self).pools(), h, sv) == endpoint_exists(old(self).pools(), h, sv),
    {
        let now = unix_now();
        let reqs = self.handle_server_groups_at(now);
        (now, reqs)
    }

    /// Hands the prober of endpoint `server_id` of pool `pool_id` what the
    /// caller observed at second `now`. Nothing else changes, and nothing at
    /// all for an endpoint that does not exist.
    pub fn record_probe(&mut self, pool_id: u32, server_id: u32, now: i64, outcome: ProbeOutcome)
        requires
            old(self).wf(),
        ensures
            final(self).wf(),
            final(self).clients() == old(self).clients(),
            final(self).pending() == old(self).pending(),
            final(self).pools().len() == old(self).pools().len(),
            !endpoint_exists(old(self).pools(), pool_id, server_id) ==> final(self).pools() == old(self).pools(),
            endpoint_exists(old(self).pools(), pool_id, server_id) ==> {
                let p = pool_index(old(self).pools(), pool_id);
                let sa = old(self).pools()[p];
                let j = sa.index_of(server_id);
                &&& final(self).pools()[p].spec_id() == pool_id
                &&& final(self).pools()[p].servers() == sa.servers().update(j, with_prober(sa.servers()[j], sa.servers()[j].prober.recorded(now, outcome)))
                &&& forall|q: int| 0 <= q < old(self).pools().len() && q != p ==> #[trigger] final(self).pools()[q] == old(self).pools()[q]
            },
            forall|h: u32, sv: u32| #[trigger] pool_load(final(self).pools(), h, sv) == pool_load(old(self).pools(), h, sv),
            forall|h: u32, sv: u32| #[trigger] endpoint_exists(final(self).pools(), h, sv) == endpoint_exists(old(self).pools(), h, sv),
    {
        let ghost a = *old(self);
        let p = match self.find_pool(pool_id) {
            Some(p) => p,
            None => {
                return;
            },
        };
        proof {
            assert(self.pools()[p as int].wf());
        }
        if self.server_groups[p].get_server_address(&server_id).is_none() {
            return;
        }
        let mut sg = self.server_groups.remove(p);
        let ghost sa = sg;
        proof {
            assert(sa == a.pools()[p as int]);
        }
        sg.record_probe_at(server_id, now, outcome);
        let ghost sb = sg;
        self.server_groups.insert(p, sg);
        proof {
            let b = *self;
            assert(b.pools() =~= a.pools().update(p as int, sb));
            ServerGroup::lemma_same_ids_and_counts(sa, sb);
            self.lemma_pool_replaced(a, p as int);
            assert forall|h: u32, sv: u32| #[trigger] pool_load(b.pools(), h, sv) == pool_load(a.pools(), h, sv) by {
                if pool_has(a.pools(), h) {
                    let q = pool_index(a.pools(), h);
                    if q != p as int {
                        assert(b.pools()[q] == a.pools()[q]);
                    }
                }
            }
            assert forall|h: u32, sv: u32| #[trigger] endpoint_exists(b.pools(), h, sv) == endpoint_exists(a.pools(), h, sv) by {
                if pool_has(a.pools(), h) {
                    let q = pool_index(a.pools(), h);
                    if q != p as int {
                        assert(b.pools()[q] == a.pools()[q]);
                    }
                }
            }
        }
    }

    /// The pool with id `g`.
    pub fn server_group(&self, g: u32) -> (r: Option<&ServerGroup>)
        requires
            self.wf(),
        ensures
            match r {
                Some(sg) => pool_has(self.pools(), g) && *sg == self.pools()[pool_index(self.pools(), g)],
                None => !pool_has(self.pools(), g),
            },
    {
        match self.find_pool(g) {
            Some(p) => Some(&self.server_groups[p]),
            None => None,
        }
    }

    /// The record of identity `email`.
    pub fn client(&self, email: &String) -> (r: Option<&Client>)
        requires
            self.wf(),
        ensures
            match r {
                Some(c) => client_has(self.clients(), email@) && *c == self.clients()[client_index(self.clients(), email@)],
                None => !client_has(self.clients(), email@),
            },
    {
        match self.find_client(email) {
            Some(i) => Some(&self.clients[i]),
            None => None,
        }
    }

    /// The recorded count of endpoint `server_id` of pool `pool_id` (`None`:
    /// never used, or no such endpoint).
    pub fn active_count(&self, pool_id: u32, server_id: u32) -> (r: Option<usize>)
        requires
            self.wf(),
        ensures
            pool_has(self.pools(), pool_id) ==> r == self.pools()[pool_index(self.pools(), pool_id)].count_of(server_id),
            !pool_has(self.pools(), pool_id) ==> r is None,
    {
        match self.find_pool(pool_id) {
            Some(p) => {
                proof {
                    assert(self.pools()[p as int].wf());
                }
                self.server_groups[p].active_count(server_id)
            },
            None => None,
        }
    }

    /// The tokens of each record's connections, record by record, in order:
    /// the shape that `handle_clients` expects its observations in.
    pub fn connection_tokens(&self) -> (r: Vec<Vec<u64>>)
        ensures
            r@.len() == self.clients().len(),
            forall|i: int| 0 <= i < r@.len() ==> (#[trigger] r@[i])@.len() == self.clients()[i].conns().len(),
            forall|i: int, k: int| 0 <= i < r@.len() && 0 <= k < r@[i]@.len() ==> #[trigger] r@[i]@[k] == self.clients()[i].conns()[k].token,
    {
        let mut r: Vec<Vec<u64>> = Vec::new();
        let mut i: usize = 0;
        while i < self.clients.len()
            invariant
                i <= self.clients@.len(),
                r@.len() == i,
                forall|j: int| 0 <= j < i ==> (#[trigger] r@[j])@.len() == self.clients()[j].conns().len(),
                forall|j: int, k: int| 0 <= j < i && 0 <= k < r@[j]@.len() ==> #[trigger] r@[j]@[k] == self.clients()[j].conns()[k].token,
            decreases self.clients@.len() - i,
        {
            let cs = self.clients[i].connections();
            let mut t: Vec<u64> = Vec::new();
            let mut k: usize = 0;
            while k < cs.len()
                invariant
                    k <= cs@.len(),
                    t@.len() == k,
                    forall|m: int| 0 <= m < k ==> #[trigger] t@[m] == cs@[m].token,
                decreases cs@.len() - k,
            {
                t.push(cs[k].token);
                k = k + 1;
            }
            r.push(t);
            i = i + 1;
        }
        r
    }

    /// A new downstream connection whose sockets the caller names `token`
    /// starts its handshake.
    pub fn accept(&mut self, token: u64)
        requires
            old(self).wf(),
        ensures
            final(self).wf(),
            final(self).clients() == old(self).clients(),
            final(self).pools() == old(self).pools(),
            final(self).pending() == old(self).pending().push(
                PartialConnection { token, state: PartialConnState::INIT, email_address: None },
            ),
    {
        self.partial_conns.push(PartialConnection::new(token));
    }

    /// The tokens of the sessions in the handshake list, in order.
    pub fn pending_tokens(&self) -> (r: Vec<u64>)
        ensures
            r@.len() == self.pending().len(),
            forall|i: int| 0 <= i < r@.len() ==> #[trigger] r@[i] == self.pending()[i].token,
    {
        let mut r: Vec<u64> = Vec::new();
        let mut i: usize = 0;
        while i < self.partial_conns.len()
            invariant
                i <= self.partial_conns@.len(),
                r@.len() == i,
                forall|j: int| 0 <= j < i ==> #[trigger] r@[j] == self.partial_conns@[j].token,
            decreases self.partial_conns@.len() - i,
        {
            r.push(self.partial_conns[i].token);
            i = i + 1;
        }
        r
    }

    /// Drives every handshake one step with what the caller observed for
    /// it, in the order of the handshake list.
    pub fn handle_handshakes(&mut self, events: Vec<HandshakeEvent>)
        requires
            old(self).wf(),
            events@.len() == old(self).pending().len(),
        ensures
            final(self).wf(),
            final(self).clients() == old(self).clients(),
            final(self).pools() == old(self).pools(),
            final(self).pending().len() == old(self).pending().len(),
            forall|i: int|
                0 <= i < old(self).pending().len() ==> polled(
                    old(self).pending()[i],
                    #[trigger] final(self).pending()[i],
                    events@[i],
                ),
    {
        let mut events = events;
        let ghost evs = events@;
        let mut i: usize = 0;
        while i < self.partial_conns.len()
            invariant
                self.clients == old(self).clients,
                self.server_groups == old(self).server_groups,
                self.partial_conns@.len() == old(self).partial_conns@.len(),
                evs.len() == old(self).partial_conns@.len(),
                i <= self.partial_conns@.len(),
                events@ == evs.subrange(i as int, evs.len() as int),
                forall|j: int|
                    0 <= j < i ==> polled(
                        old(self).partial_conns@[j],
                        #[trigger] self.partial_conns@[j],
                        evs[j],
                    ),
                forall|j: int|
                    i <= j < self.partial_conns@.len() ==> #[trigger] self.partial_conns@[j]
                        == old(self).partial_conns@[j],
            decreases self.partial_conns@.len() - i,
        {
            let ev = events.remove(0);
            let mut c = self.partial_conns.remove(i);
            c.poll(ev);
            self.partial_conns.insert(i, c);
            proof {
                assert(events@ =~= evs.subrange(i as int + 1, evs.len() as int));
            }
            i = i + 1;
        }
    }

    /// What becomes of a session whose handshake is over, decided on the
    /// engine as it is now: the least-loaded healthy endpoint of the
    /// identity's pool is chosen afresh, so a session planned after another
    /// one's promotion sees that promotion's count.
    pub fn plan(&self, c: &PartialConnection) -> (r: Disposition)
        requires
            self.wf(),
            is_finished(*c),
        ensures
            self.disposition_of(*c, r),
    {
        if !c.is_completed() {
            return Disposition::Failed;
        }
        let e = match &c.email_address {
            Some(e) => e,
            None => {
                return Disposition::UnknownIdentity;
            },
        };
        let ci = match self.find_client(e) {
            Some(ci) => ci,
            None => {
                return Disposition::UnknownIdentity;
            },
        };
        let g = self.clients[ci].get_server_group();
        let p = match self.find_pool(g) {
            Some(p) => p,
            None => {
                return Disposition::NoPool;
            },
        };
        let sg = &self.server_groups[p];
        proof {
            assert(sg.wf());
        }
        match sg.find_min_and_healthy() {
            None => Disposition::NoHealthyUpstream,
            Some(sid) => {
                proof {
                    let us = sg.servers();
                    let i = choose|i: int| server::least_at(us, |u: Upstream| eligible(true, u), i) && us[i].id == sid;
                    assert(sg.servers()[i].id == sid);
                    assert(sg.has(sid));
                }
                match sg.get_server_address(&sid) {
                    Some(a) => Disposition::Connect { pool_id: g, server_id: sid, address: a.clone() },
                    None => Disposition::NoHealthyUpstream,
                }
            },
        }
    }

    /// Takes every session whose handshake is over out of the handshake
    /// list and hands it back, none dropped: latest accepted first, the
    /// order in which they are to be planned and promoted one at a time.
    /// The sessions still handshaking stay, in order.
    pub fn handle_partial_connections(&mut self) -> (r: Vec<PartialConnection>)
        requires
            old(self).wf(),
        ensures
            final(self).wf(),
            final(self).clients() == old(self).clients(),
            final(self).pools() == old(self).pools(),
            final(self).pending() == old(self).pending().filter(in_handshake()),
            r@.len() == old(self).pending().filter(finished()).len(),
            forall|k: int|
                0 <= k < r@.len() ==> #[trigger] r@[k] == old(self).pending().filter(
                    finished(),
                )[r@.len() - 1 - k],
    {
        let mut rest: Vec<PartialConnection> = Vec::new();
        std::mem::swap(&mut rest, &mut self.partial_conns);
        let ghost orig = rest@;
        let mut kept: Vec<PartialConnection> = Vec::new();
        let mut out: Vec<PartialConnection> = Vec::new();
        let ghost mut i: int = 0;
        proof {
            reveal(Seq::filter);
            assert(orig.subrange(0, 0) =~= Seq::<PartialConnection>::empty());
            assert(rest@ =~= orig.subrange(0, orig.len() as int));
        }
        while rest.len() > 0
            invariant
                self.clients == old(self).clients,
                self.server_groups == old(self).server_groups,
                old(self).wf(),
                orig == old(self).partial_conns@,
                0 <= i <= orig.len(),
                rest@ == orig.subrange(i, orig.len() as int),
                kept@ == orig.subrange(0, i).filter(in_handshake()),
                out@ == orig.subrange(0, i).filter(finished()),
            decreases rest@.len(),
        {
            let c = rest.remove(0);
            proof {
                reveal(Seq::filter);
                assert(c == orig[i]);
                assert(orig.subrange(0, i + 1).drop_last() =~= orig.subrange(0, i));
                assert(orig.subrange(0, i + 1).last() == orig[i]);
            }
            let ghost prev = orig.subrange(0, i).filter(finished());
            if let PartialConnState::INIT = c.state {
                kept.push(c);
            } else {
                out.push(c);
                proof {
                    assert(orig.subrange(0, i + 1).filter(finished()) == prev.push(c));
                }
            }
            proof {
                i = i + 1;
                assert(rest@ =~= orig.subrange(i, orig.len() as int));
            }
        }
        proof {
            assert(orig.subrange(0, i) =~= orig);
        }
        self.partial_conns = kept;
        let ghost fwd = out@;
        let ghost n = fwd.len();
        let mut rev: Vec<PartialConnection> = Vec::new();
        while out.len() > 0
            invariant
                fwd.len() == n,
                out@.len() + rev@.len() == n,
                out@ == fwd.subrange(0, out@.len() as int),
                forall|k: int| 0 <= k < rev@.len() ==> #[trigger] rev@[k] == fwd[n - 1 - k],
            decreases out@.len(),
        {
            let f = out.pop().unwrap();
            rev.push(f);
            proof {
                assert(out@ =~= fwd.subrange(0, out@.len() as int));
            }
        }
        rev
    }

    /// Registers an identity and the pool it may use. An identity that is
    /// already registered is left as it is, and `false` is returned.
    pub fn add_client(&mut self, email: String, allowed_server_group: u32) -> (r: bool)
        requires
            old(self).wf(),
        ensures
            final(self).wf(),
            r == !client_has(old(self).clients(), email@),
            final(self).pools() == old(self).pools(),
            final(self).pending() == old(self).pending(),
            !r ==> final(self).clients() == old(self).clients(),
            r ==> {
                &&& final(self).clients().len() == old(self).clients().len() + 1
                &&& final(self).clients().drop_last() == old(self).clients()
                &&& final(self).clients().last().spec_email() == email@
                &&& final(self).clients().last().group() == allowed_server_group
                &&& final(self).clients().last().conns() == Seq::<crate::client::Connection>::empty()
                &&& final(self).clients().last().count() == 0
            },
    {
        if self.find_client(&email).is_some() {
            return false;
        }
        let c = Client::new(email, allowed_server_group);
        self.clients.push(c);
        proof {
            let a = *old(self);
            let b = *self;
            assert(b.clients().drop_last() =~= a.clients());
            assert forall|i: int, j: int|
                0 <= i < j < b.clients().len() implies #[trigger] b.clients()[i].spec_email()
                != #[trigger] b.clients()[j].spec_email() by {
                if j < a.clients().len() {
                    assert(a.clients()[i].spec_email() != a.clients()[j].spec_email());
                } else {
                    assert(b.clients()[i] == a.clients()[i]);
                }
            }
            assert forall|ci: int, k: int|
                0 <= ci < b.clients().len() && 0 <= k < b.clients()[ci].conns().len()
                implies endpoint_exists(b.pools(), 
                (#[trigger] b.clients()[ci].conns()[k]).upstream_serv_group,
                b.clients()[ci].conns()[k].upstream_serv_id,
            ) by {
                assert(ci < a.clients().len());
                assert(b.clients()[ci] == a.clients()[ci]);
            }
            assert forall|p: int, sv: u32|
                0 <= p < b.pools().len() && #[trigger] b.pools()[p].has(sv)
                implies b.pools()[p].load_of(sv) == live(b.clients(), b.pools()[p].spec_id(), sv) by {
                lemma_live_push(a.clients(), c, b.pools()[p].spec_id(), sv);
            }
        }
        true
    }

    /// Adds endpoint `serv_id` at `addr` to pool `group`, creating the pool
    /// when it does not exist yet. An endpoint that is already there gets
    /// the new address and a fresh prober and keeps its count.
    pub fn add_server(&mut self, group: u32, serv_id: u32, addr: String)
        requires
            old(self).wf(),
        ensures
            final(self).wf(),
            final(self).clients() == old(self).clients(),
            final(self).pending() == old(self).pending(),
            pool_has(final(self).pools(), group),
            endpoint_exists(final(self).pools(), group, serv_id),
            forall|g: u32, sv: u32| #[trigger] pool_load(final(self).pools(), g, sv) == pool_load(old(self).pools(), g, sv),
            forall|g: u32| #[trigger] pool_has(final(self).pools(), g) == (pool_has(old(self).pools(), g) || g == group),
            forall|g: u32, sv: u32| #[trigger] endpoint_exists(final(self).pools(), g, sv) == (endpoint_exists(old(self).pools(), g, sv) || (g == group && sv == serv_id)),
            endpoint(final(self).pools(), group, serv_id).address == addr,
            endpoint(final(self).pools(), group, serv_id).active == if endpoint_exists(old(self).pools(), group, serv_id) {
                endpoint(old(self).pools(), group, serv_id).active
            } else {
                None
            },
            forall|g: u32, sv: u32|
                endpoint_exists(old(self).pools(), g, sv) && !(g == group && sv == serv_id)
                    ==> #[trigger] endpoint(final(self).pools(), g, sv) == endpoint(old(self).pools(), g, sv),
    {
        let ghost a = *old(self);
        match self.find_pool(group) {
            Some(p) => {
                let mut sg = self.server_groups.remove(p);
                let ghost sa = sg;
                sg.add_server(serv_id, addr);
                let ghost sb = sg;
                self.server_groups.insert(p, sg);
                proof {
                    let b = *self;
                    assert(b.pools() =~= a.pools().update(p as int, sb));
                    assert(sa == a.pools()[p as int]);
                    Self::lemma_same_pool_ids(a, b);
                    if sa.has(serv_id) {
                        let j = sa.index_of(serv_id);
                        ServerGroup::lemma_update_one(sa, sb, j, sb.servers()[j]);
                    } else {
                        ServerGroup::lemma_push_one(sa, sb, sb.servers().last());
                        assert(!endpoint_exists(a.pools(), group, serv_id));
                        assert forall|ci: int, k: int|
                            0 <= ci < a.clients().len() && 0 <= k < a.clients()[ci].conns().len()
                            implies !((#[trigger] a.clients()[ci].conns()[k]).upstream_serv_group == group
                            && a.clients()[ci].conns()[k].upstream_serv_id == serv_id) by {
                            assert(endpoint_exists(a.pools(), 
                                a.clients()[ci].conns()[k].upstream_serv_group,
                                a.clients()[ci].conns()[k].upstream_serv_id,
                            ));
                        }
                        lemma_live_none(a.clients(), group, serv_id);
                    }
                    self.lemma_pool_replaced(a, p as int);
                    assert forall|g: u32, sv: u32| #[trigger] pool_load(self.pools(), g, sv) == pool_load(a.pools(), g, sv) by {
                        if g == group {
                            assert(pool_index(self.pools(), g) == p as int);
                            if sv != serv_id {
                                assert(sb.count_of(sv) == sa.count_of(sv));
                            } else if sa.has(serv_id) {
                                assert(sb.count_of(sv) == sa.count_of(sv));
                            } else {
                                assert(sb.count_of(sv) == sb.servers().last().active);
                            }
                            assert(self.pools()[p as int] == sb);
                        } else if pool_has(a.pools(), g) {
                            let q = pool_index(a.pools(), g);
                            assert(q != p as int);
                            assert(self.pools()[q] == a.pools()[q]);
                        }
                    }
                    assert forall|g: u32, sv: u32| #[trigger] endpoint_exists(self.pools(), g, sv) == (endpoint_exists(a.pools(), g, sv) || (g == group && sv == serv_id)) by {
                        if g == group {
                            assert(self.pools()[p as int] == sb);
                        } else if pool_has(a.pools(), g) {
                            let q = pool_index(a.pools(), g);
                            assert(q != p as int);
                            assert(self.pools()[q] == a.pools()[q]);
                        }
                    }
                }
            },
            None => {
                let mut sg = ServerGroup::new(group);
                let ghost sa = sg;
                sg.add_server(serv_id, addr);
                let ghost sb = sg;
                self.server_groups.push(sg);
                proof {
                    let b = *self;
                    assert(b.pools().drop_last() =~= a.pools());
                    ServerGroup::lemma_push_one(sa, sb, sb.servers().last());
                    assert forall|ci: int, k: int|
                        0 <= ci < a.clients().len() && 0 <= k < a.clients()[ci].conns().len()
                        implies !((#[trigger] a.clients()[ci].conns()[k]).upstream_serv_group == group
                        && a.clients()[ci].conns()[k].upstream_serv_id == serv_id) by {
                        assert(endpoint_exists(a.pools(), 
                            a.clients()[ci].conns()[k].upstream_serv_group,
                            a.clients()[ci].conns()[k].upstream_serv_id,
                        ));
                    }
                    lemma_live_none(a.clients(), group, serv_id);
                    self.lemma_pool_added(a);
                    assert forall|g: u32, sv: u32| #[trigger] pool_load(self.pools(), g, sv) == pool_load(a.pools(), g, sv) by {
                        if g == group {
                            assert(pool_index(self.pools(), g) == a.pools().len());
                            assert(!sa.has(sv));
                            assert(self.pools()[a.pools().len() as int] == sb);
                        } else if pool_has(a.pools(), g) {
                            let q = pool_index(a.pools(), g);
                            assert(self.pools()[q] == a.pools()[q]);
                        }
                    }
                    assert forall|g: u32, sv: u32| #[trigger] endpoint_exists(self.pools(), g, sv) == (endpoint_exists(a.pools(), g, sv) || (g == group && sv == serv_id)) by {
                        if g == group {
                            assert(pool_index(self.pools(), g) == a.pools().len());
                            assert(self.pools()[a.pools().len() as int] == sb);
                        } else if pool_has(a.pools(), g) {
                            let q = pool_index(a.pools(), g);
                            assert(self.pools()[q] == a.pools()[q]);
                        }
                    }
                }
            },
        }
    }

    fn find_client(&self, email: &String) -> (r: Option<usize>)
        requires
            self.records_wf(),
        ensures
            match r {
                Some(i) => {
                    &&& client_has(self.clients(), email@)
                    &&& i < self.clients().len()
                    &&& i as int == client_index(self.clients(), email@)
                    &&& self.clients()[i as int].spec_email() == email@
                },
                None => !client_has(self.clients(), email@),
            },
    {
        let mut i: usize = 0;
        while i < self.clients.len()
            invariant
                self.records_wf(),
                i <= self.clients@.len(),
                forall|j: int| 0 <= j < i ==> #[trigger] self.clients@[j].spec_email() != email@,
            decreases self.clients@.len() - i,
        {
            if self.clients[i].email().eq(email) {
                proof {
                    assert(self.clients()[i as int].spec_email() == email@);
                    let k = client_index(self.clients(), email@);
                    if k > i as int {
                        assert(self.clients()[i as int].spec_email() != self.clients()[k].spec_email());
                    }
                }
                return Some(i);
            }
            i = i + 1;
        }
        None
    }

    fn find_pool(&self, g: u32) -> (r: Option<usize>)
        requires
            self.pools_wf(),
        ensures
            match r {
                Some(p) => {
                    &&& pool_has(self.pools(), g)
                    &&& p < self.pools().len()
                    &&& p as int == pool_index(self.pools(), g)
                    &&& self.pools()[p as int].spec_id() == g
                },
                None => !pool_has(self.pools(), g),
            },
    {
        let mut i: usize = 0;
        while i < self.server_groups.len()
            invariant
                self.pools_wf(),
                i <= self.server_groups@.len(),
                forall|j: int| 0 <= j < i ==> #[trigger] self.server_groups@[j].spec_id() != g,
            decreases self.server_groups@.len() - i,
        {
            if self.server_groups[i].id() == g {
                proof {
                    let k = pool_index(self.pools(), g);
                    if k > i as int {
                        assert(self.pools()[i as int].spec_id() != self.pools()[k].spec_id());
                    }
                }
                return Some(i);
            }
            i = i + 1;
        }
        None
    }
}

} // verus!
