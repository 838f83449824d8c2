//! A pool of interchangeable upstream endpoints: per-endpoint connection
//! counts, least-connections selection among healthy endpoints, and the
//! endpoints' health probers.

use vstd::prelude::*;

use crate::health::{HealthChecker, ProbeAction, ProbeOutcome};

verus! {

/// One endpoint of a pool. `active` is `None` until a connection was first
/// recorded against the endpoint.
pub struct Upstream {
    pub id: u32,
    pub address: String,
    pub active: Option<usize>,
    pub prober: HealthChecker,
}

/// The rank used for selection: a never-used endpoint ranks below every
/// recorded count.
pub open spec fn rank(u: Upstream) -> int {
    match u.active {
        Some(c) => c as int,
        None => -1,
    }
}

/// The number of connections recorded against an endpoint; missing means zero.
pub open spec fn load(u: Upstream) -> nat {
    match u.active {
        Some(c) => c as nat,
        None => 0,
    }
}

/// `i` is the earliest position among those allowed by `ok` whose rank is
/// the smallest.
pub open spec fn least_at(us: Seq<Upstream>, ok: spec_fn(Upstream) -> bool, i: int) -> bool {
    &&& 0 <= i < us.len()
    &&& ok(us[i])
    &&& forall|j: int| 0 <= j < us.len() && ok(#[trigger] us[j]) ==> rank(us[i]) <= rank(us[j])
    &&& forall|j: int| 0 <= j < i && ok(#[trigger] us[j]) ==> rank(us[i]) < rank(us[j])
}

/// What selection returns over `us` among the endpoints allowed by `ok`.
pub open spec fn selected(us: Seq<Upstream>, ok: spec_fn(Upstream) -> bool, r: Option<u32>) -> bool {
    match r {
        Some(id) => exists|i: int| least_at(us, ok, i) && us[i].id == id,
        None => forall|j: int| 0 <= j < us.len() ==> !ok(#[trigger] us[j]),
    }
}

/// `u` with its recorded count replaced.
pub open spec fn with_active(u: Upstream, a: Option<usize>) -> Upstream {
    Upstream { active: a, ..u }
}

/// `u` with its prober replaced.
pub open spec fn with_prober(u: Upstream, p: HealthChecker) -> Upstream {
    Upstream { prober: p, ..u }
}

/// The prober that a newly added endpoint starts with.
pub open spec fn fresh_prober(id: u32, address: String) -> HealthChecker {
    HealthChecker {
        server_id: id,
        address: address,
        ping_state: crate::health::PingState::Idle(0),
        healthy: true,
    }
}

/// Selection may pick any endpoint, or only the healthy ones.
pub open spec fn eligible(healthy_only: bool, u: Upstream) -> bool {
    healthy_only ==> u.prober.healthy
}

pub struct ServerGroup {
    id: u32,
    servers: Vec<Upstream>,
}

impl ServerGroup {
    pub closed spec fn spec_id(self) -> u32 {
        self.id
    }

    /// The endpoints in the order they were added.
    pub closed spec fn servers(self) -> Seq<Upstream> {
        self.servers@
    }

    /// Endpoint ids are unique within the pool.
    pub open spec fn wf(self) -> bool {
        forall|i: int, j: int|
            0 <= i < j < self.servers().len() ==> #[trigger] self.servers()[i].id
                != #[trigger] self.servers()[j].id
    }

    pub open spec fn has(self, id: u32) -> bool {
        exists|i: int| 0 <= i < self.servers().len() && #[trigger] self.servers()[i].id == id
    }

    /// The position of endpoint `id`, when `has(id)`.
    pub open spec fn index_of(self, id: u32) -> int {
        choose|i: int| 0 <= i < self.servers().len() && #[trigger] self.servers()[i].id == id
    }

    /// The recorded count of endpoint `id` (`None`: never used, or no such endpoint).
    pub open spec fn count_of(self, id: u32) -> Option<usize> {
        if self.has(id) {
            self.servers()[self.index_of(id)].active
        } else {
            None
        }
    }

    pub open spec fn load_of(self, id: u32) -> nat {
        match self.count_of(id) {
            Some(c) => c as nat,
            None => 0,
        }
    }

    /// The endpoints after recording one more connection against `id`.
    pub open spec fn acquired(self, id: u32) -> Seq<Upstream> {
        if self.has(id) {
            let i = self.index_of(id);
            self.servers().update(
                i,
                with_active(self.servers()[i], Some((load(self.servers()[i]) + 1) as usize)),
            )
        } else {
            self.servers()
        }
    }

    /// The endpoints after releasing one connection of `id`; a count that is
    /// already zero, or was never recorded, stays as it is.
    pub open spec fn released(self, id: u32) -> Seq<Upstream> {
        if self.has(id) && self.load_of(id) > 0 {
            let i = self.index_of(id);
            self.servers().update(
                i,
                with_active(self.servers()[i], Some((load(self.servers()[i]) - 1) as usize)),
            )
        } else {
            self.servers()
        }
    }

    pub fn new(id: u32) -> (r: Self)
        ensures
            r.wf(),
            r.spec_id() == id,
            r.servers() == Seq::<Upstream>::empty(),
    {
        ServerGroup { id, servers: Vec::new() }
    }

    pub fn id(&self) -> (r: u32)
        ensures
            r == self.spec_id(),
    {
        self.id
    }

    /// Adds endpoint `id` at `address` with a fresh prober. An endpoint that
    /// is already there gets the new address and a fresh prober and keeps
    /// its count.
    pub fn add_server(&mut self, serv_id: u32, addr: String)
        requires
            old(self).wf(),
        ensures
            final(self).wf(),
            final(self).spec_id() == old(self).spec_id(),
            old(self).has(serv_id) ==> final(self).servers() == old(self).servers().update(
                old(self).index_of(serv_id),
                Upstream {
                    id: serv_id,
                    address: addr,
                    active: old(self).servers()[old(self).index_of(serv_id)].active,
                    prober: fresh_prober(serv_id, addr),
                },
            ),
            !old(self).has(serv_id) ==> final(self).servers() == old(self).servers().push(
                Upstream {
                    id: serv_id,
                    address: addr,
                    active: None,
                    prober: fresh_prober(serv_id, addr),
                },
            ),
    {
        let prober = HealthChecker::new(serv_id, addr.clone());
        match self.find(serv_id) {
            Some(i) => {
                let old_u = self.servers.remove(i);
                let u = Upstream { id: serv_id, address: addr, active: old_u.active, prober };
                self.servers.insert(i, u);
                proof {
                    assert(self.servers@ =~= old(self).servers@.update(i as int, u));
                    assert forall|a: int, b: int|
                        0 <= a < b < self.servers().len() implies #[trigger] self.servers()[a].id
                        != #[trigger] self.servers()[b].id by {
                        assert(old(self).servers()[a].id != old(self).servers()[b].id);
                    }
                }
            },
            None => {
                let u = Upstream { id: serv_id, address: addr, active: None, prober };
                self.servers.push(u);
                proof {
                    assert forall|a: int, b: int|
                        0 <= a < b < self.servers().len() implies #[trigger] self.servers()[a].id
                        != #[trigger] self.servers()[b].id by {
                        if b < old(self).servers().len() {
                            assert(old(self).servers()[a].id != old(self).servers()[b].id);
                        } else {
                            assert(old(self).servers()[a].id == self.servers()[a].id);
                        }
                    }
                }
            },
        }
    }

    /// Records one more connection against endpoint `id` (a first one sets
    /// the count to 1). An id that is not an endpoint changes nothing.
    pub fn add_connection(&mut self, id: &u32)
        requires
            old(self).wf(),
            old(self).load_of(*id) < usize::MAX,
        ensures
            final(self).wf(),
            final(self).spec_id() == old(self).spec_id(),
            final(self).servers() == old(self).acquired(*id),
    {
        if let Some(i) = self.find(*id) {
            let mut u = self.servers.remove(i);
            u.active = match u.active {
                Some(c) => Some(c + 1),
                None => Some(1),
            };
            self.servers.insert(i, u);
            proof {
                assert(self.servers@ =~= old(self).acquired(*id));
                assert forall|a: int, b: int|
                    0 <= a < b < self.servers().len() implies #[trigger] self.servers()[a].id
                    != #[trigger] self.servers()[b].id by {
                    assert(old(self).servers()[a].id != old(self).servers()[b].id);
                }
            }
        }
    }

    /// Releases one connection of endpoint `id`; the count saturates at zero.
    pub fn remove_connection(&mut self, id: &u32)
        requires
            old(self).wf(),
        ensures
            final(self).wf(),
            final(self).spec_id() == old(self).spec_id(),
            final(self).servers() == old(self).released(*id),
    {
        if let Some(i) = self.find(*id) {
            if let Some(c) = self.servers[i].active {
                if c > 0 {
                    let mut u = self.servers.remove(i);
                    u.active = Some(c - 1);
                    self.servers.insert(i, u);
                    proof {
                        assert(self.servers@ =~= old(self).released(*id));
                        assert forall|a: int, b: int|
                            0 <= a < b < self.servers().len() implies #[trigger] self.servers()[a].id
                            != #[trigger] self.servers()[b].id by {
                            assert(old(self).servers()[a].id != old(self).servers()[b].id);
                        }
                    }
                }
            }
        }
    }

    /// The address of endpoint `serv_id`.
    pub fn get_server_address(&self, serv_id: &u32) -> (r: Option<&String>)
        requires
            self.wf(),
        ensures
            match r {
                Some(a) => self.has(*serv_id) && *a == self.servers()[self.index_of(*serv_id)].address,
                None => !self.has(*serv_id),
            },
    {
        match self.find(*serv_id) {
            Some(i) => Some(&self.servers[i].address),
            None => None,
        }
    }

    /// The recorded count of endpoint `id`; `None` when no connection was
    /// ever recorded against it, or when it is not an endpoint.
    pub fn active_count(&self, id: u32) -> (r: Option<usize>)
        requires
            self.wf(),
        ensures
            r == self.count_of(id),
    {
        match self.find(id) {
            Some(i) => self.servers[i].active,
            None => None,
        }
    }

    /// The prober of endpoint `id`.
    pub fn prober(&self, id: u32) -> (r: Option<&HealthChecker>)
        requires
            self.wf(),
        ensures
            match r {
                Some(h) => self.has(id) && *h == self.servers()[self.index_of(id)].prober,
                None => !self.has(id),
            },
    {
        match self.find(id) {
            Some(i) => Some(&self.servers[i].prober),
            None => None,
        }
    }

    /// Whether endpoint `id` exists and its last probe found it healthy.
    pub fn is_server_healthy(&self, id: u32) -> (r: bool)
        requires
            self.wf(),
        ensures
            r == (self.has(id) && self.servers()[self.index_of(id)].prober.healthy),
    {
        match self.find(id) {
            Some(i) => self.servers[i].prober.is_healthy(),
            None => false,
        }
    }

    /// The least-loaded endpoint: a never-used one if there is any, else
    /// one with the smallest count; the earliest added wins a tie. `None`
    /// only for an empty pool.
    pub fn find_min(&self) -> (r: Option<u32>)
        ensures
            selected(self.servers(), |u: Upstream| eligible(false, u), r),
    {
        self.pick(false)
    }

    /// As `find_min`, among the endpoints whose last probe found them
    /// healthy. `None` when no endpoint is healthy.
    pub fn find_min_and_healthy(&self) -> (r: Option<u32>)
        ensures
            selected(self.servers(), |u: Upstream| eligible(true, u), r),
    {
        self.pick(true)
    }

    fn pick(&self, healthy_only: bool) -> (r: Option<u32>)
        ensures
            selected(self.servers(), |u: Upstream| eligible(healthy_only, u), r),
    {
        let ghost us = self.servers();
        let ghost ok = |u: Upstream| eligible(healthy_only, u);
        let mut best: Option<usize> = None;
        let mut best_rank: i128 = 0;
        let mut i: usize = 0;
        while i < self.servers.len()
            invariant
                us == self.servers(),
                ok == (|u: Upstream| eligible(healthy_only, u)),
                i <= us.len(),
                best is None ==> forall|j: int| 0 <= j < i ==> !ok(#[trigger] us[j]),
                best matches Some(b) ==> {
                    &&& b < i
                    &&& ok(us[b as int])
                    &&& rank(us[b as int]) == best_rank
                    &&& forall|j: int| 0 <= j < i && ok(#[trigger] us[j]) ==> rank(us[b as int]) <= rank(us[j])
                    &&& forall|j: int| 0 <= j < b && ok(#[trigger] us[j]) ==> rank(us[b as int]) < rank(us[j])
                },
            decreases us.len() - i,
        {
            let u = &self.servers[i];
            if !healthy_only || u.prober.healthy {
                let r: i128 = match u.active {
                    Some(c) => c as i128,
                    None => -1,
                };
                let better = match best {
                    None => true,
                    Some(_) => r < best_rank,
                };
                if better {
                    best = Some(i);
                    best_rank = r;
                }
            }
            i = i + 1;
        }
        match best {
            Some(b) => {
                assert(least_at(us, ok, b as int));
                Some(self.servers[b].id)
            },
            None => None,
        }
    }

    /// Polls every endpoint's prober at second `now`, in the order the
    /// endpoints were added, and returns each endpoint's id with the I/O
    /// that is due for it.
    pub fn poll(&mut self, now: i64) -> (r: Vec<(u32, ProbeAction)>)
        requires
            old(self).wf(),
        ensures
            final(self).wf(),
            final(self).spec_id() == old(self).spec_id(),
            final(self).servers().len() == old(self).servers().len(),
            r@.len() == old(self).servers().len(),
            forall|j: int|
                0 <= j < r@.len() ==> #[trigger] r@[j] == (
                    old(self).servers()[j].id,
                    old(self).servers()[j].prober.due(now as int),
                ),
            forall|j: int|
                0 <= j < old(self).servers().len() ==> #[trigger] final(self).servers()[j]
                    == with_prober(old(self).servers()[j], old(self).servers()[j].prober.polled(now)),
    {
        let mut out: Vec<(u32, ProbeAction)> = Vec::new();
        let mut i: usize = 0;
        while i < self.servers.len()
            invariant
                self.id == old(self).id,
                self.servers@.len() == old(self).servers@.len(),
                i <= self.servers@.len(),
                out@.len() == i,
                forall|j: int|
                    0 <= j < i ==> #[trigger] out@[j] == (
                        old(self).servers()[j].id,
                        old(self).servers()[j].prober.due(now as int),
                    ),
                forall|j: int|
                    0 <= j < i ==> #[trigger] self.servers@[j] == with_prober(
                        old(self).servers()[j],
                        old(self).servers()[j].prober.polled(now),
                    ),
                forall|j: int| i <= j < self.servers@.len() ==> #[trigger] self.servers@[j] == old(self).servers()[j],
            decreases self.servers@.len() - i,
        {
            let mut u = self.servers.remove(i);
            let action = u.prober.poll(now);
            out.push((u.id, action));
            self.servers.insert(i, u);
            i = i + 1;
        }
        proof {
            assert forall|a: int, b: int|
                0 <= a < b < self.servers().len() implies #[trigger] self.servers()[a].id
                != #[trigger] self.servers()[b].id by {
                assert(old(self).servers()[a].id != old(self).servers()[b].id);
            }
        }
        out
    }

    /// Hands endpoint `id`'s prober what its caller observed at second
    /// `now`. An id that is not an endpoint changes nothing.
    pub fn record_probe_at(&mut self, id: u32, now: i64, outcome: ProbeOutcome)
        requires
            old(self).wf(),
        ensures
            final(self).wf(),
            final(self).spec_id() == old(self).spec_id(),
            old(self).has(id) ==> final(self).servers() == old(self).servers().update(
                old(self).index_of(id),
                with_prober(
                    old(self).servers()[old(self).index_of(id)],
                    old(self).servers()[old(self).index_of(id)].prober.recorded(now, outcome),
                ),
            ),
            !old(self).has(id) ==> final(self).servers() == old(self).servers(),
    {
        if let Some(i) = self.find(id) {
            let mut u = self.servers.remove(i);
            u.prober.record(now, outcome);
            self.servers.insert(i, u);
            proof {
                assert(self.servers@ =~= old(self).servers@.update(i as int, u));
                assert forall|a: int, b: int|
                    0 <= a < b < self.servers().len() implies #[trigger] self.servers()[a].id
                    != #[trigger] self.servers()[b].id by {
                    assert(old(self).servers()[a].id != old(self).servers()[b].id);
                }
            }
        }
    }

    /// Replacing one endpoint by one with the same id leaves every other
    /// endpoint's presence and count as they were.
    pub proof fn lemma_update_one(a: Self, b: Self, j: int, u: Upstream)
        requires
            a.wf(),
            0 <= j < a.servers().len(),
            u.id == a.servers()[j].id,
            b.servers() == a.servers().update(j, u),
        ensures
            b.wf(),
            forall|s: u32| #[trigger] b.has(s) == a.has(s),
            b.index_of(u.id) == j,
            b.count_of(u.id) == u.active,
            forall|s: u32| s != u.id ==> #[trigger] b.count_of(s) == a.count_of(s),
            forall|s: u32| s != u.id && b.has(s) ==> #[trigger] b.servers()[b.index_of(s)] == a.servers()[a.index_of(s)],
    {
        assert forall|x: int, y: int|
            0 <= x < y < b.servers().len() implies #[trigger] b.servers()[x].id
            != #[trigger] b.servers()[y].id by {
            assert(a.servers()[x].id != a.servers()[y].id);
        }
        assert forall|s: u32| #[trigger] b.has(s) == a.has(s) by {
            if a.has(s) {
                let i = a.index_of(s);
                assert(b.servers()[i].id == s);
            }
            if b.has(s) {
                let i = b.index_of(s);
                assert(a.servers()[i].id == s);
            }
        }
        assert(b.servers()[j].id == u.id);
        let k = b.index_of(u.id);
        if k != j {
            assert(b.servers()[k].id != b.servers()[j].id);
        }
        assert forall|s: u32| s != u.id && b.has(s) implies #[trigger] b.servers()[b.index_of(s)]
            == a.servers()[a.index_of(s)] by {
            let i = b.index_of(s);
            let i2 = a.index_of(s);
            assert(a.servers()[i].id == s);
            if i != i2 {
                assert(a.servers()[i].id != a.servers()[i2].id);
            }
        }
        assert forall|s: u32| s != u.id implies #[trigger] b.count_of(s) == a.count_of(s) by {
            if b.has(s) {
                assert(b.servers()[b.index_of(s)] == a.servers()[a.index_of(s)]);
            }
        }
    }

    /// Adding an endpoint with a new id leaves every other endpoint's
    /// presence and count as they were.
    pub proof fn lemma_push_one(a: Self, b: Self, u: Upstream)
        requires
            a.wf(),
            !a.has(u.id),
            b.servers() == a.servers().push(u),
        ensures
            b.wf(),
            forall|s: u32| #[trigger] b.has(s) == (a.has(s) || s == u.id),
            b.index_of(u.id) == a.servers().len(),
            b.count_of(u.id) == u.active,
            forall|s: u32| s != u.id ==> #[trigger] b.count_of(s) == a.count_of(s),
            forall|s: u32| s != u.id && b.has(s) ==> #[trigger] b.servers()[b.index_of(s)] == a.servers()[a.index_of(s)],
    {
        let n = a.servers().len() as int;
        assert forall|x: int, y: int|
            0 <= x < y < b.servers().len() implies #[trigger] b.servers()[x].id
            != #[trigger] b.servers()[y].id by {
            if y < n {
                assert(a.servers()[x].id != a.servers()[y].id);
            } else {
                assert(b.servers()[x] == a.servers()[x]);
            }
        }
        assert forall|s: u32| #[trigger] b.has(s) == (a.has(s) || s == u.id) by {
            if a.has(s) {
                let i = a.index_of(s);
                assert(b.servers()[i].id == s);
            }
            if s == u.id {
                assert(b.servers()[n].id == s);
            }
            if b.has(s) {
                let i = b.index_of(s);
                if i < n {
                    assert(a.servers()[i].id == s);
                }
            }
        }
        assert(b.servers()[n].id == u.id);
        let k = b.index_of(u.id);
        if k != n {
            assert(b.servers()[k].id != b.servers()[n].id);
        }
        assert forall|s: u32| s != u.id && b.has(s) implies #[trigger] b.servers()[b.index_of(s)]
            == a.servers()[a.index_of(s)] by {
            let i = b.index_of(s);
            assert(i < n);
            let i2 = a.index_of(s);
            assert(a.servers()[i].id == s);
            if i != i2 {
                assert(a.servers()[i].id != a.servers()[i2].id);
            }
        }
        assert forall|s: u32| s != u.id implies #[trigger] b.count_of(s) == a.count_of(s) by {
            if b.has(s) {
                assert(b.servers()[b.index_of(s)] == a.servers()[a.index_of(s)]);
            }
        }
    }

    /// Changing endpoints in ways that keep their ids and counts keeps
    /// every endpoint's presence and count.
    pub proof fn lemma_same_ids_and_counts(a: Self, b: Self)
        requires
            a.wf(),
            b.servers().len() == a.servers().len(),
            forall|j: int|
                0 <= j < a.servers().len() ==> (#[trigger] b.servers()[j]).id == a.servers()[j].id
                    && b.servers()[j].active == a.servers()[j].active,
        ensures
            b.wf(),
            forall|s: u32| #[trigger] b.has(s) == a.has(s),
            forall|s: u32| b.has(s) ==> #[trigger] b.index_of(s) == a.index_of(s),
            forall|s: u32| #[trigger] b.count_of(s) == a.count_of(s),
            forall|s: u32| #[trigger] b.load_of(s) == a.load_of(s),
    {
        assert forall|x: int, y: int|
            0 <= x < y < b.servers().len() implies #[trigger] b.servers()[x].id
            != #[trigger] b.servers()[y].id by {
            assert(a.servers()[x].id != a.servers()[y].id);
        }
        assert forall|s: u32| #[trigger] b.has(s) == a.has(s) by {
            if a.has(s) {
                let i = a.index_of(s);
                assert(b.servers()[i].id == s);
            }
            if b.has(s) {
                let i = b.index_of(s);
                assert(a.servers()[i].id == s);
            }
        }
        assert forall|s: u32| b.has(s) implies #[trigger] b.index_of(s) == a.index_of(s) by {
            let i = b.index_of(s);
            let k = a.index_of(s);
            assert(a.servers()[i].id == s);
            if i < k {
                assert(a.servers()[i].id != a.servers()[k].id);
            } else if k < i {
                assert(a.servers()[k].id != a.servers()[i].id);
            }
        }
        assert forall|s: u32| #[trigger] b.count_of(s) == a.count_of(s) by {
            if b.has(s) {
                assert(b.index_of(s) == a.index_of(s));
            }
        }
        assert forall|s: u32| #[trigger] b.load_of(s) == a.load_of(s) by {
            assert(b.count_of(s) == a.count_of(s));
        }
    }

    fn find(&self, id: u32) -> (r: Option<usize>)
        requires
            self.wf(),
        ensures
            match r {
                Some(i) => {
                    &&& self.has(id)
                    &&& i < self.servers().len()
                    &&& i as int == self.index_of(id)
                    &&& self.servers()[i as int].id == id
                },
                None => !self.has(id),
            },
    {
        let mut i: usize = 0;
        while i < self.servers.len()
            invariant
                self.wf(),
                i <= self.servers@.len(),
                forall|j: int| 0 <= j < i ==> #[trigger] self.servers@[j].id != id,
            decreases self.servers@.len() - i,
        {
            if self.servers[i].id == id {
                assert(self.servers()[i as int].id == id);
                assert(self.has(id));
                proof {
                    let k = self.index_of(id);
                    assert(self.servers()[k].id == id);
                    if k > i as int {
                        assert(self.servers()[i as int].id != self.servers()[k].id);
                    }
                }
                return Some(i);
            }
            i = i + 1;
        }
        assert(!self.has(id));
        None
    }
}

} // verus!
