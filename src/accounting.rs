//! Counting live connections: per endpoint and per pool, over the
//! identity records, with the lemmas that relate the counts to the
//! pools' recorded counts.

use vstd::prelude::*;

use crate::client::{conns_to, Client, Connection};
use crate::server::{load, Upstream};

verus! {

/// Live connections to endpoint `s` of pool `g`, over all identity records.
pub open spec fn live(cls: Seq<Client>, g: u32, s: u32) -> nat
    decreases cls.len(),
{
    if cls.len() == 0 {
        0
    } else {
        live(cls.drop_last(), g, s) + conns_to(cls.last().conns(), g, s)
    }
}

/// Replacing one record changes the live count by the difference of that
/// record's own counts.
pub proof fn lemma_live_update(cls: Seq<Client>, i: int, c: Client, g: u32, s: u32)
    requires
        0 <= i < cls.len(),
    ensures
        live(cls.update(i, c), g, s) + conns_to(cls[i].conns(), g, s) == live(cls, g, s)
            + conns_to(c.conns(), g, s),
    decreases cls.len(),
{
    let n = cls.len() - 1;
    if i == n {
        assert(cls.update(i, c).drop_last() =~= cls.drop_last());
    } else {
        assert(cls.update(i, c).drop_last() =~= cls.drop_last().update(i, c));
        lemma_live_update(cls.drop_last(), i, c, g, s);
    }
}

/// Appending a record adds its own count.
pub proof fn lemma_live_push(cls: Seq<Client>, c: Client, g: u32, s: u32)
    ensures
        live(cls.push(c), g, s) == live(cls, g, s) + conns_to(c.conns(), g, s),
{
    assert(cls.push(c).drop_last() =~= cls);
}

/// Connections that no record attributes to `(g, s)` count zero.
pub proof fn lemma_conns_to_none(cs: Seq<Connection>, g: u32, s: u32)
    requires
        forall|k: int|
            0 <= k < cs.len() ==> !((#[trigger] cs[k]).upstream_serv_group == g
                && cs[k].upstream_serv_id == s),
    ensures
        conns_to(cs, g, s) == 0,
    decreases cs.len(),
{
    if cs.len() > 0 {
        lemma_conns_to_none(cs.drop_last(), g, s);
    }
}

pub proof fn lemma_live_none(cls: Seq<Client>, g: u32, s: u32)
    requires
        forall|ci: int, k: int|
            0 <= ci < cls.len() && 0 <= k < cls[ci].conns().len() ==> !((
            #[trigger] cls[ci].conns()[k]).upstream_serv_group == g
                && cls[ci].conns()[k].upstream_serv_id == s),
    ensures
        live(cls, g, s) == 0,
    decreases cls.len(),
{
    if cls.len() > 0 {
        let n = cls.len() - 1;
        assert forall|k: int| 0 <= k < cls[n].conns().len() implies !((
        #[trigger] cls[n].conns()[k]).upstream_serv_group == g
            && cls[n].conns()[k].upstream_serv_id == s) by {
            assert(cls[n].conns()[k] == cls[n].conns()[k]);
        }
        lemma_conns_to_none(cls[n].conns(), g, s);
        assert forall|ci: int, k: int|
            0 <= ci < cls.drop_last().len() && 0 <= k < cls.drop_last()[ci].conns().len()
            implies !((#[trigger] cls.drop_last()[ci].conns()[k]).upstream_serv_group == g
            && cls.drop_last()[ci].conns()[k].upstream_serv_id == s) by {
            assert(cls[ci].conns()[k] == cls.drop_last()[ci].conns()[k]);
        }
        lemma_live_none(cls.drop_last(), g, s);
    }
}

/// The sum of the recorded counts of `us` (a missing count is zero).
pub open spec fn loads_total(us: Seq<Upstream>) -> nat
    decreases us.len(),
{
    if us.len() == 0 {
        0
    } else {
        loads_total(us.drop_last()) + load(us.last())
    }
}

/// How many of `cs` are attributed to pool `g`.
pub open spec fn conns_in_pool(cs: Seq<Connection>, g: u32) -> nat
    decreases cs.len(),
{
    if cs.len() == 0 {
        0
    } else {
        conns_in_pool(cs.drop_last(), g) + if cs.last().upstream_serv_group == g {
            1nat
        } else {
            0nat
        }
    }
}

/// Live connections attributed to pool `g`, over all identity records.
pub open spec fn live_in_pool(cls: Seq<Client>, g: u32) -> nat
    decreases cls.len(),
{
    if cls.len() == 0 {
        0
    } else {
        live_in_pool(cls.drop_last(), g) + conns_in_pool(cls.last().conns(), g)
    }
}

/// The live connections to each endpoint of `us`, summed.
pub open spec fn live_total(cls: Seq<Client>, g: u32, us: Seq<Upstream>) -> nat
    decreases us.len(),
{
    if us.len() == 0 {
        0
    } else {
        live_total(cls, g, us.drop_last()) + live(cls, g, us.last().id)
    }
}

/// The connections of `cs` to each endpoint of `us`, summed.
spec fn conns_total(cs: Seq<Connection>, g: u32, us: Seq<Upstream>) -> nat
    decreases us.len(),
{
    if us.len() == 0 {
        0
    } else {
        conns_total(cs, g, us.drop_last()) + conns_to(cs, g, us.last().id)
    }
}

/// How many endpoints of `us` have id `s`.
spec fn id_hits(us: Seq<Upstream>, s: u32) -> nat
    decreases us.len(),
{
    if us.len() == 0 {
        0
    } else {
        id_hits(us.drop_last(), s) + if us.last().id == s {
            1nat
        } else {
            0nat
        }
    }
}

proof fn lemma_id_hits(us: Seq<Upstream>, s: u32)
    requires
        forall|i: int, j: int| 0 <= i < j < us.len() ==> #[trigger] us[i].id != #[trigger] us[j].id,
    ensures
        id_hits(us, s) == if exists|i: int| 0 <= i < us.len() && #[trigger] us[i].id == s { 1nat } else { 0nat },
    decreases us.len(),
{
    if us.len() > 0 {
        let prev = us.drop_last();
        assert forall|i: int, j: int| 0 <= i < j < prev.len() implies #[trigger] prev[i].id != #[trigger] prev[j].id by {
            assert(us[i].id != us[j].id);
        }
        lemma_id_hits(prev, s);
        if exists|i: int| 0 <= i < prev.len() && #[trigger] prev[i].id == s {
            let i = choose|i: int| 0 <= i < prev.len() && #[trigger] prev[i].id == s;
            assert(us[i].id == s);
            assert(us[i].id != us[us.len() - 1].id);
        } else if us.last().id == s {
            assert(us[us.len() - 1].id == s);
        } else {
            assert forall|i: int| 0 <= i < us.len() implies #[trigger] us[i].id != s by {
                if i < prev.len() {
                    assert(prev[i].id == us[i].id);
                }
            }
        }
    }
}

/// Summing over a pool's endpoints, record by record.
proof fn lemma_live_total_step(cls: Seq<Client>, g: u32, us: Seq<Upstream>)
    requires
        cls.len() > 0,
    ensures
        live_total(cls, g, us) == live_total(cls.drop_last(), g, us) + conns_total(cls.last().conns(), g, us),
    decreases us.len(),
{
    if us.len() > 0 {
        lemma_live_total_step(cls, g, us.drop_last());
    }
}

/// One more connection adds to the endpoint totals as many times as its
/// endpoint appears in the pool.
proof fn lemma_conns_total_step(cs: Seq<Connection>, g: u32, us: Seq<Upstream>)
    requires
        cs.len() > 0,
    ensures
        conns_total(cs, g, us) == conns_total(cs.drop_last(), g, us) + if cs.last().upstream_serv_group == g {
            id_hits(us, cs.last().upstream_serv_id)
        } else {
            0nat
        },
    decreases us.len(),
{
    if us.len() > 0 {
        lemma_conns_total_step(cs, g, us.drop_last());
    }
}

proof fn lemma_conns_total(cs: Seq<Connection>, g: u32, us: Seq<Upstream>)
    requires
        forall|i: int, j: int| 0 <= i < j < us.len() ==> #[trigger] us[i].id != #[trigger] us[j].id,
        forall|k: int|
            0 <= k < cs.len() && (#[trigger] cs[k]).upstream_serv_group == g ==> exists|i: int|
                0 <= i < us.len() && #[trigger] us[i].id == cs[k].upstream_serv_id,
    ensures
        conns_total(cs, g, us) == conns_in_pool(cs, g),
    decreases cs.len(),
{
    if cs.len() == 0 {
        assert(cs =~= Seq::<Connection>::empty());
        lemma_conns_total_empty(g, us);
    } else {
        let prev = cs.drop_last();
        assert forall|k: int|
            0 <= k < prev.len() && (#[trigger] prev[k]).upstream_serv_group == g implies exists|i: int|
                0 <= i < us.len() && #[trigger] us[i].id == prev[k].upstream_serv_id by {
            assert(prev[k] == cs[k]);
        }
        lemma_conns_total(prev, g, us);
        lemma_conns_total_step(cs, g, us);
        let x = cs.last();
        lemma_id_hits(us, x.upstream_serv_id);
        if x.upstream_serv_group == g {
            assert(cs[cs.len() - 1] == x);
        }
    }
}

proof fn lemma_conns_total_empty(g: u32, us: Seq<Upstream>)
    ensures
        conns_total(Seq::<Connection>::empty(), g, us) == 0,
    decreases us.len(),
{
    if us.len() > 0 {
        lemma_conns_total_empty(g, us.drop_last());
    }
}

proof fn lemma_live_total_empty(g: u32, us: Seq<Upstream>)
    ensures
        live_total(Seq::<Client>::empty(), g, us) == 0,
    decreases us.len(),
{
    if us.len() > 0 {
        lemma_live_total_empty(g, us.drop_last());
    }
}

/// The live connections to a pool's endpoints add up to the live
/// connections attributed to the pool, when endpoint ids are unique and
/// every such connection names one of them.
pub proof fn lemma_live_total(cls: Seq<Client>, g: u32, us: Seq<Upstream>)
    requires
        forall|i: int, j: int| 0 <= i < j < us.len() ==> #[trigger] us[i].id != #[trigger] us[j].id,
        forall|ci: int, k: int|
            0 <= ci < cls.len() && 0 <= k < cls[ci].conns().len() && (#[trigger] cls[ci].conns()[k]).upstream_serv_group == g
                ==> exists|i: int| 0 <= i < us.len() && #[trigger] us[i].id == cls[ci].conns()[k].upstream_serv_id,
    ensures
        live_total(cls, g, us) == live_in_pool(cls, g),
    decreases cls.len(),
{
    if cls.len() == 0 {
        assert(cls =~= Seq::<Client>::empty());
        lemma_live_total_empty(g, us);
    } else {
        let prev = cls.drop_last();
        let n = cls.len() - 1;
        assert forall|ci: int, k: int|
            0 <= ci < prev.len() && 0 <= k < prev[ci].conns().len() && (#[trigger] prev[ci].conns()[k]).upstream_serv_group == g
            implies exists|i: int| 0 <= i < us.len() && #[trigger] us[i].id == prev[ci].conns()[k].upstream_serv_id by {
            assert(prev[ci] == cls[ci]);
            assert(cls[ci].conns()[k] == prev[ci].conns()[k]);
        }
        lemma_live_total(prev, g, us);
        lemma_live_total_step(cls, g, us);
        let cs = cls.last().conns();
        assert forall|k: int|
            0 <= k < cs.len() && (#[trigger] cs[k]).upstream_serv_group == g implies exists|i: int|
                0 <= i < us.len() && #[trigger] us[i].id == cs[k].upstream_serv_id by {
            assert(cls[n].conns()[k] == cs[k]);
        }
        lemma_conns_total(cs, g, us);
    }
}

/// Recorded counts that each equal the endpoint's live connections add up
/// to the live connections to the pool's endpoints.
pub proof fn lemma_loads_total(cls: Seq<Client>, g: u32, us: Seq<Upstream>)
    requires
        forall|j: int| 0 <= j < us.len() ==> load(#[trigger] us[j]) == live(cls, g, us[j].id),
    ensures
        loads_total(us) == live_total(cls, g, us),
    decreases us.len(),
{
    if us.len() > 0 {
        let prev = us.drop_last();
        assert forall|j: int| 0 <= j < prev.len() implies load(#[trigger] prev[j]) == live(cls, g, prev[j].id) by {
            assert(prev[j] == us[j]);
        }
        lemma_loads_total(cls, g, prev);
        assert(us[us.len() - 1] == us.last());
    }
}

} // verus!
