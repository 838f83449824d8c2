//! Established proxied connections and the per-identity records that own
//! them: the data-phase state machine, rate-limited admission and the sweep
//! of terminated connections.

use vstd::prelude::*;

use crate::handshake::PartialConnection;
use crate::health::bucket;
use crate::health::time_bucket;

verus! {

/// Admissions allowed per identity and per 30-second bucket.
pub const RATE_LIMIT: usize = 10;

/// The state of a proxied connection. Every state but `OKAY` is terminal.
/// The two timeout states are never entered by `Connection::poll`; they
/// are kept for callers that track timeouts, and are swept like the others.
#[allow(non_camel_case_types)]
#[derive(Clone, Copy, PartialEq, Eq, Debug, Structural)]
pub enum ConnState {
    OKAY,
    UP_DISCONNECT,
    UP_TIMEOUT,
    DOWN_DISCONNECT,
    DOWN_TIMEOUT,
    DOWN_ENC_ERR,
}

/// What one direction of a connection did on a poll: read from one half,
/// then write what was read to the other half.
#[derive(Clone, Copy, PartialEq, Eq, Debug, Structural)]
pub enum Transfer {
    /// The read would block: nothing moved.
    Idle,
    /// Bytes were read and handed to the other half (a write that would
    /// block drops them, as the minimum forwarding policy allows).
    Forwarded,
    /// The read returned zero bytes: the peer closed its half.
    Closed,
    /// The read failed.
    ReadFailed,
    /// The TLS layer of the downstream half reported an error.
    TlsFailed,
    /// The write to the other half failed.
    WriteFailed,
}

/// The state that a downstream-to-upstream transfer leads to.
pub open spec fn downstream_effect(t: Transfer) -> ConnState {
    match t {
        Transfer::Closed | Transfer::ReadFailed => ConnState::DOWN_DISCONNECT,
        Transfer::TlsFailed => ConnState::DOWN_ENC_ERR,
        Transfer::WriteFailed => ConnState::UP_DISCONNECT,
        _ => ConnState::OKAY,
    }
}

/// The state that an upstream-to-downstream transfer leads to.
pub open spec fn upstream_effect(t: Transfer) -> ConnState {
    match t {
        Transfer::Closed | Transfer::ReadFailed => ConnState::UP_DISCONNECT,
        Transfer::TlsFailed => ConnState::DOWN_ENC_ERR,
        Transfer::WriteFailed => ConnState::DOWN_DISCONNECT,
        _ => ConnState::OKAY,
    }
}

/// The state after one poll: the downstream direction is classified first;
/// a terminal state stays as it is.
pub open spec fn stepped(s: ConnState, down: Transfer, up: Transfer) -> ConnState {
    if s != ConnState::OKAY {
        s
    } else if downstream_effect(down) != ConnState::OKAY {
        downstream_effect(down)
    } else {
        upstream_effect(up)
    }
}

/// An established flow between a client and one upstream endpoint. `token`
/// names the sockets and TLS state that the caller holds for it.
pub struct Connection {
    pub token: u64,
    pub conn_state: ConnState,
    pub upstream_serv_group: u32,
    pub upstream_serv_id: u32,
}

pub open spec fn is_terminal(c: Connection) -> bool {
    c.conn_state != ConnState::OKAY
}

pub open spec fn is_open(c: Connection) -> bool {
    c.conn_state == ConnState::OKAY
}

impl Connection {
    pub fn new(token: u64, upstream_serv_group: u32, upstream_serv_id: u32) -> (r: Self)
        ensures
            r.token == token,
            r.conn_state == ConnState::OKAY,
            r.upstream_serv_group == upstream_serv_group,
            r.upstream_serv_id == upstream_serv_id,
    {
        Connection { token, conn_state: ConnState::OKAY, upstream_serv_group, upstream_serv_id }
    }

    /// The connection that a promoted handshake session becomes: it keeps
    /// the session's token, and with it the session's socket and TLS state.
    pub fn from_partial_connection(partial_cxn: PartialConnection, upstream_serv_group: u32, upstream_serv_id: u32) -> (r: Self)
        ensures
            r.token == partial_cxn.token,
            r.conn_state == ConnState::OKAY,
            r.upstream_serv_group == upstream_serv_group,
            r.upstream_serv_id == upstream_serv_id,
    {
        Connection::new(partial_cxn.token, upstream_serv_group, upstream_serv_id)
    }

    pub fn get_upstream_server_group(&self) -> (r: u32)
        ensures
            r == self.upstream_serv_group,
    {
        self.upstream_serv_group
    }

    pub fn get_upstream_server_id(&self) -> (r: u32)
        ensures
            r == self.upstream_serv_id,
    {
        self.upstream_serv_id
    }

    pub fn get_state(&self) -> (r: ConnState)
        ensures
            r == self.conn_state,
    {
        self.conn_state
    }

    /// Whether bytes still flow; the caller performs I/O only then.
    pub fn is_okay(&self) -> (r: bool)
        ensures
            r == is_open(*self),
    {
        match self.conn_state {
            ConnState::OKAY => true,
            _ => false,
        }
    }

    /// One poll, given what each direction did.
    pub fn poll(&mut self, down: Transfer, up: Transfer)
        ensures
            final(self).token == old(self).token,
            final(self).upstream_serv_group == old(self).upstream_serv_group,
            final(self).upstream_serv_id == old(self).upstream_serv_id,
            final(self).conn_state == stepped(old(self).conn_state, down, up),
    {
        if let ConnState::OKAY = self.conn_state {
            let first = match down {
                Transfer::Closed | Transfer::ReadFailed => ConnState::DOWN_DISCONNECT,
                Transfer::TlsFailed => ConnState::DOWN_ENC_ERR,
                Transfer::WriteFailed => ConnState::UP_DISCONNECT,
                _ => ConnState::OKAY,
            };
            self.conn_state = match first {
                ConnState::OKAY => match up {
                    Transfer::Closed | Transfer::ReadFailed => ConnState::UP_DISCONNECT,
                    Transfer::TlsFailed => ConnState::DOWN_ENC_ERR,
                    Transfer::WriteFailed => ConnState::DOWN_DISCONNECT,
                    _ => ConnState::OKAY,
                },
                other => other,
            };
        }
    }
}


/// The connection after one poll.
pub open spec fn stepped_conn(c: Connection, down: Transfer, up: Transfer) -> Connection {
    Connection { conn_state: stepped(c.conn_state, down, up), ..c }
}

pub open spec fn still_open() -> spec_fn(Connection) -> bool {
    |c: Connection| is_open(c)
}

pub open spec fn ended() -> spec_fn(Connection) -> bool {
    |c: Connection| is_terminal(c)
}

/// How many of `cs` are attributed to endpoint `s` of pool `g`.
pub open spec fn conns_to(cs: Seq<Connection>, g: u32, s: u32) -> nat
    decreases cs.len(),
{
    if cs.len() == 0 {
        0
    } else {
        conns_to(cs.drop_last(), g, s) + if cs.last().upstream_serv_group == g
            && cs.last().upstream_serv_id == s {
            1nat
        } else {
            0nat
        }
    }
}

/// Appending a connection adds one to its own endpoint's count only.
pub proof fn lemma_conns_to_push(cs: Seq<Connection>, x: Connection, g: u32, s: u32)
    ensures
        conns_to(cs.push(x), g, s) == conns_to(cs, g, s) + if x.upstream_serv_group == g
            && x.upstream_serv_id == s {
            1nat
        } else {
            0nat
        },
{
    assert(cs.push(x).drop_last() =~= cs);
}

/// Counting distributes over concatenation.
pub proof fn lemma_conns_to_concat(a: Seq<Connection>, b: Seq<Connection>, g: u32, s: u32)
    ensures
        conns_to(a + b, g, s) == conns_to(a, g, s) + conns_to(b, g, s),
    decreases b.len(),
{
    if b.len() == 0 {
        assert(a + b =~= a);
    } else {
        assert((a + b).drop_last() =~= a + b.drop_last());
        lemma_conns_to_concat(a, b.drop_last(), g, s);
    }
}

/// Splitting connections into open and ended ones keeps every count.
pub proof fn lemma_conns_to_split(cs: Seq<Connection>, g: u32, s: u32)
    ensures
        conns_to(cs, g, s) == conns_to(cs.filter(still_open()), g, s) + conns_to(
            cs.filter(ended()),
            g,
            s,
        ),
    decreases cs.len(),
{
    reveal(Seq::filter);
    if cs.len() > 0 {
        let prev = cs.drop_last();
        lemma_conns_to_split(prev, g, s);
        let x = cs.last();
        let po = prev.filter(still_open());
        let pe = prev.filter(ended());
        if is_open(x) {
            assert(cs.filter(still_open()) == po.push(x));
            assert(po.push(x).drop_last() =~= po);
            assert(cs.filter(ended()) == pe);
        } else {
            assert(cs.filter(ended()) == pe.push(x));
            assert(pe.push(x).drop_last() =~= pe);
            assert(cs.filter(still_open()) == po);
        }
    }
}

/// Counting looks at each connection's pool and endpoint only.
pub proof fn lemma_conns_to_same_targets(a: Seq<Connection>, b: Seq<Connection>, g: u32, s: u32)
    requires
        a.len() == b.len(),
        forall|k: int|
            0 <= k < a.len() ==> (#[trigger] a[k]).upstream_serv_group == b[k].upstream_serv_group
                && a[k].upstream_serv_id == b[k].upstream_serv_id,
    ensures
        conns_to(a, g, s) == conns_to(b, g, s),
    decreases a.len(),
{
    if a.len() > 0 {
        lemma_conns_to_same_targets(a.drop_last(), b.drop_last(), g, s);
    }
}

/// The record of one authenticated identity: the pool it may use, its
/// rate-limit window and the connections it owns.
pub struct Client {
    email: String,
    connections: Vec<Connection>,
    cxn_time: i64,
    cxn_cnt: usize,
    allowed_server_group: u32,
}

impl Client {
    pub closed spec fn spec_email(self) -> Seq<char> {
        self.email@
    }

    pub closed spec fn conns(self) -> Seq<Connection> {
        self.connections@
    }

    /// The bucket that `rate_count` counts admissions in.
    pub closed spec fn window(self) -> i64 {
        self.cxn_time
    }

    pub closed spec fn count(self) -> usize {
        self.cxn_cnt
    }

    pub closed spec fn group(self) -> u32 {
        self.allowed_server_group
    }

    pub open spec fn wf(self) -> bool {
        self.count() <= RATE_LIMIT
    }

    /// Admissions counted in the bucket of second `now`.
    pub open spec fn admitted_in(self, now: int) -> int {
        if self.window() as int == bucket(now) {
            self.count() as int
        } else {
            0
        }
    }

    pub fn new(email: String, allowed_server_group: u32) -> (r: Self)
        ensures
            r.wf(),
            r.spec_email() == email@,
            r.conns() == Seq::<Connection>::empty(),
            r.window() == i64::MIN,
            r.count() == 0,
            r.group() == allowed_server_group,
    {
        Client {
            email,
            connections: Vec::new(),
            cxn_time: i64::MIN,
            cxn_cnt: 0,
            allowed_server_group,
        }
    }

    pub fn get_server_group(&self) -> (r: u32)
        ensures
            r == self.group(),
    {
        self.allowed_server_group
    }

    pub fn email(&self) -> (r: &String)
        ensures
            r@ == self.spec_email(),
    {
        &self.email
    }

    pub fn connections(&self) -> (r: &Vec<Connection>)
        ensures
            r@ == self.conns(),
    {
        &self.connections
    }

    /// Appends a connection without rate accounting.
    pub fn add_connection(&mut self, cxn: Connection)
        requires
            old(self).wf(),
        ensures
            final(self).wf(),
            final(self).conns() == old(self).conns().push(cxn),
            final(self).spec_email() == old(self).spec_email(),
            final(self).window() == old(self).window(),
            final(self).count() == old(self).count(),
            final(self).group() == old(self).group(),
    {
        self.connections.push(cxn);
    }

    /// The number of admissions in the bucket of second `now`: never above
    /// the limit, and zero once the bucket has moved on.
    pub fn rate_count(&self, now: i64) -> (r: usize)
        requires
            self.wf(),
        ensures
            r == self.admitted_in(now as int),
            r <= RATE_LIMIT,
            bucket(now as int) != self.window() ==> r == 0,
    {
        if time_bucket(now) == self.cxn_time {
            self.cxn_cnt
        } else {
            0
        }
    }

    /// Rate-limited admission at second `now`: the window moves to the
    /// current bucket (counting from zero when it changed); the connection
    /// is appended and counted when fewer than ten were admitted in the
    /// bucket, and dropped otherwise.
    pub fn admit_connection(&mut self, cxn: Connection, now: i64) -> (r: bool)
        requires
            old(self).wf(),
        ensures
            final(self).wf(),
            r == (old(self).admitted_in(now as int) < RATE_LIMIT),
            final(self).window() == bucket(now as int),
            r ==> final(self).count() == old(self).admitted_in(now as int) + 1
                && final(self).conns() == old(self).conns().push(cxn),
            !r ==> final(self).count() == old(self).admitted_in(now as int)
                && final(self).conns() == old(self).conns(),
            final(self).spec_email() == old(self).spec_email(),
            final(self).group() == old(self).group(),
    {
        let b = time_bucket(now);
        if self.cxn_time != b {
            self.cxn_time = b;
            self.cxn_cnt = 0;
        }
        if self.cxn_cnt >= RATE_LIMIT {
            false
        } else {
            self.connections.push(cxn);
            self.cxn_cnt = self.cxn_cnt + 1;
            true
        }
    }

    /// Steps every connection with what its two directions did.
    pub fn poll(&mut self, observed: &Vec<(Transfer, Transfer)>)
        requires
            old(self).wf(),
            observed@.len() == old(self).conns().len(),
        ensures
            final(self).wf(),
            final(self).conns().len() == old(self).conns().len(),
            forall|k: int|
                0 <= k < old(self).conns().len() ==> #[trigger] final(self).conns()[k]
                    == stepped_conn(old(self).conns()[k], observed@[k].0, observed@[k].1),
            final(self).spec_email() == old(self).spec_email(),
            final(self).window() == old(self).window(),
            final(self).count() == old(self).count(),
            final(self).group() == old(self).group(),
    {
        let mut i: usize = 0;
        while i < self.connections.len()
            invariant
                self.email == old(self).email,
                self.cxn_time == old(self).cxn_time,
                self.cxn_cnt == old(self).cxn_cnt,
                self.allowed_server_group == old(self).allowed_server_group,
                observed@.len() == old(self).connections@.len(),
                self.connections@.len() == old(self).connections@.len(),
                i <= self.connections@.len(),
                forall|k: int|
                    0 <= k < i ==> #[trigger] self.connections@[k] == stepped_conn(
                        old(self).connections@[k],
                        observed@[k].0,
                        observed@[k].1,
                    ),
                forall|k: int|
                    i <= k < self.connections@.len() ==> #[trigger] self.connections@[k]
                        == old(self).connections@[k],
            decreases self.connections@.len() - i,
        {
            let (down, up) = observed[i];
            let mut c = self.connections.remove(i);
            c.poll(down, up);
            self.connections.insert(i, c);
            i = i + 1;
        }
    }

    /// Removes the terminated connections and returns them in the order
    /// they were added; the open ones stay, in order.
    pub fn cleanup_connections(&mut self) -> (r: Vec<Connection>)
        requires
            old(self).wf(),
        ensures
            final(self).wf(),
            final(self).conns() == old(self).conns().filter(still_open()),
            r@ == old(self).conns().filter(ended()),
            final(self).spec_email() == old(self).spec_email(),
            final(self).window() == old(self).window(),
            final(self).count() == old(self).count(),
            final(self).group() == old(self).group(),
    {
        let mut rest: Vec<Connection> = Vec::new();
        std::mem::swap(&mut rest, &mut self.connections);
        let ghost orig = rest@;
        let mut kept: Vec<Connection> = Vec::new();
        let mut removed: Vec<Connection> = Vec::new();
        let ghost mut i: int = 0;
        proof {
            reveal(Seq::filter);
            assert(orig.subrange(0, 0) =~= Seq::<Connection>::empty());
            assert(rest@ =~= orig.subrange(0, orig.len() as int));
        }
        while rest.len() > 0
            invariant
                orig == old(self).connections@,
                0 <= i <= orig.len(),
                rest@ == orig.subrange(i, orig.len() as int),
                kept@ == orig.subrange(0, i).filter(still_open()),
                removed@ == orig.subrange(0, i).filter(ended()),
            decreases rest@.len(),
        {
            let c = rest.remove(0);
            proof {
                reveal(Seq::filter);
                assert(c == orig[i]);
                assert(orig.subrange(0, i + 1).drop_last() =~= orig.subrange(0, i));
                assert(orig.subrange(0, i + 1).last() == orig[i]);
            }
            if c.is_okay() {
                kept.push(c);
            } else {
                removed.push(c);
            }
            proof {
                i = i + 1;
                assert(rest@ =~= orig.subrange(i, orig.len() as int));
            }
        }
        proof {
            assert(orig.subrange(0, i) =~= orig);
        }
        self.connections = kept;
        removed
    }
}

} // verus!
