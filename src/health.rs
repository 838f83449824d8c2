//! Active health probing of one upstream endpoint: a PING/PONG exchange on a
//! short-lived TCP connection, at most once per 30-second bucket.

use vstd::prelude::*;

verus! {

/// Length of a rate-limit and probing bucket, in seconds.
pub const BUCKET_SECONDS: i64 = 30;

/// The bucket that a wall-clock second falls in: `⌊t / 30⌋`.
pub open spec fn bucket(t: int) -> int {
    t / 30
}

/// Computes `bucket(t)` without overflow, rounding towards negative infinity.
pub fn time_bucket(t: i64) -> (r: i64)
    ensures
        r == bucket(t as int),
{
    if t >= 0 {
        t / BUCKET_SECONDS
    } else {
        let m: i64 = -(t + 1);
        let q: i64 = m / BUCKET_SECONDS;
        proof {
            let ti = t as int;
            let mi = m as int;
            let qi = q as int;
            assert(mi == -ti - 1);
            assert(qi == mi / 30);
            assert(ti / 30 == -qi - 1) by (nonlinear_arith)
                requires
                    mi == -ti - 1,
                    mi >= 0,
                    qi == mi / 30,
            {
                assert(30 * qi <= mi < 30 * qi + 30);
            }
        }
        -q - 1
    }
}


/// Where a probe stands.
#[derive(Clone, Copy, PartialEq, Eq, Debug, Structural)]
pub enum PingState {
    /// No probe socket; the last probe ended (or the prober started) at this second.
    Idle(i64),
    /// A probe socket is open and `PING` is still to be written.
    Connected,
    /// `PING` was written at this second and `PONG` is awaited.
    PingSent(i64),
}

/// The I/O that a prober asks of its caller on one poll.
#[derive(Clone, Copy, PartialEq, Eq, Debug, Structural)]
pub enum ProbeAction {
    /// Nothing is due.
    Wait,
    /// Open a TCP connection to the endpoint.
    Connect,
    /// Write the four bytes `PING` (`ping_bytes`) on the probe socket.
    SendPing,
    /// Read the reply from the probe socket.
    ReadReply,
    /// The deadline passed: drop the probe socket.
    Close,
}

/// What the caller observed while performing a `ProbeAction`.
#[derive(PartialEq, Eq, Debug)]
pub enum ProbeOutcome {
    /// The connection was established.
    Connected,
    /// `PING` was written in full.
    Sent,
    /// A read returned these bytes (empty when the peer closed the socket).
    Reply(Vec<u8>),
    /// The operation would block; try again on the next poll.
    WouldBlock,
    /// The connect, write or read failed.
    Failed,
}

/// The four bytes that a probe sends.
pub open spec fn ping() -> Seq<u8> {
    seq![0x50u8, 0x49u8, 0x4eu8, 0x47u8]
}

/// The probe message, `PING`, to write on the probe socket.
pub fn ping_bytes() -> (r: Vec<u8>)
    ensures
        r@ == ping(),
{
    let r = vec![0x50u8, 0x49u8, 0x4eu8, 0x47u8];
    proof {
        assert(r@ =~= ping());
    }
    r
}

/// The four bytes that a healthy upstream answers with.
pub open spec fn pong() -> Seq<u8> {
    seq![0x50u8, 0x4fu8, 0x4eu8, 0x47u8]
}

/// Liveness state of one upstream endpoint.
pub struct HealthChecker {
    pub server_id: u32,
    pub address: String,
    pub ping_state: PingState,
    pub healthy: bool,
}

impl HealthChecker {
    /// The action that a poll at second `now` asks for.
    pub open spec fn due(self, now: int) -> ProbeAction {
        match self.ping_state {
            PingState::Idle(t0) => if bucket(now) != bucket(t0 as int) {
                ProbeAction::Connect
            } else {
                ProbeAction::Wait
            },
            PingState::Connected => ProbeAction::SendPing,
            PingState::PingSent(t) => if now > t + 1 {
                ProbeAction::Close
            } else {
                ProbeAction::ReadReply
            },
        }
    }

    /// The prober after a poll at second `now`.
    pub open spec fn polled(self, now: i64) -> HealthChecker {
        if self.due(now as int) == ProbeAction::Close {
            HealthChecker { ping_state: PingState::Idle(now), healthy: false, ..self }
        } else {
            self
        }
    }

    /// The prober after its caller observed `outcome` at second `now`.
    pub open spec fn recorded(self, now: i64, outcome: ProbeOutcome) -> HealthChecker {
        match (self.ping_state, outcome) {
            (PingState::Idle(_), ProbeOutcome::Connected) => HealthChecker {
                ping_state: PingState::Connected,
                ..self
            },
            (PingState::Connected, ProbeOutcome::Sent) => HealthChecker {
                ping_state: PingState::PingSent(now),
                ..self
            },
            (PingState::PingSent(t), ProbeOutcome::Reply(bytes)) => HealthChecker {
                ping_state: PingState::Idle(now),
                healthy: now <= t + 1 && bytes@ == pong(),
                ..self
            },
            (_, ProbeOutcome::Failed) => HealthChecker {
                ping_state: PingState::Idle(now),
                healthy: false,
                ..self
            },
            _ => self,
        }
    }

    /// A probe socket is held exactly in these phases.
    pub open spec fn holds_socket(self) -> bool {
        self.ping_state is Connected || self.ping_state is PingSent
    }

    /// A fresh prober: idle since second 0, so the first poll probes, and healthy.
    pub fn new(server_id: u32, address: String) -> (r: Self)
        ensures
            r.server_id == server_id,
            r.address == address,
            r.ping_state == PingState::Idle(0),
            r.healthy,
    {
        HealthChecker { server_id, address, ping_state: PingState::Idle(0), healthy: true }
    }

    pub fn is_healthy(&self) -> (r: bool)
        ensures
            r == self.healthy,
    {
        self.healthy
    }

    /// Whether the caller should keep the probe socket open.
    pub fn wants_socket(&self) -> (r: bool)
        ensures
            r == self.holds_socket(),
    {
        match self.ping_state {
            PingState::Idle(_) => false,
            _ => true,
        }
    }

    /// One poll at second `now`: returns the I/O that is due. When a `PONG`
    /// is overdue the prober gives up, marks the endpoint unhealthy and goes
    /// idle.
    pub fn poll(&mut self, now: i64) -> (r: ProbeAction)
        ensures
            r == old(self).due(now as int),
            *final(self) == old(self).polled(now),
    {
        match self.ping_state {
            PingState::Idle(t0) => {
                if time_bucket(now) != time_bucket(t0) {
                    ProbeAction::Connect
                } else {
                    ProbeAction::Wait
                }
            },
            PingState::Connected => ProbeAction::SendPing,
            PingState::PingSent(t) => {
                if now as i128 > t as i128 + 1 {
                    self.ping_state = PingState::Idle(now);
                    self.healthy = false;
                    ProbeAction::Close
                } else {
                    ProbeAction::ReadReply
                }
            },
        }
    }

    /// Records what the caller observed at second `now`.
    pub fn record(&mut self, now: i64, outcome: ProbeOutcome)
        ensures
            *final(self) == old(self).recorded(now, outcome),
    {
        match outcome {
            ProbeOutcome::Connected => {
                if let PingState::Idle(_) = self.ping_state {
                    self.ping_state = PingState::Connected;
                }
            },
            ProbeOutcome::Sent => {
                if let PingState::Connected = self.ping_state {
                    self.ping_state = PingState::PingSent(now);
                }
            },
            ProbeOutcome::Reply(bytes) => {
                if let PingState::PingSent(t) = self.ping_state {
                    let in_time = now as i128 <= t as i128 + 1;
                    self.healthy = in_time && is_pong(&bytes);
                    self.ping_state = PingState::Idle(now);
                }
            },
            ProbeOutcome::WouldBlock => {},
            ProbeOutcome::Failed => {
                self.healthy = false;
                self.ping_state = PingState::Idle(now);
            },
        }
    }
}

/// Whether `bytes` is exactly `PONG`.
pub fn is_pong(bytes: &Vec<u8>) -> (r: bool)
    ensures
        r == (bytes@ == pong()),
{
    if bytes.len() != 4 {
        return false;
    }
    let r = bytes[0] == 0x50u8 && bytes[1] == 0x4fu8 && bytes[2] == 0x4eu8 && bytes[3] == 0x47u8;
    proof {
        if r {
            assert(bytes@ =~= pong());
        }
    }
    r
}

} // verus!
