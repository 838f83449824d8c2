//! The pre-authorization phase of a downstream connection: the TLS
//! handshake is driven by the caller, and the session extracts the peer's
//! identity from the leaf certificate it presented.

use vstd::prelude::*;

verus! {

/// The first `emailAddress` attribute of the subject of the DER-encoded
/// X.509 certificate `der`, when the certificate parses and that attribute
/// holds text.
pub uninterp spec fn subject_email_of(der: Seq<u8>) -> Option<Seq<char>>;

/// Relies on x509_parser: `parse_x509_certificate` decodes the DER bytes,
/// `X509Name::iter_email` walks the subject's emailAddress attributes in
/// order and `AttributeTypeAndValue::as_str` reads the first one as text.
/// The result depends on the bytes alone.
#[verifier::external_body]
fn extract_email_from_cert(der: &[u8]) -> (r: Option<String>)
    ensures
        match r {
            Some(e) => subject_email_of(der@) == Some(e@),
            None => subject_email_of(der@) is None,
        },
{
    match x509_parser::parse_x509_certificate(der) {
        Ok((_, cert)) => match cert.subject().iter_email().next() {
            Some(attr) => attr.as_str().ok().map(|s| s.to_string()),
            None => None,
        },
        Err(_) => None,
    }
}

#[allow(non_camel_case_types)]
#[derive(Clone, Copy, PartialEq, Eq, Debug, Structural)]
pub enum PartialConnState {
    INIT,
    COMPLETED,
    FAILED,
}

/// What the caller observed while driving the TLS handshake on one poll.
#[derive(PartialEq, Eq, Debug)]
pub enum HandshakeEvent {
    /// Still handshaking; the read made progress or would block.
    Progress,
    /// Still handshaking; the read returned zero bytes.
    Closed,
    /// An I/O error other than would-block, or a TLS protocol error.
    Failed,
    /// The handshake is over; the leaf certificate the peer presented, if any.
    Finished(Option<Vec<u8>>),
}

/// A downstream connection whose TLS handshake is in progress. `token`
/// names the socket and TLS state that the caller holds for it.
pub struct PartialConnection {
    pub token: u64,
    pub state: PartialConnState,
    pub email_address: Option<String>,
}

/// The phase and identity after the identity extraction returned `found`.
pub open spec fn completed_with(found: Option<Seq<char>>) -> (PartialConnState, Option<Seq<char>>) {
    match found {
        Some(e) => (PartialConnState::COMPLETED, Some(e)),
        None => (PartialConnState::FAILED, None),
    }
}

pub open spec fn view_email(e: Option<String>) -> Option<Seq<char>> {
    match e {
        Some(s) => Some(s@),
        None => None,
    }
}

/// Whether `c` left the handshake, either way.
pub open spec fn is_finished(c: PartialConnection) -> bool {
    c.state != PartialConnState::INIT
}

pub open spec fn in_handshake() -> spec_fn(PartialConnection) -> bool {
    |c: PartialConnection| !is_finished(c)
}

pub open spec fn finished() -> spec_fn(PartialConnection) -> bool {
    |c: PartialConnection| is_finished(c)
}

/// How one poll given `event` takes the session from `a` to `b`.
pub open spec fn polled(a: PartialConnection, b: PartialConnection, event: HandshakeEvent) -> bool {
    &&& b.token == a.token
    &&& a.state != PartialConnState::INIT ==> b == a
    &&& a.state == PartialConnState::INIT ==> match event {
        HandshakeEvent::Progress => b == a,
        HandshakeEvent::Closed | HandshakeEvent::Failed => b.state == PartialConnState::FAILED
            && b.email_address is None,
        HandshakeEvent::Finished(None) => b.state == PartialConnState::FAILED
            && b.email_address is None,
        HandshakeEvent::Finished(Some(der)) => (b.state, view_email(b.email_address))
            == completed_with(subject_email_of(der@)),
    }
}

impl PartialConnection {
    pub fn new(token: u64) -> (r: Self)
        ensures
            r.token == token,
            r.state == PartialConnState::INIT,
            r.email_address is None,
    {
        PartialConnection { token, state: PartialConnState::INIT, email_address: None }
    }

    /// The session once the handshake is over and the identity extraction
    /// returned `found`: completed with that identity, or failed without one.
    pub fn complete_with(&mut self, found: Option<String>)
        requires
            old(self).state == PartialConnState::INIT,
        ensures
            final(self).token == old(self).token,
            (final(self).state, view_email(final(self).email_address)) == completed_with(
                view_email(found),
            ),
    {
        match found {
            Some(e) => {
                self.email_address = Some(e);
                self.state = PartialConnState::COMPLETED;
            },
            None => {
                self.email_address = None;
                self.state = PartialConnState::FAILED;
            },
        }
    }

    /// One poll of the handshake. While it runs, a closed or failed read
    /// fails the session. Once it is over, the session completes with the
    /// first emailAddress of the leaf certificate's subject, and fails when
    /// there is no certificate or no such address. A failed session holds
    /// no identity. A finished session does not change.
    pub fn poll(&mut self, event: HandshakeEvent)
        ensures
            polled(*old(self), *final(self), event),
    {
        if let PartialConnState::INIT = self.state {
            match event {
                HandshakeEvent::Progress => {},
                HandshakeEvent::Closed | HandshakeEvent::Failed => {
                    self.state = PartialConnState::FAILED;
                    self.email_address = None;
                },
                HandshakeEvent::Finished(None) => {
                    self.state = PartialConnState::FAILED;
                    self.email_address = None;
                },
                HandshakeEvent::Finished(Some(der)) => {
                    let found = extract_email_from_cert(der.as_slice());
                    self.complete_with(found);
                },
            }
        }
    }

    pub fn is_completed(&self) -> (r: bool)
        ensures
            r == (self.state == PartialConnState::COMPLETED),
    {
        match self.state {
            PartialConnState::COMPLETED => true,
            _ => false,
        }
    }

    pub fn client_id(&self) -> (r: Option<String>)
        ensures
            r == self.email_address,
    {
        match &self.email_address {
            Some(e) => Some(e.clone()),
            None => None,
        }
    }
}

} // verus!
