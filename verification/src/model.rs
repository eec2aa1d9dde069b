//! What the scanner keeps: the state of each connection it has opened, and
//! what it has found.

use crate::net::SocketAddrV4;
use vstd::prelude::*;

verus! {

/// How a server reacted to the connection request, with the reason as text.
pub enum Outcome {
    Approved,
    PasswordRequired,
    Booted(Seq<char>),
}

/// How a server reacted to the connection request.
#[derive(Clone, Debug)]
pub enum ConnectionRequestResult {
    Approved,
    PasswordRequired,
    Booted(  /* Reason: */ String),
}

impl View for ConnectionRequestResult {
    type V = Outcome;

    open spec fn view(&self) -> Outcome {
        match self {
            ConnectionRequestResult::Approved => Outcome::Approved,
            ConnectionRequestResult::PasswordRequired => Outcome::PasswordRequired,
            ConnectionRequestResult::Booted(reason) => Outcome::Booted(reason@),
        }
    }
}

impl ConnectionRequestResult {
    /// A copy of the result.
    pub fn duplicate(&self) -> (copy: Self)
        ensures
            copy == *self,
    {
        match self {
            ConnectionRequestResult::Approved => ConnectionRequestResult::Approved,
            ConnectionRequestResult::PasswordRequired => ConnectionRequestResult::PasswordRequired,
            ConnectionRequestResult::Booted(reason) => ConnectionRequestResult::Booted(
                reason.clone(),
            ),
        }
    }
}

/// A server and its reaction, as plain values.
pub struct Finding {
    pub address: SocketAddrV4,
    pub outcome: Outcome,
}

/// A server that answered.
#[derive(Clone, Debug)]
pub struct TerrariaServer {
    pub address: SocketAddrV4,
    /// How the server reacted to the connection request
    pub connection_request_result: ConnectionRequestResult,
}

impl View for TerrariaServer {
    type V = Finding;

    open spec fn view(&self) -> Finding {
        Finding { address: self.address, outcome: self.connection_request_result@ }
    }
}

impl TerrariaServer {
    /// A copy of the server.
    pub fn duplicate(&self) -> (copy: Self)
        ensures
            copy == *self,
    {
        TerrariaServer {
            address: self.address,
            connection_request_result: self.connection_request_result.duplicate(),
        }
    }
}

/// The time that a connection may stay unanswered, in nanoseconds.
pub const TTL: u64 = 7_000_000_000;

/// The state of a connection whose SYN has been sent.
#[derive(Clone, Copy, Debug, PartialEq, Eq, Structural)]
pub struct ConnectionState {
    /// When we sent the SYN - used for garbage collection. In nanoseconds
    /// on a clock that never goes back.
    pub syn_time: u64,
    /// Whether the TCP handshake is complete (SYN, SYN+ACK, ACK)
    /// and we sent a connection request packet
    pub handshake_done: bool,
    /// Whether the connection was finished or reset
    pub closed: bool,
}

impl ConnectionState {
    /// The time since the SYN; none if the clock shows a time before it.
    pub open spec fn spec_age(self, now: u64) -> nat {
        if now >= self.syn_time {
            (now - self.syn_time) as nat
        } else {
            0
        }
    }

    /// Whether the connection is to be forgotten: it is closed, or its SYN
    /// is older than the time to live.
    pub open spec fn spec_expired(self, now: u64) -> bool {
        self.closed || self.spec_age(now) > TTL
    }

    /// The state of a connection whose SYN is sent at `now`.
    pub fn new(now: u64) -> (state: Self)
        ensures
            state == (ConnectionState { syn_time: now, handshake_done: false, closed: false }),
    {
        Self { handshake_done: false, syn_time: now, closed: false }
    }

    pub fn expired(&self, now: u64) -> (gone: bool)
        ensures
            gone == self.spec_expired(now),
    {
        self.closed || now.saturating_sub(self.syn_time) > TTL
    }
}

/// A connection that was not expired when one collection ran is, up to the
/// next collection, never older than the time to live and the time between
/// the two.
pub proof fn lemma_age_between_collections(
    state: ConnectionState,
    collected: u64,
    period: u64,
    now: u64,
)
    requires
        !state.spec_expired(collected),
        collected <= now <= collected + period,
    ensures
        state.spec_age(now) <= TTL + period,
{
}

/// A connection opened after a collection is, up to the next collection,
/// never older than the time between the two.
pub proof fn lemma_age_of_new_connection(syn_time: u64, collected: u64, period: u64, now: u64)
    requires
        collected <= syn_time,
        collected <= now <= collected + period,
    ensures
        (ConnectionState { syn_time, handshake_done: false, closed: false }).spec_age(now)
            <= period,
{
}

} // verus!
