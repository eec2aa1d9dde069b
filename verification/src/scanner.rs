//! The three workers of a scan, each as one turn on the state they share:
//! the sender of SYNs, the receiver that answers what comes back, and the
//! collector that forgets what has not answered.

use crate::iteration::{all_targets, TargetCursor};
use crate::model::{ConnectionRequestResult, ConnectionState, Finding, Outcome, TerrariaServer};
use crate::net::{lemma_key_injective, SocketAddrV4};
use crate::outside::{
    lossy_text, random_u32_below, tcp_flag_ack, tcp_flag_fin, tcp_flag_psh, tcp_flag_rst,
    tcp_flag_syn,
};
use crate::packet::{
    frame, frame_body, frame_fault, C2SConnect, C2STerrariaPacket, ReadTerrariaPacket,
    S2CConnectionApproved, S2CFatalError, S2CPasswordRequired, WriteTerrariaPacket,
};
use crate::targets::{total, ScanRanges};
use crate::throttle::{batch_of, Throttler};
use crate::types::{decode_scanned, Cursor};
use std::collections::HashMap;
use vstd::prelude::*;
use vstd::std_specs::iter::IteratorSpec;

verus! {

broadcast use vstd::std_specs::hash::group_hash_axioms;

/// The version that the scanner says it is.
pub const VERSION: u32 = 279;

/// The bound below which the first sequence number of a connection is
/// drawn: 100 000 below the greatest 32-bit number.
pub const ISN_BOUND: u32 = 4_294_867_295;

/// The time between two reports of progress, in nanoseconds: a second.
pub const REPORT_PERIOD: u64 = 1_000_000_000;

/// The bit of the FIN flag among the flags of a segment.
pub const FLAG_FIN: u8 = 0x01;

/// The bit of the SYN flag.
pub const FLAG_SYN: u8 = 0x02;

/// The bit of the RST flag.
pub const FLAG_RST: u8 = 0x04;

/// The bit of the PSH flag.
pub const FLAG_PSH: u8 = 0x08;

/// The bit of the ACK flag.
pub const FLAG_ACK: u8 = 0x10;

/// What the scanner reads of the IPv4 header of a packet that came in.
#[derive(Debug, Clone, Copy, PartialEq, Eq, Structural)]
pub struct Ipv4Header {
    pub source: u32,
}

/// What the scanner reads of a TCP segment that came in.
#[derive(Debug, Clone, PartialEq, Eq)]
pub struct TcpHeader {
    pub source: u16,
    pub destination: u16,
    pub sequence: u32,
    pub acknowledgement: u32,
    pub flags: u8,
    pub payload: Vec<u8>,
}

/// The kinds of segment that the scanner sends in answer.
#[derive(Debug, Clone, Copy, PartialEq, Eq, Structural)]
pub enum TransmitKind {
    Ack,
    Data,
    Rst,
    Fin,
}

/// A segment for the sender to send, as plain values.
pub struct Sent {
    pub kind: TransmitKind,
    pub addr: SocketAddrV4,
    pub source_port: u16,
    pub seq: u32,
    pub ack: u32,
    pub payload: Seq<u8>,
}

/// A segment for the sender to send. Only a data segment has a payload.
#[derive(Debug, Clone, PartialEq, Eq)]
pub struct Transmit {
    pub kind: TransmitKind,
    pub addr: SocketAddrV4,
    pub source_port: u16,
    pub seq: u32,
    pub ack: u32,
    pub payload: Vec<u8>,
}

impl View for Transmit {
    type V = Sent;

    open spec fn view(&self) -> Sent {
        Sent {
            kind: self.kind,
            addr: self.addr,
            source_port: self.source_port,
            seq: self.seq,
            ack: self.ack,
            payload: self.payload@,
        }
    }
}

/// The segments as plain values.
pub open spec fn sent(transmits: Seq<Transmit>) -> Seq<Sent> {
    Seq::new(transmits.len(), |i: int| transmits[i]@)
}

/// A segment without payload.
pub open spec fn bare(kind: TransmitKind, addr: SocketAddrV4, tcp: TcpHeader, seq: u32, ack: u32)
    -> Sent {
    Sent { kind, addr, source_port: tcp.destination, seq, ack, payload: Seq::empty() }
}

/// Sequence numbers count round: behind the greatest comes 0.
pub open spec fn seq_add(seq: u32, n: nat) -> u32 {
    ((seq + n) % 0x1_0000_0000) as u32
}

/// Whether the segment carries the flag.
pub open spec fn has_flag(tcp: TcpHeader, flag: u8) -> bool {
    tcp.flags & flag != 0
}

/// The frame of the connection request that the scanner sends.
pub open spec fn connect_bytes() -> Seq<u8> {
    frame(C2SConnect::PACKET_ID, (C2SConnect { version: VERSION }).body())
}

/// What the first data of a server says of it.
pub enum Verdict {
    /// The server is found, with this reaction.
    Publish(Outcome),
    /// Chat that tells nothing: the connection stays open for what comes
    /// next.
    KeepOpen,
    /// Nothing is learnt.
    Nothing,
}

/// What a payload of at least three bytes says, by the id that is its third
/// byte. A fatal error, an approval and a request for a password count if
/// the payload reads as a frame with such a body; a request for world data
/// counts as it is; a net module keeps the connection open.
pub open spec fn verdict(payload: Seq<u8>) -> Verdict {
    let id = payload[2];
    if id == 2 {
        if frame_fault(payload) is None && decode_scanned(frame_body(payload)) is Ok {
            Verdict::Publish(
                Outcome::Booted(lossy_text(decode_scanned(frame_body(payload))->Ok_0.0)),
            )
        } else {
            Verdict::Nothing
        }
    } else if id == 3 {
        if frame_fault(payload) is None {
            Verdict::Publish(Outcome::Approved)
        } else {
            Verdict::Nothing
        }
    } else if id == 9 {
        Verdict::Publish(Outcome::Approved)
    } else if id == 37 {
        if frame_fault(payload) is None {
            Verdict::Publish(Outcome::PasswordRequired)
        } else {
            Verdict::Nothing
        }
    } else if id == 82 {
        Verdict::KeepOpen
    } else {
        Verdict::Nothing
    }
}

/// What the scanner learns from a payload.
pub enum Classification {
    Publish(ConnectionRequestResult),
    KeepOpen,
    Nothing,
}

impl View for Classification {
    type V = Verdict;

    open spec fn view(&self) -> Verdict {
        match self {
            Classification::Publish(result) => Verdict::Publish(result@),
            Classification::KeepOpen => Verdict::KeepOpen,
            Classification::Nothing => Verdict::Nothing,
        }
    }
}

/// Reads what a payload says of the server that sent it.
pub fn classify(payload: &[u8]) -> (c: Classification)
    requires
        payload@.len() >= 3,
    ensures
        c@ == verdict(payload@),
{
    let packet_id: u8 = payload[2];
    if packet_id == 2 {
        match Cursor::new(payload).read_terraria_packet::<S2CFatalError>() {
            Ok(packet) => Classification::Publish(ConnectionRequestResult::Booted(packet.error)),
            Err(e) => Classification::Nothing,
        }
    } else if packet_id == 3 {
        match Cursor::new(payload).read_terraria_packet::<S2CConnectionApproved>() {
            Ok(packet) => Classification::Publish(ConnectionRequestResult::Approved),
            Err(e) => {
                proof {
                    if frame_fault(payload@) is None {
                        assert(frame_body(payload@).len() >= 1);
                    }
                }
                Classification::Nothing
            },
        }
    } else if packet_id == 9 {
        Classification::Publish(ConnectionRequestResult::Approved)
    } else if packet_id == 37 {
        match Cursor::new(payload).read_terraria_packet::<S2CPasswordRequired>() {
            Ok(packet) => Classification::Publish(ConnectionRequestResult::PasswordRequired),
            Err(e) => Classification::Nothing,
        }
    } else if packet_id == 82 {
        Classification::KeepOpen
    } else {
        Classification::Nothing
    }
}

/// What the scanner does about a segment: what it sends, the state it
/// leaves the connection in, and what it has found.
pub struct Reaction {
    pub sent: Seq<Sent>,
    pub state: ConnectionState,
    pub published: Option<Outcome>,
}

/// The answer to a SYN+ACK: the ACK that ends the handshake and, at once,
/// the connection request. The handshake is then done.
pub open spec fn on_syn_ack(state: ConnectionState, addr: SocketAddrV4, tcp: TcpHeader)
    -> Reaction {
    if has_flag(tcp, FLAG_SYN) && has_flag(tcp, FLAG_ACK) {
        Reaction {
            sent: seq![
                bare(
                    TransmitKind::Ack,
                    addr,
                    tcp,
                    tcp.acknowledgement,
                    seq_add(tcp.sequence, 1),
                ),
                Sent {
                    kind: TransmitKind::Data,
                    addr,
                    source_port: tcp.destination,
                    seq: tcp.acknowledgement,
                    ack: seq_add(tcp.sequence, 1),
                    payload: connect_bytes(),
                },
            ],
            state: ConnectionState { handshake_done: true, ..state },
            published: None,
        }
    } else {
        Reaction { sent: Seq::empty(), state, published: None }
    }
}

/// What a RST and a FIN add to a reaction: either closes the connection,
/// and a FIN is answered with a FIN.
pub open spec fn on_rst_fin(so_far: Reaction, addr: SocketAddrV4, tcp: TcpHeader) -> Reaction {
    let reset = if has_flag(tcp, FLAG_RST) {
        Reaction { state: ConnectionState { closed: true, ..so_far.state }, ..so_far }
    } else {
        so_far
    };
    if has_flag(tcp, FLAG_FIN) {
        Reaction {
            sent: reset.sent.push(
                bare(TransmitKind::Fin, addr, tcp, tcp.acknowledgement, tcp.sequence),
            ),
            state: ConnectionState { closed: true, ..reset.state },
            published: reset.published,
        }
    } else {
        reset
    }
}

/// What the scanner does about a segment of a connection that it knows and
/// that is open. The flags are gone through in the order SYN+ACK, PSH, RST,
/// FIN, and each that is set has its effect; but data that is too short to
/// have an id, data of a server that is already found, and a net module end
/// the reaction where they stand. `known` says whether the server is
/// already found.
pub open spec fn react(state: ConnectionState, known: bool, addr: SocketAddrV4, tcp: TcpHeader)
    -> Reaction {
    let first = on_syn_ack(state, addr, tcp);
    if has_flag(tcp, FLAG_PSH) {
        let acked = Reaction {
            sent: first.sent.push(
                bare(
                    TransmitKind::Ack,
                    addr,
                    tcp,
                    tcp.acknowledgement,
                    seq_add(tcp.sequence, tcp.payload@.len()),
                ),
            ),
            ..first
        };
        let torn_down = acked.sent.push(
            bare(TransmitKind::Rst, addr, tcp, tcp.sequence, tcp.acknowledgement),
        );
        if tcp.payload@.len() < 3 {
            Reaction {
                sent: acked.sent.push(
                    bare(TransmitKind::Rst, addr, tcp, tcp.acknowledgement, tcp.sequence),
                ),
                ..acked
            }
        } else if known {
            acked
        } else {
            match verdict(tcp.payload@) {
                Verdict::KeepOpen => acked,
                Verdict::Publish(outcome) => on_rst_fin(
                    Reaction { sent: torn_down, state: acked.state, published: Some(outcome) },
                    addr,
                    tcp,
                ),
                Verdict::Nothing => on_rst_fin(Reaction { sent: torn_down, ..acked }, addr, tcp),
            }
        }
    } else {
        on_rst_fin(first, addr, tcp)
    }
}

/// No two findings are of the same address.
pub open spec fn distinct_addresses(findings: Seq<Finding>) -> bool {
    forall|i: int, j: int|
        0 <= i < j < findings.len() ==> findings[i].address != findings[j].address
}

/// Some finding is of this address.
pub open spec fn finds(findings: Seq<Finding>, addr: SocketAddrV4) -> bool {
    exists|i: int| 0 <= i < findings.len() && (#[trigger] findings[i]).address == addr
}

/// What the workers of a scan share: the connections that are open, by the
/// address of the server, and the servers that are found.
pub struct Scanner {
    connections: HashMap<u64, ConnectionState>,
    found_servers: Vec<TerrariaServer>,
}

impl Scanner {
    /// The connections that are open.
    pub closed spec fn connections(&self) -> Map<SocketAddrV4, ConnectionState> {
        Map::new(
            |addr: SocketAddrV4| self.connections@.contains_key(addr.spec_key()),
            |addr: SocketAddrV4| self.connections@[addr.spec_key()],
        )
    }

    /// The servers that are found, first found first.
    pub closed spec fn findings(&self) -> Seq<Finding> {
        Seq::new(self.found_servers@.len(), |i: int| self.found_servers@[i]@)
    }

    /// Every key is the key of an address.
    pub closed spec fn keyed(&self) -> bool {
        forall|k: u64| self.connections@.contains_key(k) ==> k < 0x1_0000_0000_0000
    }

    /// No server is found twice.
    pub open spec fn wf(&self) -> bool {
        &&& self.keyed()
        &&& distinct_addresses(self.findings())
    }

    /// A scanner without connections and findings.
    pub fn new() -> (scanner: Self)
        ensures
            scanner.wf(),
            scanner.connections() == Map::<SocketAddrV4, ConnectionState>::empty(),
            scanner.findings() == Seq::<Finding>::empty(),
    {
        let scanner = Scanner { connections: HashMap::new(), found_servers: Vec::new() };
        proof {
            assert(scanner.connections() =~= Map::<SocketAddrV4, ConnectionState>::empty());
            assert(scanner.findings() =~= Seq::<Finding>::empty());
        }
        scanner
    }

    /// Forgets every connection and every finding.
    pub fn clear(&mut self)
        ensures
            final(self).wf(),
            final(self).connections() == Map::<SocketAddrV4, ConnectionState>::empty(),
            final(self).findings() == Seq::<Finding>::empty(),
    {
        self.connections.clear();
        self.found_servers.clear();
        proof {
            assert(self.connections() =~= Map::<SocketAddrV4, ConnectionState>::empty());
            assert(self.findings() =~= Seq::<Finding>::empty());
        }
    }

    /// The state of the connection to `addr`, if there is one.
    pub fn connection(&self, addr: SocketAddrV4) -> (state: Option<ConnectionState>)
        ensures
            state == if self.connections().contains_key(addr) {
                Some(self.connections()[addr])
            } else {
                None
            },
    {
        let key: u64 = addr.key();
        match self.connections.get(&key) {
            Some(state) => Some(*state),
            None => None,
        }
    }

    /// Sets the state of the connection to `addr`, whether there was one or
    /// not.
    pub fn set_connection(&mut self, addr: SocketAddrV4, state: ConnectionState)
        requires
            old(self).wf(),
        ensures
            final(self).wf(),
            final(self).connections() == old(self).connections().insert(addr, state),
            final(self).findings() == old(self).findings(),
    {
        let key: u64 = addr.key();
        self.connections.insert(key, state);
        proof {
            assert forall|other: SocketAddrV4| other != addr implies other.spec_key()
                != addr.spec_key() by {
                if other.spec_key() == addr.spec_key() {
                    lemma_key_injective(other, addr);
                }
            }
            assert(self.connections() =~= old(self).connections().insert(addr, state));
            assert(self.findings() =~= old(self).findings());
        }
    }

    /// How many servers are found.
    pub fn found_count(&self) -> (n: usize)
        ensures
            n == self.findings().len(),
    {
        self.found_servers.len()
    }

    /// Whether the server at `addr` is found.
    pub fn is_found(&self, addr: SocketAddrV4) -> (known: bool)
        ensures
            known == finds(self.findings(), addr),
    {
        let mut i: usize = 0;
        while i < self.found_servers.len()
            invariant
                0 <= i <= self.found_servers@.len(),
                forall|j: int| 0 <= j < i ==> (#[trigger] self.findings()[j]).address != addr,
            decreases self.found_servers@.len() - i,
        {
            if self.found_servers[i].address == addr {
                proof {
                    assert(self.findings()[i as int].address == addr);
                }
                return true;
            }
            i += 1;
        }
        false
    }

    /// Takes down a server as found, unless it is found already: who is
    /// first stays.
    pub fn publish(&mut self, addr: SocketAddrV4, result: ConnectionRequestResult)
        requires
            old(self).wf(),
        ensures
            final(self).wf(),
            final(self).connections() == old(self).connections(),
            final(self).findings() == if finds(old(self).findings(), addr) {
                old(self).findings()
            } else {
                old(self).findings().push(Finding { address: addr, outcome: result@ })
            },
    {
        if self.is_found(addr) {
            return ;
        }
        let ghost before = self.findings();
        self.found_servers.push(TerrariaServer { address: addr, connection_request_result: result });
        proof {
            let after = self.findings();
            assert(after =~= before.push(Finding { address: addr, outcome: result@ }));
            assert forall|i: int, j: int| 0 <= i < j < after.len() implies after[i].address
                != after[j].address by {
                assert(after[i] == before[i]);
                if j < before.len() {
                    assert(after[j] == before[j]);
                }
            }
        }
    }
}

/// A segment without payload.
fn bare_transmit(kind: TransmitKind, addr: SocketAddrV4, tcp: &TcpHeader, seq: u32, ack: u32) -> (t:
    Transmit)
    ensures
        t@ == bare(kind, addr, *tcp, seq, ack),
{
    Transmit { kind, addr, source_port: tcp.destination, seq, ack, payload: Vec::new() }
}

/// The sequence number `n` behind `seq`.
fn advance(seq: u32, n: usize) -> (next: u32)
    ensures
        next == seq_add(seq, n as nat),
{
    let step: u32 = (n as u64 % 0x1_0000_0000) as u32;
    seq.wrapping_add(step)
}

/// The frame of the connection request.
pub fn connect_request() -> (bytes: Vec<u8>)
    ensures
        bytes@ == connect_bytes(),
{
    let mut conn_request_packet: Vec<u8> = Vec::new();
    proof {
        crate::packet::lemma_digits_len(VERSION as nat);
        let text = crate::packet::terraria() + crate::packet::decimal_digits(VERSION as nat);
        crate::types::lemma_length_prefix_len(text.len());
        crate::types::lemma_length_round_trip(text.len(), Seq::empty(), 5);
    }
    let _ = conn_request_packet.write_terraria_packet(C2SConnect { version: VERSION });
    conn_request_packet
}

/// Whether the flag is set.
fn flag_set(tcp: &TcpHeader, flag: u8) -> (set: bool)
    ensures
        set == has_flag(*tcp, flag),
{
    tcp.flags & flag != 0
}

/// What a RST and a FIN add to a reaction.
fn close_on_rst_fin(
    transmits: &mut Vec<Transmit>,
    state: &mut ConnectionState,
    addr: SocketAddrV4,
    tcp: &TcpHeader,
    Ghost(published): Ghost<Option<Outcome>>,
)
    ensures
        (Reaction { sent: sent(final(transmits)@), state: *final(state), published })
            == on_rst_fin(
            Reaction { sent: sent(old(transmits)@), state: *old(state), published },
            addr,
            *tcp,
        ),
{
    // RST
    if flag_set(tcp, tcp_flag_rst()) {
        state.closed = true;
    }
    // FIN
    if flag_set(tcp, tcp_flag_fin()) {
        transmits.push(
            bare_transmit(TransmitKind::Fin, addr, tcp, tcp.acknowledgement, tcp.sequence),
        );
        state.closed = true;
        proof {
            assert(sent(transmits@) =~= sent(old(transmits)@).push(
                bare(TransmitKind::Fin, addr, *tcp, tcp.acknowledgement, tcp.sequence),
            ));
        }
    } else {
        proof {
            assert(sent(transmits@) =~= sent(old(transmits)@));
        }
    }
}

/// One turn of the thread that finishes the TCP handshake and handles
/// incoming packets from the server: what is to be sent about one segment
/// that came in. A segment of an unknown connection is answered with a RST;
/// one of a closed connection is not answered; one of an open connection is
/// reacted to as [`react`] says.
pub fn receiver(scanner: &mut Scanner, ipv4: &Ipv4Header, tcp: &TcpHeader) -> (transmits: Vec<
    Transmit,
>)
    requires
        old(scanner).wf(),
    ensures
        final(scanner).wf(),
        ({
            let addr = SocketAddrV4 { ip: ipv4.source, port: tcp.source };
            let before = old(scanner).connections();
            if !before.contains_key(addr) {
                &&& sent(transmits@) == seq![
                    bare(TransmitKind::Rst, addr, *tcp, tcp.acknowledgement, tcp.sequence),
                ]
                &&& final(scanner).connections() == before
                &&& final(scanner).findings() == old(scanner).findings()
            } else if before[addr].closed {
                &&& sent(transmits@) == Seq::<Sent>::empty()
                &&& final(scanner).connections() == before
                &&& final(scanner).findings() == old(scanner).findings()
            } else {
                let reaction = react(
                    before[addr],
                    finds(old(scanner).findings(), addr),
                    addr,
                    *tcp,
                );
                &&& sent(transmits@) == reaction.sent
                &&& final(scanner).connections() == before.insert(addr, reaction.state)
                &&& final(scanner).findings() == match reaction.published {
                    Some(outcome) => old(scanner).findings().push(
                        Finding { address: addr, outcome },
                    ),
                    None => old(scanner).findings(),
                }
            }
        }),
{
    let addr = SocketAddrV4::new(ipv4.source, tcp.source);
    let mut transmits: Vec<Transmit> = Vec::new();
    let mut conn = match scanner.connection(addr) {
        Some(conn) => conn,
        None => {
            transmits.push(
                bare_transmit(TransmitKind::Rst, addr, tcp, tcp.acknowledgement, tcp.sequence),
            );
            proof {
                assert(sent(transmits@) =~= seq![
                    bare(TransmitKind::Rst, addr, *tcp, tcp.acknowledgement, tcp.sequence),
                ]);
            }
            return transmits;
        },
    };

    if conn.closed {
        proof {
            assert(sent(transmits@) =~= Seq::<Sent>::empty());
        }
        return transmits;
    }
    let ghost state = conn;
    let ghost known = finds(scanner.findings(), addr);

    // SYN+ACK
    if flag_set(tcp, tcp_flag_syn()) && flag_set(tcp, tcp_flag_ack()) {
        transmits.push(
            bare_transmit(
                TransmitKind::Ack,
                addr,
                tcp,
                tcp.acknowledgement,
                advance(tcp.sequence, 1),
            ),
        );
        transmits.push(
            Transmit {
                kind: TransmitKind::Data,
                addr,
                source_port: tcp.destination,
                seq: tcp.acknowledgement,
                ack: advance(tcp.sequence, 1),
                payload: connect_request(),
            },
        );
        conn.handshake_done = true;
    }
    proof {
        assert(sent(transmits@) =~= on_syn_ack(state, addr, *tcp).sent);
    }
    let ghost first = on_syn_ack(state, addr, *tcp);

    // PSH - Terraria packet
    if flag_set(tcp, tcp_flag_psh()) {
        transmits.push(
            bare_transmit(
                TransmitKind::Ack,
                addr,
                tcp,
                tcp.acknowledgement,
                advance(tcp.sequence, tcp.payload.len()),
            ),
        );
        let ghost acked = sent(transmits@);
        proof {
            assert(acked =~= first.sent.push(
                bare(
                    TransmitKind::Ack,
                    addr,
                    *tcp,
                    tcp.acknowledgement,
                    seq_add(tcp.sequence, tcp.payload@.len()),
                ),
            ));
        }
        if tcp.payload.len() < 3 {
            transmits.push(
                bare_transmit(TransmitKind::Rst, addr, tcp, tcp.acknowledgement, tcp.sequence),
            );
            proof {
                assert(sent(transmits@) =~= acked.push(
                    bare(TransmitKind::Rst, addr, *tcp, tcp.acknowledgement, tcp.sequence),
                ));
            }
            scanner.set_connection(addr, conn);
            return transmits;
        }
        if scanner.is_found(addr) {
            scanner.set_connection(addr, conn);
            return transmits;
        }
        let ghost mut published: Option<Outcome> = None;
        match classify(tcp.payload.as_slice()) {
            Classification::Publish(result) => {
                proof {
                    published = Some(result@);
                }
                scanner.publish(addr, result);
            },
            Classification::KeepOpen => {
                scanner.set_connection(addr, conn);
                return transmits;
            },
            Classification::Nothing => {},
        }
        transmits.push(
            bare_transmit(TransmitKind::Rst, addr, tcp, tcp.sequence, tcp.acknowledgement),
        );
        proof {
            assert(sent(transmits@) =~= acked.push(
                bare(TransmitKind::Rst, addr, *tcp, tcp.sequence, tcp.acknowledgement),
            ));
        }
        close_on_rst_fin(&mut transmits, &mut conn, addr, tcp, Ghost(published));
        scanner.set_connection(addr, conn);
        return transmits;
    }
    close_on_rst_fin(&mut transmits, &mut conn, addr, tcp, Ghost(None));
    scanner.set_connection(addr, conn);
    transmits
}

/// Whether the connection to `addr` is to be forgotten at `now`.
pub open spec fn expired_at(
    connections: Map<SocketAddrV4, ConnectionState>,
    addr: SocketAddrV4,
    now: u64,
) -> bool {
    connections[addr].spec_expired(now)
}

/// The addresses whose connection is not to be forgotten at `now`.
pub open spec fn unexpired(connections: Map<SocketAddrV4, ConnectionState>, now: u64) -> Set<
    SocketAddrV4,
> {
    Set::new(
        |addr: SocketAddrV4| connections.contains_key(addr) && !expired_at(connections, addr, now),
    )
}

/// One turn of the thread that removes connections that didn't send a
/// SYN+ACK or were reset: every connection that is closed, or whose SYN is
/// more than the time to live before `now`, is forgotten.
pub fn garbage_collector(scanner: &mut Scanner, now: u64)
    requires
        old(scanner).wf(),
    ensures
        final(scanner).wf(),
        final(scanner).findings() == old(scanner).findings(),
        final(scanner).connections() == old(scanner).connections().restrict(
            unexpired(old(scanner).connections(), now),
        ),
        forall|addr: SocketAddrV4| #[trigger]
            final(scanner).connections().contains_key(addr) ==> !expired_at(
                final(scanner).connections(),
                addr,
                now,
            ),
{
    let keys = all_keys(&scanner.connections);
    let ghost before = scanner.connections@;
    let mut i: usize = 0;
    while i < keys.len()
        invariant
            0 <= i <= keys@.len(),
            scanner.found_servers == old(scanner).found_servers,
            scanner.connections@ == swept(before, keys@, i as int, now),
        decreases keys@.len() - i,
    {
        let key: u64 = keys[i];
        proof {
            lemma_swept(before, keys@, i as int, now, key);
        }
        let gone: bool = match scanner.connections.get(&key) {
            Some(state) => state.expired(now),
            None => false,
        };
        if gone {
            scanner.connections.remove(&key);
        }
        proof {
            assert(scanner.connections@ =~= swept(before, keys@, i + 1, now));
        }
        i += 1;
    }
    proof {
        let kept = unexpired(old(scanner).connections(), now);
        let after = scanner.connections@;
        assert forall|k: u64|
            (after.dom().contains(k) <==> before.dom().contains(k) && !before[k].spec_expired(
                now,
            )) && (after.dom().contains(k) ==> after[k] == before[k]) by {
            lemma_swept(before, keys@, i as int, now, k);
            if before.dom().contains(k) {
                assert(keys@.to_set().contains(k));
                assert(keys@.contains(k));
                let j = choose|j: int| 0 <= j < keys@.len() && keys@[j] == k;
                assert(0 <= j < i && keys@[j] == k);
            }
        }
        assert forall|addr: SocketAddrV4|
            scanner.connections().dom().contains(addr) <==> old(scanner).connections().restrict(
                kept,
            ).dom().contains(addr) by {
            let k = addr.spec_key();
            assert(after.dom().contains(k) <==> before.dom().contains(k)
                && !before[k].spec_expired(now));
        }
        assert forall|addr: SocketAddrV4| scanner.connections().dom().contains(addr) implies
            scanner.connections()[addr] == old(scanner).connections().restrict(kept)[addr] by {
            let k = addr.spec_key();
            assert(after.dom().contains(k) ==> after[k] == before[k]);
        }
        assert(scanner.connections() =~= old(scanner).connections().restrict(kept));
        assert(scanner.findings() =~= old(scanner).findings());
        assert forall|k: u64| after.contains_key(k) implies k < 0x1_0000_0000_0000 by {
            lemma_swept(before, keys@, i as int, now, k);
            assert(before.contains_key(k));
        }
    }
}

/// The connections after the first `n` of `keys` have been looked at: those
/// of them that were expired are gone.
pub open spec fn swept(
    before: Map<u64, ConnectionState>,
    keys: Seq<u64>,
    n: int,
    now: u64,
) -> Map<u64, ConnectionState>
    decreases n,
{
    if n <= 0 {
        before
    } else if before.contains_key(keys[n - 1]) && before[keys[n - 1]].spec_expired(now) {
        swept(before, keys, n - 1, now).remove(keys[n - 1])
    } else {
        swept(before, keys, n - 1, now)
    }
}

/// After the first `n` keys have been looked at, a connection is left
/// unless its key was among them and it was expired; what is left is as it
/// was.
pub proof fn lemma_swept(
    before: Map<u64, ConnectionState>,
    keys: Seq<u64>,
    n: int,
    now: u64,
    k: u64,
)
    requires
        0 <= n <= keys.len(),
    ensures
        swept(before, keys, n, now).dom().contains(k) <==> before.dom().contains(k) && !(
        before[k].spec_expired(now) && exists|j: int| 0 <= j < n && keys[j] == k),
        swept(before, keys, n, now).dom().contains(k) ==> swept(before, keys, n, now)[k]
            == before[k],
    decreases n,
{
    if n > 0 {
        lemma_swept(before, keys, n - 1, now, k);
        let last = keys[n - 1];
        if exists|j: int| 0 <= j < n - 1 && keys[j] == k {
            let j = choose|j: int| 0 <= j < n - 1 && keys[j] == k;
            assert(0 <= j < n && keys[j] == k);
        }
        if k == last {
            assert(0 <= n - 1 < n && keys[n - 1] == k);
        }
        if exists|j: int| 0 <= j < n && keys[j] == k {
            let j = choose|j: int| 0 <= j < n && keys[j] == k;
            if j < n - 1 {
                assert(0 <= j < n - 1 && keys[j] == k);
            }
        }
    }
}

/// The keys of the connections, each once.
fn all_keys(connections: &HashMap<u64, ConnectionState>) -> (keys: Vec<u64>)
    ensures
        keys@.to_set() == connections@.dom(),
        keys@.no_duplicates(),
{
    let mut collected: Vec<u64> = Vec::new();
    let ghost all: Seq<u64> = vstd::std_specs::hash::spec_keys_iter(
        connections,
    ).remaining().unref();
    for key in it: connections.keys()
        invariant
            it.seq().unref() == all,
            collected@ == all.take(it.index() as int),
    {
        collected.push(*key);
        proof {
            assert(collected@ =~= all.take(it.index() + 1));
        }
    }
    proof {
        assert(collected@ =~= all);
    }
    collected
}

/// The servers that are found, first found first.
pub fn get_found_servers(scanner: &Scanner) -> (servers: Vec<TerrariaServer>)
    ensures
        servers@.len() == scanner.findings().len(),
        forall|i: int| 0 <= i < servers@.len() ==> (#[trigger] servers@[i])@ == scanner.findings()[i],
        scanner.wf() ==> distinct_addresses(Seq::new(servers@.len(), |i: int| servers@[i]@)),
{
    let mut servers: Vec<TerrariaServer> = Vec::new();
    let mut i: usize = 0;
    while i < scanner.found_servers.len()
        invariant
            0 <= i <= scanner.found_servers@.len(),
            servers@.len() == i,
            forall|j: int| 0 <= j < i ==> servers@[j] == scanner.found_servers@[j],
        decreases scanner.found_servers@.len() - i,
    {
        servers.push(scanner.found_servers[i].duplicate());
        i += 1;
    }
    proof {
        assert(Seq::new(servers@.len(), |i: int| servers@[i]@) =~= scanner.findings());
    }
    servers
}

/// How far the sender of SYNs has come.
#[derive(Debug, Clone, Copy, PartialEq, Eq, Structural)]
pub struct Progress {
    /// The packets sent since the report before this one.
    pub packets: u64,
    /// The packets sent at all.
    pub sent: u64,
    /// The packets to send at all.
    pub total: u64,
}

/// What one turn of the sender of SYNs asks for.
#[derive(Debug, Clone, Copy, PartialEq, Eq, Structural)]
pub struct SynStep {
    /// Where the SYN goes.
    pub target: SocketAddrV4,
    /// The sequence number that the SYN carries.
    pub isn: u32,
    /// Whether the batch is used up, so that the next turn has to wait for
    /// the next tick.
    pub wait: bool,
    /// A report of progress, if one is due.
    pub progress: Option<Progress>,
}

/// What the sender of SYNs keeps from turn to turn.
pub struct SynEmitter {
    ranges: ScanRanges,
    cursor: TargetCursor,
    throttler: Throttler,
    batch_remaining: u64,
    total: u64,
    sent: u64,
    since_report: u64,
    last_report: u64,
}

impl SynEmitter {
    /// The ranges that are scanned.
    pub closed spec fn ranges(&self) -> Seq<crate::targets::ScanRange> {
        self.ranges@
    }

    /// How many SYNs have been asked for.
    pub closed spec fn position(&self) -> int {
        self.cursor.position(self.ranges@)
    }

    /// How many SYNs may be asked for before the next tick.
    pub closed spec fn batch_remaining(&self) -> u64 {
        self.batch_remaining
    }

    /// The packets of a batch.
    pub closed spec fn batch(&self) -> u64 {
        self.throttler.spec_batch()
    }

    /// How many SYNs have been asked for since the last report.
    pub closed spec fn since_report(&self) -> u64 {
        self.since_report
    }

    /// When the last report was made.
    pub closed spec fn last_report(&self) -> u64 {
        self.last_report
    }

    pub closed spec fn wf(&self) -> bool {
        &&& self.ranges.wf()
        &&& self.cursor.wf(self.ranges@)
        &&& self.total == total(self.ranges@)
        &&& self.sent == self.cursor.position(self.ranges@)
        &&& self.since_report <= self.sent
        &&& self.batch_remaining >= 1
    }

    /// Whether a report is due at `now`: a second after the last one.
    pub open spec fn report_due(&self, now: u64) -> bool {
        now >= self.last_report() && now - self.last_report() >= REPORT_PERIOD
    }

    /// A sender at the start of `ranges`, with its first batch, that sends
    /// at most `max_pps` packets in a second.
    pub fn new(ranges: ScanRanges, max_pps: u64, now: u64) -> (emitter: Self)
        requires
            ranges.wf(),
            ranges.spec_count() <= u64::MAX,
        ensures
            emitter.wf(),
            emitter.ranges() == ranges@,
            emitter.position() == 0,
            emitter.batch() == batch_of(max_pps),
            emitter.batch_remaining() == emitter.batch(),
            emitter.since_report() == 0,
            emitter.last_report() == now,
    {
        let mut throttler = Throttler::new(max_pps);
        let total: u64 = ranges.count();
        let cursor = TargetCursor::start(&ranges);
        let batch_remaining: u64 = throttler.next_batch();
        SynEmitter {
            ranges,
            cursor,
            throttler,
            batch_remaining,
            total,
            sent: 0,
            since_report: 0,
            last_report: now,
        }
    }
}

/// Draws the first sequence number of a connection: some number below
/// [`ISN_BOUND`].
pub fn draw_isn() -> (isn: u32)
    ensures
        isn < ISN_BOUND,
{
    random_u32_below(ISN_BOUND)
}

/// One turn of the thread that spews SYN packets: the next target in the
/// order of the visit, with a sequence number drawn for it, and its
/// connection taken down as opened at `now`. Nothing once every target has
/// had its turn.
pub fn synner(scanner: &mut Scanner, emitter: &mut SynEmitter, now: u64) -> (step: Option<SynStep>)
    requires
        old(scanner).wf(),
        old(emitter).wf(),
    ensures
        final(scanner).wf(),
        final(emitter).wf(),
        final(emitter).ranges() == old(emitter).ranges(),
        final(emitter).batch() == old(emitter).batch(),
        final(scanner).findings() == old(scanner).findings(),
        0 <= old(emitter).position() <= total(old(emitter).ranges()),
        match step {
            None => {
                &&& old(emitter).position() == total(old(emitter).ranges())
                &&& final(emitter).position() == old(emitter).position()
                &&& final(emitter).batch_remaining() == old(emitter).batch_remaining()
                &&& final(emitter).since_report() == old(emitter).since_report()
                &&& final(emitter).last_report() == old(emitter).last_report()
                &&& final(scanner).connections() == old(scanner).connections()
            },
            Some(s) => {
                &&& old(emitter).position() < total(old(emitter).ranges())
                &&& s.target == all_targets(old(emitter).ranges())[old(emitter).position()]
                &&& final(emitter).position() == old(emitter).position() + 1
                &&& s.isn < ISN_BOUND
                &&& final(scanner).connections() == old(scanner).connections().insert(
                    s.target,
                    ConnectionState { syn_time: now, handshake_done: false, closed: false },
                )
                &&& s.wait == (old(emitter).batch_remaining() == 1)
                &&& final(emitter).batch_remaining() == if s.wait {
                    old(emitter).batch()
                } else {
                    (old(emitter).batch_remaining() - 1) as u64
                }
                &&& if old(emitter).report_due(now) {
                    &&& s.progress == Some(
                        Progress {
                            packets: (old(emitter).since_report() + 1) as u64,
                            sent: (old(emitter).position() + 1) as u64,
                            total: total(old(emitter).ranges()) as u64,
                        },
                    )
                    &&& final(emitter).since_report() == 0
                    &&& final(emitter).last_report() == now
                } else {
                    &&& s.progress is None
                    &&& final(emitter).since_report() == old(emitter).since_report() + 1
                    &&& final(emitter).last_report() == old(emitter).last_report()
                }
            },
        },
{
    let target = match emitter.cursor.next(&emitter.ranges) {
        Some(target) => target,
        None => {
            return None;
        },
    };
    let isn: u32 = draw_isn();
    emitter.sent = emitter.sent + 1;
    emitter.since_report = emitter.since_report + 1;
    let mut progress: Option<Progress> = None;
    if now >= emitter.last_report && now - emitter.last_report >= REPORT_PERIOD {
        progress = Some(
            Progress { packets: emitter.since_report, sent: emitter.sent, total: emitter.total },
        );
        emitter.last_report = now;
        emitter.since_report = 0;
    }
    emitter.batch_remaining = emitter.batch_remaining - 1;
    let wait: bool = emitter.batch_remaining == 0;
    if wait {
        emitter.batch_remaining = emitter.throttler.next_batch();
    }
    scanner.set_connection(target, ConnectionState::new(now));
    Some(SynStep { target, isn, wait, progress })
}

/// The time after which a scan is followed by a second look at what it
/// found, in seconds: two hours.
pub const RESCAN_AFTER: u64 = 7200;

/// Whether a scan that took `elapsed` seconds is followed by a second look.
pub fn needs_rescan(elapsed: u64) -> (rescan: bool)
    ensures
        rescan == (elapsed > RESCAN_AFTER),
{
    elapsed > 60 * 60 * 2
}

/// The addresses of the servers that are found, first found first.
pub fn found_addresses(scanner: &Scanner) -> (addrs: Vec<SocketAddrV4>)
    ensures
        addrs@ == Seq::new(scanner.findings().len(), |i: int| scanner.findings()[i].address),
{
    let mut addrs: Vec<SocketAddrV4> = Vec::new();
    let mut i: usize = 0;
    while i < scanner.found_servers.len()
        invariant
            0 <= i <= scanner.found_servers@.len(),
            addrs@ == Seq::new(i as nat, |j: int| scanner.findings()[j].address),
        decreases scanner.found_servers@.len() - i,
    {
        addrs.push(scanner.found_servers[i].address);
        proof {
            assert(addrs@ =~= Seq::new((i + 1) as nat, |j: int| scanner.findings()[j].address));
        }
        i += 1;
    }
    addrs
}

} // verus!
