use chlorophyte::model::{ConnectionRequestResult, ConnectionState, TerrariaServer, TTL};
use chlorophyte::net::SocketAddrV4;
use chlorophyte::scanner::{
    classify, connect_request, draw_isn, found_addresses, garbage_collector,
    get_found_servers, needs_rescan, receiver, synner, Classification, Ipv4Header, Progress,
    Scanner, SynEmitter, TcpHeader, Transmit, TransmitKind, ISN_BOUND,
};
use chlorophyte::targets::{ScanRange, ScanRanges};
use chlorophyte::throttle::Throttler;

const FIN: u8 = 0x01;
const SYN: u8 = 0x02;
const RST: u8 = 0x04;
const PSH: u8 = 0x08;
const ACK: u8 = 0x10;

fn server() -> SocketAddrV4 {
    SocketAddrV4::new(0x0a000001, 7777)
}

fn segment(flags: u8, sequence: u32, acknowledgement: u32, payload: &[u8]) -> TcpHeader {
    TcpHeader {
        source: 7777,
        destination: 61000,
        sequence,
        acknowledgement,
        flags,
        payload: payload.to_vec(),
    }
}

fn from_server() -> Ipv4Header {
    Ipv4Header { source: 0x0a000001 }
}

fn bare(kind: TransmitKind, seq: u32, ack: u32) -> Transmit {
    Transmit { kind, addr: server(), source_port: 61000, seq, ack, payload: vec![] }
}

fn with_flow() -> Scanner {
    let mut scanner = Scanner::new();
    scanner.set_connection(server(), ConnectionState::new(0));
    scanner
}

fn outcome_of(s: &TerrariaServer) -> String {
    match &s.connection_request_result {
        ConnectionRequestResult::Approved => "Approved".to_string(),
        ConnectionRequestResult::PasswordRequired => "PasswordRequired".to_string(),
        ConnectionRequestResult::Booted(reason) => format!("Booted({reason})"),
    }
}

fn found(scanner: &Scanner) -> Vec<(SocketAddrV4, String)> {
    get_found_servers(scanner).iter().map(|s| (s.address, outcome_of(s))).collect()
}

#[test]
fn handshake_to_approved() {
    let isn = 5000;
    let mut scanner = with_flow();
    let out = receiver(&mut scanner, &from_server(), &segment(SYN | ACK, 1000, isn + 1, &[]));
    assert_eq!(
        out,
        vec![
            bare(TransmitKind::Ack, isn + 1, 1001),
            Transmit {
                kind: TransmitKind::Data,
                addr: server(),
                source_port: 61000,
                seq: isn + 1,
                ack: 1001,
                payload: b"\x0f\x00\x01\x0bTerraria279".to_vec(),
            },
        ]
    );
    assert_eq!(
        scanner.connection(server()),
        Some(ConnectionState { syn_time: 0, handshake_done: true, closed: false })
    );
    assert!(found(&scanner).is_empty());

    let frame = [0x0a, 0x00, 0x03, 0, 0, 0, 0, 0, 0, 0];
    let out = receiver(&mut scanner, &from_server(), &segment(PSH | ACK, 1001, isn + 16, &frame));
    assert_eq!(
        out,
        vec![bare(TransmitKind::Ack, isn + 16, 1011), bare(TransmitKind::Rst, 1001, isn + 16)]
    );
    assert_eq!(found(&scanner), vec![(server(), "Approved".to_string())]);
}

#[test]
fn booted_with_reason() {
    let mut scanner = with_flow();
    let frame = b"\x0f\x00\x02\x0dInvalid ver";
    receiver(&mut scanner, &from_server(), &segment(PSH, 1, 2, frame));
    assert_eq!(found(&scanner), vec![(server(), "Booted(Invalid ver)".to_string())]);
}

#[test]
fn booted_with_reason_read_two_bytes_short() {
    let mut scanner = with_flow();
    let frame = b"\x0f\x00\x02\x0bInvalid ver";
    receiver(&mut scanner, &from_server(), &segment(PSH, 1, 2, frame));
    assert_eq!(found(&scanner), vec![(server(), "Booted(Invalid v)".to_string())]);
}

#[test]
fn unknown_destination_gets_one_rst() {
    let mut scanner = Scanner::new();
    let frame = [0x0a, 0x00, 0x03, 0, 0, 0, 0, 0, 0, 0];
    let out = receiver(&mut scanner, &from_server(), &segment(PSH | ACK, 1000, 2000, &frame));
    assert_eq!(out, vec![bare(TransmitKind::Rst, 2000, 1000)]);
    assert!(found(&scanner).is_empty());
    assert_eq!(scanner.connection(server()), None);
}

#[test]
fn gc_evicts_after_the_time_to_live() {
    let mut scanner = with_flow();
    garbage_collector(&mut scanner, 6_900_000_000);
    assert!(scanner.connection(server()).is_some());
    garbage_collector(&mut scanner, 7_000_000_000);
    assert!(scanner.connection(server()).is_some());
    garbage_collector(&mut scanner, 7_040_000_000);
    assert!(scanner.connection(server()).is_none());
    let out = receiver(&mut scanner, &from_server(), &segment(SYN | ACK, 1, 2, &[]));
    assert_eq!(out, vec![bare(TransmitKind::Rst, 2, 1)]);
}

#[test]
fn gc_evicts_closed_connections_and_keeps_the_rest() {
    let mut scanner = Scanner::new();
    let old = SocketAddrV4::new(1, 1);
    let closed = SocketAddrV4::new(2, 2);
    let fresh = SocketAddrV4::new(3, 3);
    let ahead = SocketAddrV4::new(4, 4);
    scanner.set_connection(old, ConnectionState::new(100));
    scanner.set_connection(
        closed,
        ConnectionState { syn_time: TTL + 50, handshake_done: true, closed: true },
    );
    scanner.set_connection(fresh, ConnectionState::new(101));
    scanner.set_connection(ahead, ConnectionState::new(u64::MAX));
    garbage_collector(&mut scanner, TTL + 101);
    assert_eq!(scanner.connection(old), None);
    assert_eq!(scanner.connection(closed), None);
    assert_eq!(scanner.connection(fresh), Some(ConnectionState::new(101)));
    assert_eq!(scanner.connection(ahead), Some(ConnectionState::new(u64::MAX)));
    garbage_collector(&mut scanner, TTL + 101);
    assert_eq!(scanner.connection(fresh), Some(ConnectionState::new(101)));
}

#[test]
fn connection_state_expires_strictly_after_the_time_to_live() {
    assert_eq!(TTL, 7_000_000_000);
    let state = ConnectionState::new(10);
    assert!(!state.expired(0));
    assert!(!state.expired(10 + TTL));
    assert!(state.expired(11 + TTL));
    let closed = ConnectionState { syn_time: 10, handshake_done: false, closed: true };
    assert!(closed.expired(10));
}

#[test]
fn a_closed_connection_is_not_answered() {
    let mut scanner = Scanner::new();
    let state = ConnectionState { syn_time: 0, handshake_done: true, closed: true };
    scanner.set_connection(server(), state);
    let frame = [0x0a, 0x00, 0x03, 0, 0, 0, 0, 0, 0, 0];
    let out =
        receiver(&mut scanner, &from_server(), &segment(SYN | ACK | PSH | FIN, 1, 2, &frame));
    assert_eq!(out, vec![]);
    assert!(found(&scanner).is_empty());
    assert_eq!(scanner.connection(server()), Some(state));
}

#[test]
fn a_short_payload_is_reset() {
    let mut scanner = with_flow();
    let out = receiver(&mut scanner, &from_server(), &segment(PSH | FIN, 100, 200, &[1, 2]));
    assert_eq!(
        out,
        vec![bare(TransmitKind::Ack, 200, 102), bare(TransmitKind::Rst, 200, 100)]
    );
    assert!(found(&scanner).is_empty());
    assert_eq!(scanner.connection(server()), Some(ConnectionState::new(0)));
}

#[test]
fn a_server_is_found_once() {
    let mut scanner = with_flow();
    receiver(&mut scanner, &from_server(), &segment(PSH, 100, 200, &[3, 0, 37]));
    assert_eq!(found(&scanner), vec![(server(), "PasswordRequired".to_string())]);
    let frame = [0x0a, 0x00, 0x03, 0, 0, 0, 0, 0, 0, 0];
    let out = receiver(&mut scanner, &from_server(), &segment(PSH | FIN, 100, 200, &frame));
    assert_eq!(out, vec![bare(TransmitKind::Ack, 200, 110)]);
    assert_eq!(found(&scanner), vec![(server(), "PasswordRequired".to_string())]);
    assert_eq!(scanner.connection(server()), Some(ConnectionState::new(0)));
}

#[test]
fn a_net_module_keeps_the_connection_open() {
    let mut scanner = with_flow();
    let out =
        receiver(&mut scanner, &from_server(), &segment(PSH | RST | FIN, 100, 200, &[3, 0, 82]));
    assert_eq!(out, vec![bare(TransmitKind::Ack, 200, 103)]);
    assert!(found(&scanner).is_empty());
    assert_eq!(scanner.connection(server()), Some(ConnectionState::new(0)));
    let out = receiver(&mut scanner, &from_server(), &segment(PSH, 103, 200, &[3, 0, 9]));
    assert_eq!(
        out,
        vec![bare(TransmitKind::Ack, 200, 106), bare(TransmitKind::Rst, 103, 200)]
    );
    assert_eq!(found(&scanner), vec![(server(), "Approved".to_string())]);
}

#[test]
fn an_unknown_packet_is_reset_and_tells_nothing() {
    let mut scanner = with_flow();
    let out = receiver(&mut scanner, &from_server(), &segment(PSH, 100, 200, &[3, 0, 7]));
    assert_eq!(
        out,
        vec![bare(TransmitKind::Ack, 200, 103), bare(TransmitKind::Rst, 100, 200)]
    );
    assert!(found(&scanner).is_empty());
    let out = receiver(&mut scanner, &from_server(), &segment(PSH, 100, 200, &[9, 0, 2, 5, 1]));
    assert_eq!(out.len(), 2);
    assert!(found(&scanner).is_empty());
}

#[test]
fn every_flag_has_its_effect_in_order() {
    let mut scanner = with_flow();
    let frame = [0x0a, 0x00, 0x03, 0, 0, 0, 0, 0, 0, 0];
    let out =
        receiver(&mut scanner, &from_server(), &segment(SYN | ACK | PSH | FIN, 1000, 2000, &frame));
    let kinds: Vec<TransmitKind> = out.iter().map(|t| t.kind).collect();
    assert_eq!(
        kinds,
        vec![
            TransmitKind::Ack,
            TransmitKind::Data,
            TransmitKind::Ack,
            TransmitKind::Rst,
            TransmitKind::Fin
        ]
    );
    assert_eq!(out[2], bare(TransmitKind::Ack, 2000, 1010));
    assert_eq!(out[3], bare(TransmitKind::Rst, 1000, 2000));
    assert_eq!(out[4], bare(TransmitKind::Fin, 2000, 1000));
    assert_eq!(found(&scanner), vec![(server(), "Approved".to_string())]);
    assert_eq!(
        scanner.connection(server()),
        Some(ConnectionState { syn_time: 0, handshake_done: true, closed: true })
    );
}

#[test]
fn rst_closes_silently_and_fin_is_answered() {
    let mut scanner = with_flow();
    let out = receiver(&mut scanner, &from_server(), &segment(RST, 1, 2, &[]));
    assert_eq!(out, vec![]);
    assert_eq!(
        scanner.connection(server()),
        Some(ConnectionState { syn_time: 0, handshake_done: false, closed: true })
    );
    let mut scanner = with_flow();
    let out = receiver(&mut scanner, &from_server(), &segment(FIN | ACK, 1, 2, &[]));
    assert_eq!(out, vec![bare(TransmitKind::Fin, 2, 1)]);
    assert_eq!(
        scanner.connection(server()),
        Some(ConnectionState { syn_time: 0, handshake_done: false, closed: true })
    );
}

#[test]
fn syn_alone_or_ack_alone_is_no_handshake() {
    let mut scanner = with_flow();
    assert_eq!(receiver(&mut scanner, &from_server(), &segment(SYN, 1, 2, &[])), vec![]);
    assert_eq!(receiver(&mut scanner, &from_server(), &segment(ACK, 1, 2, &[])), vec![]);
    assert_eq!(scanner.connection(server()), Some(ConnectionState::new(0)));
}

#[test]
fn sequence_numbers_count_round() {
    let mut scanner = with_flow();
    let out = receiver(&mut scanner, &from_server(), &segment(SYN | ACK, u32::MAX, 7, &[]));
    assert_eq!(out[0], bare(TransmitKind::Ack, 7, 0));
    assert_eq!(out[1].ack, 0);
    let out = receiver(&mut scanner, &from_server(), &segment(PSH, u32::MAX - 1, 7, &[3, 0, 82]));
    assert_eq!(out, vec![bare(TransmitKind::Ack, 7, 1)]);
}

#[test]
fn payloads_are_classified_by_their_third_byte() {
    let publishes = |payload: &[u8], wanted: &str| match classify(payload) {
        Classification::Publish(result) => {
            let server = TerrariaServer { address: server(), connection_request_result: result };
            outcome_of(&server) == wanted
        }
        _ => false,
    };
    assert!(publishes(&[3, 0, 3], "Approved"));
    assert!(publishes(&[0xff, 0xff, 9], "Approved"));
    assert!(publishes(&[3, 0, 37], "PasswordRequired"));
    assert!(publishes(&[4, 0, 2, 2], "Booted()"));
    assert!(publishes(b"\x06\x00\x02\x04ok", "Booted(ok)"));
    assert!(matches!(classify(&[4, 0, 3]), Classification::Nothing));
    assert!(matches!(classify(&[1, 0, 3]), Classification::Nothing));
    assert!(matches!(classify(&[4, 0, 37]), Classification::Nothing));
    assert!(matches!(classify(&[4, 0, 2, 1]), Classification::Nothing));
    assert!(matches!(classify(&[4, 0, 2, 9]), Classification::Nothing));
    assert!(matches!(classify(&[3, 0, 82]), Classification::KeepOpen));
    assert!(matches!(classify(&[0, 0, 82]), Classification::KeepOpen));
    assert!(matches!(classify(&[3, 0, 1]), Classification::Nothing));
}

#[test]
fn the_connect_request_is_version_279() {
    assert_eq!(connect_request(), b"\x0f\x00\x01\x0bTerraria279".to_vec());
}

#[test]
fn publishing_keeps_the_first_finding_of_an_address() {
    let mut scanner = Scanner::new();
    let other = SocketAddrV4::new(9, 9);
    scanner.publish(server(), ConnectionRequestResult::Approved);
    scanner.publish(other, ConnectionRequestResult::Booted("no".to_string()));
    scanner.publish(server(), ConnectionRequestResult::PasswordRequired);
    assert!(scanner.is_found(server()));
    assert!(scanner.is_found(other));
    assert!(!scanner.is_found(SocketAddrV4::new(9, 10)));
    assert_eq!(
        found(&scanner),
        vec![(server(), "Approved".to_string()), (other, "Booted(no)".to_string())]
    );
    assert_eq!(found_addresses(&scanner), vec![server(), other]);
    scanner.set_connection(other, ConnectionState::new(1));
    scanner.clear();
    assert!(found(&scanner).is_empty());
    assert_eq!(scanner.connection(other), None);
}

#[test]
fn sequence_numbers_are_drawn_below_the_bound() {
    assert_eq!(ISN_BOUND, u32::MAX - 100_000);
    let mut seen = std::collections::HashSet::new();
    for _ in 0..10_000 {
        let isn = draw_isn();
        assert!(isn < ISN_BOUND);
        seen.insert(isn);
    }
    assert!(seen.len() > 1);
}

#[test]
fn the_throttler_hands_out_a_thousandth_of_the_rate() {
    assert_eq!(Throttler::new(10_000).next_batch(), 10);
    assert_eq!(Throttler::new(1999).next_batch(), 1);
    assert_eq!(Throttler::new(999).next_batch(), 1);
    assert_eq!(Throttler::new(0).next_batch(), 1);
    assert_eq!(Throttler::new(u64::MAX).next_batch(), u64::MAX / 1000);
    assert_eq!(Throttler::new(5).max_pps(), 5);
}

#[test]
fn the_synner_visits_every_target_in_order() {
    let mut ranges = ScanRanges::new();
    ranges.extend(vec![
        ScanRange::single_address(20, 1, 2),
        ScanRange::single_port(10, 11, 7),
    ]);
    let mut scanner = Scanner::new();
    let mut emitter = SynEmitter::new(ranges, 2000, 0);
    let mut targets = vec![];
    let mut waits = vec![];
    let mut now = 5;
    while let Some(step) = synner(&mut scanner, &mut emitter, now) {
        assert!(step.isn < ISN_BOUND);
        assert_eq!(step.progress, None);
        assert_eq!(scanner.connection(step.target), Some(ConnectionState::new(now)));
        targets.push(step.target);
        waits.push(step.wait);
        now += 1;
    }
    assert_eq!(
        targets,
        vec![
            SocketAddrV4::new(10, 7),
            SocketAddrV4::new(11, 7),
            SocketAddrV4::new(20, 1),
            SocketAddrV4::new(20, 2),
        ]
    );
    assert_eq!(waits, vec![false, true, false, true]);
    assert_eq!(synner(&mut scanner, &mut emitter, now), None);
    assert_eq!(scanner.connection(SocketAddrV4::new(10, 7)), Some(ConnectionState::new(5)));
}

#[test]
fn the_synner_reports_once_a_second() {
    let mut ranges = ScanRanges::new();
    ranges.extend(vec![ScanRange::single_port(1, 6, 7)]);
    let mut scanner = Scanner::new();
    let mut emitter = SynEmitter::new(ranges, 10_000, 1_000);
    let second = 1_000_000_000;
    let at = |emitter: &mut SynEmitter, scanner: &mut Scanner, now: u64| {
        synner(scanner, emitter, now).unwrap().progress
    };
    assert_eq!(at(&mut emitter, &mut scanner, 1_000), None);
    assert_eq!(at(&mut emitter, &mut scanner, second + 999), None);
    assert_eq!(
        at(&mut emitter, &mut scanner, second + 1_000),
        Some(Progress { packets: 3, sent: 3, total: 6 })
    );
    assert_eq!(at(&mut emitter, &mut scanner, second + 1_001), None);
    assert_eq!(at(&mut emitter, &mut scanner, 0), None);
    assert_eq!(
        at(&mut emitter, &mut scanner, 3 * second),
        Some(Progress { packets: 3, sent: 6, total: 6 })
    );
}

#[test]
fn the_synner_opens_a_connection_anew() {
    let mut ranges = ScanRanges::new();
    ranges.extend(vec![ScanRange::single(0x0a000001, 7777)]);
    let mut scanner = Scanner::new();
    scanner.set_connection(
        server(),
        ConnectionState { syn_time: 1, handshake_done: true, closed: true },
    );
    let mut emitter = SynEmitter::new(ranges, 1, 0);
    let step = synner(&mut scanner, &mut emitter, 9).unwrap();
    assert_eq!(step.target, server());
    assert!(step.wait);
    assert_eq!(scanner.connection(server()), Some(ConnectionState::new(9)));
}

#[test]
fn a_second_look_follows_a_scan_of_more_than_two_hours() {
    assert!(!needs_rescan(0));
    assert!(!needs_rescan(7200));
    assert!(needs_rescan(7201));
}
