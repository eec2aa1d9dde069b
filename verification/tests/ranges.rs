use chlorophyte::iteration::TargetCursor;
use chlorophyte::net::SocketAddrV4;
use chlorophyte::parse::parse_scan_ranges;
use chlorophyte::ranges::{Ipv4Range, Ipv4Ranges};
use chlorophyte::targets::{ScanRange, ScanRanges};

fn ip(a: u8, b: u8, c: u8, d: u8) -> u32 {
    u32::from_be_bytes([a, b, c, d])
}

fn set_of(ranges: Vec<ScanRange>) -> ScanRanges {
    let mut set = ScanRanges::new();
    set.extend(ranges);
    set
}

fn excluded(x: Vec<Ipv4Range>) -> Ipv4Ranges {
    Ipv4Ranges::new(x)
}

fn visit(set: &ScanRanges) -> Vec<SocketAddrV4> {
    let mut cursor = TargetCursor::start(set);
    let mut seen = vec![];
    while let Some(target) = cursor.next(set) {
        seen.push(target);
    }
    seen
}

#[test]
fn range_parsing_yields_two_ranges() {
    let ranges = parse_scan_ranges("10.0.0.0/30:7777,192.168.0.5:1000-1002").unwrap();
    assert_eq!(ranges.len(), 2);
    assert_eq!(
        ranges[0],
        ScanRange::multi_address_port(ip(10, 0, 0, 0), ip(10, 0, 0, 3), 7777, 7777)
    );
    assert_eq!(ranges[0].count(), 4);
    assert_eq!(
        ranges[1],
        ScanRange::multi_address_port(ip(192, 168, 0, 5), ip(192, 168, 0, 5), 1000, 1002)
    );
    assert_eq!(ranges[1].count(), 3);
    let set = set_of(ranges);
    assert_eq!(set.count(), 7);
}

#[test]
fn exclusion_splits_a_range() {
    let mut set = set_of(vec![ScanRange::single_port(ip(10, 0, 0, 0), ip(10, 0, 0, 255), 7777)]);
    set.exclude_ranges(excluded(vec![Ipv4Range::single(ip(10, 0, 0, 100))]));
    assert_eq!(
        set.ranges(),
        &vec![
            ScanRange::single_port(ip(10, 0, 0, 0), ip(10, 0, 0, 99), 7777),
            ScanRange::single_port(ip(10, 0, 0, 101), ip(10, 0, 0, 255), 7777),
        ]
    );
    assert_eq!(set.count(), 255);
}

#[test]
fn scan_range_counts_addresses_times_ports() {
    let r = ScanRange::multi_address_port(ip(1, 0, 0, 0), ip(1, 0, 0, 9), 10, 14);
    assert_eq!(r.count_addresses(), 10);
    assert_eq!(r.count_ports(), 5);
    assert_eq!(r.count(), 50);
    let all = ScanRange::multi_address_port(0, u32::MAX, 0, u16::MAX);
    assert_eq!(all.count_addresses(), 1 << 32);
    assert_eq!(all.count_ports(), 1 << 16);
    assert_eq!(all.count(), 1 << 48);
}

#[test]
fn scan_range_index_runs_ports_fastest() {
    let r = ScanRange::multi_address_port(ip(1, 0, 0, 0), ip(1, 0, 0, 9), 10, 14);
    assert_eq!(r.index(0), SocketAddrV4::new(ip(1, 0, 0, 0), 10));
    assert_eq!(r.index(4), SocketAddrV4::new(ip(1, 0, 0, 0), 14));
    assert_eq!(r.index(5), SocketAddrV4::new(ip(1, 0, 0, 1), 10));
    assert_eq!(r.index(49), SocketAddrV4::new(ip(1, 0, 0, 9), 14));
    let all = ScanRange::multi_address_port(0, u32::MAX, 0, u16::MAX);
    assert_eq!(all.index((1 << 48) - 1), SocketAddrV4::new(u32::MAX, u16::MAX));
}

#[test]
fn scan_range_builders_set_the_fields() {
    assert_eq!(
        ScanRange::single(7, 8),
        ScanRange { addr_start: 7, addr_end: 7, port_start: 8, port_end: 8 }
    );
    assert_eq!(
        ScanRange::single_port(7, 9, 8),
        ScanRange { addr_start: 7, addr_end: 9, port_start: 8, port_end: 8 }
    );
    assert_eq!(
        ScanRange::single_address(7, 8, 9),
        ScanRange { addr_start: 7, addr_end: 7, port_start: 8, port_end: 9 }
    );
    assert_eq!(
        ScanRange::multi_address_port(1, 2, 3, 4),
        ScanRange { addr_start: 1, addr_end: 2, port_start: 3, port_end: 4 }
    );
}

#[test]
fn visit_equals_index_on_one_range() {
    let r = ScanRange::multi_address_port(ip(9, 9, 9, 250), ip(9, 9, 10, 3), 80, 82);
    let set = set_of(vec![r.clone()]);
    let seen = visit(&set);
    assert_eq!(seen.len() as u64, r.count());
    for (i, target) in seen.iter().enumerate() {
        assert_eq!(*target, r.index(i as u64));
    }
}

#[test]
fn visit_goes_range_by_range_in_order_of_start() {
    let set = set_of(vec![
        ScanRange::single_address(ip(2, 0, 0, 0), 5, 6),
        ScanRange::single_port(ip(1, 0, 0, 0), ip(1, 0, 0, 1), 7),
    ]);
    assert_eq!(
        visit(&set),
        vec![
            SocketAddrV4::new(ip(1, 0, 0, 0), 7),
            SocketAddrV4::new(ip(1, 0, 0, 1), 7),
            SocketAddrV4::new(ip(2, 0, 0, 0), 5),
            SocketAddrV4::new(ip(2, 0, 0, 0), 6),
        ]
    );
}

#[test]
fn visit_of_disjoint_ranges_is_distinct_and_counts() {
    let set = set_of(vec![
        ScanRange::multi_address_port(100, 120, 1, 3),
        ScanRange::multi_address_port(110, 130, 4, 5),
        ScanRange::multi_address_port(200, 200, 1, 5),
    ]);
    let seen = visit(&set);
    assert_eq!(seen.len() as u64, set.count());
    let mut sorted: Vec<(u32, u16)> = seen.iter().map(|t| (t.ip, t.port)).collect();
    sorted.sort();
    sorted.dedup();
    assert_eq!(sorted.len(), seen.len());
}

#[test]
fn visit_ends_at_the_last_address_there_is() {
    let set = set_of(vec![ScanRange::single_port(u32::MAX - 1, u32::MAX, 7777)]);
    assert_eq!(
        visit(&set),
        vec![SocketAddrV4::new(u32::MAX - 1, 7777), SocketAddrV4::new(u32::MAX, 7777)]
    );
}

#[test]
fn visit_of_nothing_is_empty() {
    let set = ScanRanges::new();
    assert!(set.is_empty());
    assert_eq!(visit(&set), vec![]);
    assert_eq!(set.count(), 0);
}

#[test]
fn slow_index_and_static_index_follow_the_visit() {
    let set = set_of(vec![
        ScanRange::multi_address_port(100, 120, 1, 3),
        ScanRange::multi_address_port(110, 130, 4, 5),
        ScanRange::multi_address_port(200, 200, 1, 5),
    ]);
    let seen = visit(&set);
    let fixed = set.clone().to_static();
    assert_eq!(fixed.count, seen.len() as u64);
    assert_eq!(fixed.ranges.len(), 3);
    for (i, target) in seen.iter().enumerate() {
        assert_eq!(set.slow_index(i as u64), *target);
        assert_eq!(fixed.index(i as u64), *target);
    }
}

#[test]
fn extend_sorts_by_start_and_keeps_order_of_equals() {
    let mut set = set_of(vec![
        ScanRange::single_port(30, 31, 1),
        ScanRange::single_port(10, 11, 2),
        ScanRange::single_port(30, 35, 3),
    ]);
    assert_eq!(
        set.ranges(),
        &vec![
            ScanRange::single_port(10, 11, 2),
            ScanRange::single_port(30, 31, 1),
            ScanRange::single_port(30, 35, 3),
        ]
    );
    set.extend(vec![ScanRange::single_port(30, 30, 4), ScanRange::single_port(5, 5, 5)]);
    assert_eq!(
        set.ranges(),
        &vec![
            ScanRange::single_port(5, 5, 5),
            ScanRange::single_port(10, 11, 2),
            ScanRange::single_port(30, 31, 1),
            ScanRange::single_port(30, 35, 3),
            ScanRange::single_port(30, 30, 4),
        ]
    );
}

#[test]
fn checked_count_tells_when_the_count_is_too_great() {
    let whole = ScanRange::multi_address_port(0, u32::MAX, 0, u16::MAX);
    let mut set = ScanRanges::new();
    set.extend(vec![whole.clone(); 65535]);
    assert_eq!(set.checked_count(), Some(65535 << 48));
    set.extend(vec![whole]);
    assert_eq!(set.checked_count(), None);
}

#[test]
fn exclusion_removes_a_range_inside_it() {
    let mut set = set_of(vec![
        ScanRange::single_port(10, 20, 1),
        ScanRange::single_port(30, 40, 1),
        ScanRange::single_port(50, 60, 1),
    ]);
    set.exclude(&Ipv4Range { start: 30, end: 40 });
    assert_eq!(
        set.ranges(),
        &vec![ScanRange::single_port(10, 20, 1), ScanRange::single_port(50, 60, 1)]
    );
    set.exclude(&Ipv4Range { start: 0, end: 100 });
    assert!(set.is_empty());
    assert_eq!(set.count(), 0);
}

#[test]
fn exclusion_cuts_the_end_of_a_range() {
    let mut set = set_of(vec![ScanRange::multi_address_port(10, 20, 1, 2)]);
    set.exclude(&Ipv4Range { start: 15, end: 20 });
    assert_eq!(set.ranges(), &vec![ScanRange::multi_address_port(10, 14, 1, 2)]);
    set.exclude(&Ipv4Range { start: 14, end: 99 });
    assert_eq!(set.ranges(), &vec![ScanRange::multi_address_port(10, 13, 1, 2)]);
}

#[test]
fn exclusion_cuts_the_start_of_a_range_and_puts_it_back_in_order() {
    let mut set = set_of(vec![
        ScanRange::multi_address_port(10, 40, 1, 2),
        ScanRange::multi_address_port(12, 13, 3, 4),
        ScanRange::multi_address_port(21, 22, 5, 6),
        ScanRange::multi_address_port(25, 26, 7, 8),
    ]);
    set.exclude(&Ipv4Range { start: 5, end: 20 });
    assert_eq!(
        set.ranges(),
        &vec![
            ScanRange::multi_address_port(21, 22, 5, 6),
            ScanRange::multi_address_port(21, 40, 1, 2),
            ScanRange::multi_address_port(25, 26, 7, 8),
        ]
    );
}

#[test]
fn exclusion_leaves_a_range_that_ends_before_it_as_it_is() {
    let mut set = set_of(vec![
        ScanRange::single_port(0, 100, 1),
        ScanRange::single_port(5, 6, 1),
    ]);
    set.exclude(&Ipv4Range { start: 50, end: 60 });
    assert_eq!(
        set.ranges(),
        &vec![
            ScanRange::single_port(0, 49, 1),
            ScanRange::single_port(5, 6, 1),
            ScanRange::single_port(61, 100, 1),
        ]
    );
    assert_eq!(set.count(), 50 + 2 + 40);
}

#[test]
fn exclusion_at_the_ends_of_the_address_space() {
    let mut set = set_of(vec![ScanRange::single_port(0, u32::MAX, 1)]);
    set.exclude(&Ipv4Range { start: 0, end: 9 });
    assert_eq!(set.ranges(), &vec![ScanRange::single_port(10, u32::MAX, 1)]);
    set.exclude(&Ipv4Range { start: u32::MAX - 9, end: u32::MAX });
    assert_eq!(set.ranges(), &vec![ScanRange::single_port(10, u32::MAX - 10, 1)]);
    set.exclude(&Ipv4Range { start: 0, end: u32::MAX });
    assert!(set.is_empty());
}

#[test]
fn exclusion_takes_what_it_covers_and_nothing_else() {
    let ranges = vec![
        ScanRange::multi_address_port(0, 99, 1, 3),
        ScanRange::multi_address_port(50, 149, 10, 10),
        ScanRange::multi_address_port(200, 209, 1, 2),
    ];
    let exclusions =
        vec![Ipv4Range { start: 90, end: 110 }, Ipv4Range { start: 40, end: 60 }, Ipv4Range {
            start: 205,
            end: 300,
        }];
    let mut set = set_of(ranges.clone());
    let before = set.count();
    let list = excluded(exclusions.clone());
    let mut covered: u64 = 0;
    for r in &ranges {
        for addr in r.addr_start..=r.addr_end {
            if list.contains(addr) {
                covered += r.count_ports();
            }
        }
    }
    set.exclude_ranges(list);
    assert_eq!(set.count() + covered, before);
    let list = excluded(exclusions);
    for target in visit(&set) {
        assert!(!list.contains(target.ip));
    }
    assert_eq!(set.count(), (40 + 29) * 3 + (29 + 39) + 5 * 2);
}

#[test]
fn ipv4_ranges_are_sorted_and_searched() {
    let list = excluded(vec![
        Ipv4Range { start: 50, end: 60 },
        Ipv4Range { start: 10, end: 20 },
        Ipv4Range::single(30),
    ]);
    assert_eq!(
        list.ranges(),
        &vec![Ipv4Range { start: 10, end: 20 }, Ipv4Range::single(30), Ipv4Range {
            start: 50,
            end: 60,
        }]
    );
    assert!(!list.is_empty());
    assert_eq!(list.count(), 11 + 1 + 11);
    assert!(list.contains(10));
    assert!(list.contains(20));
    assert!(list.contains(30));
    assert!(list.contains(55));
    assert!(!list.contains(9));
    assert!(!list.contains(21));
    assert!(!list.contains(31));
    assert!(!list.contains(61));
    assert!(excluded(vec![]).is_empty());
    assert!(!excluded(vec![]).contains(0));
}

#[test]
fn ranges_from_addresses_are_single_and_sorted() {
    let set = ScanRanges::from(vec![SocketAddrV4::new(9, 1), SocketAddrV4::new(3, 2)]);
    assert_eq!(set.ranges(), &vec![ScanRange::single(3, 2), ScanRange::single(9, 1)]);
    assert_eq!(set.count(), 2);
    assert_eq!(ScanRanges::default().count(), 0);
}

#[test]
fn socket_address_keys_are_its_number_and_port() {
    let addr = SocketAddrV4::new(ip(1, 2, 3, 4), 0x5678);
    assert_eq!(addr.ip(), 0x01020304);
    assert_eq!(addr.port(), 0x5678);
    assert_eq!(addr.key(), 0x0102_0304_5678);
}
