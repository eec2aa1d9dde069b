use chlorophyte::parse::{parse_exclude_list, parse_scan_ranges, ScanRangeError};
use chlorophyte::ranges::Ipv4Range;
use chlorophyte::targets::ScanRange;

fn ip(a: u8, b: u8, c: u8, d: u8) -> u32 {
    u32::from_be_bytes([a, b, c, d])
}

fn one(text: &str) -> Result<ScanRange, ScanRangeError> {
    text.parse::<ScanRange>()
}

#[test]
fn single_address_and_port() {
    assert_eq!(one("1.2.3.4:80"), Ok(ScanRange::single(ip(1, 2, 3, 4), 80)));
    assert_eq!(one("0.0.0.0:0"), Ok(ScanRange::single(0, 0)));
    assert_eq!(one("255.255.255.255:65535"), Ok(ScanRange::single(u32::MAX, 65535)));
}

#[test]
fn address_range_and_port_range() {
    assert_eq!(
        one("1.2.3.4-1.2.4.0:80-90"),
        Ok(ScanRange::multi_address_port(ip(1, 2, 3, 4), ip(1, 2, 4, 0), 80, 90))
    );
    assert_eq!(one("1.2.3.4-1.2.3.4:7"), Ok(ScanRange::single(ip(1, 2, 3, 4), 7)));
}

#[test]
fn networks_by_prefix_length() {
    assert_eq!(
        one("10.1.2.3/8:1"),
        Ok(ScanRange::single_port(ip(10, 0, 0, 0), ip(10, 255, 255, 255), 1))
    );
    assert_eq!(
        one("10.1.2.3/31:1"),
        Ok(ScanRange::single_port(ip(10, 1, 2, 2), ip(10, 1, 2, 3), 1))
    );
    assert_eq!(one("10.1.2.3/32:1"), Ok(ScanRange::single(ip(10, 1, 2, 3), 1)));
    assert_eq!(one("10.1.2.3/0:1"), Ok(ScanRange::single_port(0, u32::MAX, 1)));
    assert_eq!(
        one("192.168.77.1/20:1"),
        Ok(ScanRange::single_port(ip(192, 168, 64, 0), ip(192, 168, 79, 255), 1))
    );
}

#[test]
fn numbers_may_have_a_plus_and_leading_zeros_but_octets_may_not() {
    assert_eq!(one("1.2.3.4:+80"), Ok(ScanRange::single(ip(1, 2, 3, 4), 80)));
    assert_eq!(one("1.2.3.4:0080"), Ok(ScanRange::single(ip(1, 2, 3, 4), 80)));
    assert_eq!(
        one("1.2.3.4/+08:1"),
        Ok(ScanRange::single_port(ip(1, 0, 0, 0), ip(1, 255, 255, 255), 1))
    );
    assert_eq!(one("1.2.3.04:80"), Err(ScanRangeError::SingleAddress));
    assert_eq!(one("1.2.3.+4:80"), Err(ScanRangeError::SingleAddress));
    assert_eq!(one("1.2.3.0:80"), Ok(ScanRange::single(ip(1, 2, 3, 0), 80)));
}

#[test]
fn ports_are_not_held_to_be_in_order() {
    assert_eq!(
        one("1.2.3.4:90-80"),
        Ok(ScanRange::multi_address_port(ip(1, 2, 3, 4), ip(1, 2, 3, 4), 90, 80))
    );
}

#[test]
fn a_text_without_colon_has_no_port() {
    assert_eq!(one("1.2.3.4"), Err(ScanRangeError::NoPort));
    assert_eq!(one(""), Err(ScanRangeError::NoPort));
    assert_eq!(ScanRangeError::NoPort.message(), "No port specified");
}

#[test]
fn slash_and_hyphen_together_are_refused() {
    assert_eq!(one("1.2.3.4/24-1.2.3.9:80"), Err(ScanRangeError::SlashAndHyphen));
    assert_eq!(
        ScanRangeError::SlashAndHyphen.message(),
        "Invalid range - contains both - and /"
    );
}

#[test]
fn a_bad_prefix_length_is_found_before_a_bad_address() {
    assert_eq!(one("1.2.3.4/33:80"), Err(ScanRangeError::SubnetMask));
    assert_eq!(one("1.2.3.4/:80"), Err(ScanRangeError::SubnetMask));
    assert_eq!(one("1.2.3.4/x:80"), Err(ScanRangeError::SubnetMask));
    assert_eq!(one("1.2.3.4/256:80"), Err(ScanRangeError::SubnetMask));
    assert_eq!(one("1.2.3.4/24/8:80"), Err(ScanRangeError::SubnetMask));
    assert_eq!(one("1.2.3/x:80"), Err(ScanRangeError::SubnetMask));
    assert_eq!(one("1.2.3/24:80"), Err(ScanRangeError::NetAddress));
    assert_eq!(ScanRangeError::SubnetMask.message(), "Failed to parse subnet mask as u8");
    assert_eq!(
        ScanRangeError::NetAddress.message(),
        "Failed to parse IP net address as Ipv4Addr"
    );
}

#[test]
fn faults_of_an_address_range() {
    assert_eq!(one("1.2.3-1.2.3.4:80"), Err(ScanRangeError::AddressStart));
    assert_eq!(one("1.2.3.4-1.2.3:80"), Err(ScanRangeError::AddressEnd));
    assert_eq!(one("1.2.3.4-1.2.3.5-1.2.3.6:80"), Err(ScanRangeError::AddressEnd));
    assert_eq!(one("1.2.3.5-1.2.3.4:80"), Err(ScanRangeError::StartAfterEnd));
    assert_eq!(
        ScanRangeError::AddressStart.message(),
        "Could not parse address start as Ipv4Addr"
    );
    assert_eq!(
        ScanRangeError::AddressEnd.message(),
        "Could not parse address end as Ipv4Addr"
    );
    assert_eq!(
        ScanRangeError::StartAfterEnd.message(),
        "Start address is bigger than the end address"
    );
}

#[test]
fn faults_of_a_single_address() {
    assert_eq!(one("1.2.3:80"), Err(ScanRangeError::SingleAddress));
    assert_eq!(one("1.2.3.4.5:80"), Err(ScanRangeError::SingleAddress));
    assert_eq!(one("1.2.3.256:80"), Err(ScanRangeError::SingleAddress));
    assert_eq!(one("1.2.3.1000:80"), Err(ScanRangeError::SingleAddress));
    assert_eq!(one("1..3.4:80"), Err(ScanRangeError::SingleAddress));
    assert_eq!(one(" 1.2.3.4:80"), Err(ScanRangeError::SingleAddress));
    assert_eq!(one(":80"), Err(ScanRangeError::SingleAddress));
    assert_eq!(
        ScanRangeError::SingleAddress.message(),
        "Could not parse single address as Ipv4Addr"
    );
}

#[test]
fn faults_of_the_ports() {
    assert_eq!(one("1.2.3.4:"), Err(ScanRangeError::Port));
    assert_eq!(one("1.2.3.4:65536"), Err(ScanRangeError::Port));
    assert_eq!(one("1.2.3.4:80:90"), Err(ScanRangeError::Port));
    assert_eq!(one("1.2.3.4:+"), Err(ScanRangeError::Port));
    assert_eq!(one("1.2.3.4:x-90"), Err(ScanRangeError::PortStart));
    assert_eq!(one("1.2.3.4:-90"), Err(ScanRangeError::PortStart));
    assert_eq!(one("1.2.3.4:80-"), Err(ScanRangeError::PortEnd));
    assert_eq!(one("1.2.3.4:80-90-100"), Err(ScanRangeError::PortEnd));
    assert_eq!(one("1.2.3.4:80-65536"), Err(ScanRangeError::PortEnd));
    assert_eq!(ScanRangeError::Port.message(), "Failed to parse port as u16");
    assert_eq!(ScanRangeError::PortStart.message(), "Could not parse port start as u16");
    assert_eq!(ScanRangeError::PortEnd.message(), "Could not parse port end as u16");
}

#[test]
fn a_fault_in_the_addresses_is_found_before_one_in_the_ports() {
    assert_eq!(one("1.2.3:x"), Err(ScanRangeError::SingleAddress));
}

#[test]
fn lists_of_scan_ranges() {
    assert_eq!(
        parse_scan_ranges("1.2.3.4:80"),
        Ok(vec![ScanRange::single(ip(1, 2, 3, 4), 80)])
    );
    assert_eq!(
        parse_scan_ranges("1.2.3.4:80,5.6.7.8:90,9.9.9.9:1-2"),
        Ok(vec![
            ScanRange::single(ip(1, 2, 3, 4), 80),
            ScanRange::single(ip(5, 6, 7, 8), 90),
            ScanRange::single_address(ip(9, 9, 9, 9), 1, 2),
        ])
    );
    assert_eq!(parse_scan_ranges(""), Err(ScanRangeError::NoPort));
    assert_eq!(parse_scan_ranges("1.2.3.4:80,"), Err(ScanRangeError::NoPort));
    assert_eq!(parse_scan_ranges("1.2.3.4:80,5.6.7:90,x"), Err(ScanRangeError::SingleAddress));
}

#[test]
fn exclusion_lists_skip_blanks_and_comments() {
    let text = "# reserved\n10.0.0.0/8  # private\n\n   \t\r\n192.168.0.1\n 1.1.1.1-1.1.1.9\t\r\n";
    assert_eq!(
        parse_exclude_list(text),
        Ok(vec![
            Ipv4Range { start: ip(10, 0, 0, 0), end: ip(10, 255, 255, 255) },
            Ipv4Range::single(ip(192, 168, 0, 1)),
            Ipv4Range { start: ip(1, 1, 1, 1), end: ip(1, 1, 1, 9) },
        ])
    );
    assert_eq!(parse_exclude_list(""), Ok(vec![]));
    assert_eq!(parse_exclude_list("#"), Ok(vec![]));
    assert_eq!(parse_exclude_list("1.2.3.4/24#x"), Ok(vec![Ipv4Range {
        start: ip(1, 2, 3, 0),
        end: ip(1, 2, 3, 255),
    }]));
}

#[test]
fn exclusion_lists_fail_on_the_first_bad_line() {
    assert_eq!(parse_exclude_list("10.0.0.0/8\n10.0.0/8\nx"), Err(ScanRangeError::NetAddress));
    assert_eq!(parse_exclude_list("1.2.3.4 5"), Err(ScanRangeError::SingleAddress));
    assert_eq!(parse_exclude_list("9.9.9.9-1.1.1.1"), Err(ScanRangeError::StartAfterEnd));
}
