//! The text form of scan ranges: `<addresses>:<ports>`, where the addresses
//! are `A.B.C.D`, `A.B.C.D/prefix` or `A.B.C.D-E.F.G.H` and the ports are `N`
//! or `M-N`. All of it is read as bytes.

use crate::ranges::Ipv4Range;
use crate::targets::ScanRange;
use vstd::prelude::*;
use vstd::string::StringSliceAdditionalSpecFns;

verus! {

pub const COLON: u8 = 0x3a;

pub const COMMA: u8 = 0x2c;

pub const DOT: u8 = 0x2e;

pub const HASH: u8 = 0x23;

pub const HYPHEN: u8 = 0x2d;

pub const NEWLINE: u8 = 0x0a;

pub const PLUS: u8 = 0x2b;

pub const SLASH: u8 = 0x2f;

pub const ZERO: u8 = 0x30;

/// Why a text is not a scan range.
#[derive(Debug, Clone, Copy, PartialEq, Eq, Structural)]
pub enum ScanRangeError {
    /// There is no `:`.
    NoPort,
    /// The addresses hold both `/` and `-`.
    SlashAndHyphen,
    /// What follows `/` is not a number from 0 to 32.
    SubnetMask,
    /// What stands before `/` is not an address.
    NetAddress,
    /// What stands before `-` is not an address.
    AddressStart,
    /// What follows `-` is not an address.
    AddressEnd,
    /// The first address of a range is greater than the last.
    StartAfterEnd,
    /// The addresses, without `/` or `-`, are not an address.
    SingleAddress,
    /// What stands before `-` in the ports is not a port.
    PortStart,
    /// What follows `-` in the ports is not a port.
    PortEnd,
    /// The ports, without `-`, are not a port.
    Port,
}

pub open spec fn is_digit(b: u8) -> bool {
    0x30 <= b <= 0x39
}

pub open spec fn all_digits(s: Seq<u8>) -> bool {
    forall|i: int| 0 <= i < s.len() ==> is_digit(#[trigger] s[i])
}

/// The number that decimal digits write.
pub open spec fn digits_value(s: Seq<u8>) -> nat
    decreases s.len(),
{
    if s.len() == 0 {
        0
    } else {
        digits_value(s.drop_last()) * 10 + (s.last() - ZERO) as nat
    }
}

/// The place of the first `b` at or behind `from`, or the length of `s` if
/// there is none.
pub open spec fn first_index_from(s: Seq<u8>, b: u8, from: int) -> int
    decreases s.len() - from,
{
    if from >= s.len() {
        s.len() as int
    } else if s[from] == b {
        from
    } else {
        first_index_from(s, b, from + 1)
    }
}

/// The place of the first `b` in `s`, or the length of `s` if there is
/// none.
pub open spec fn first_index(s: Seq<u8>, b: u8) -> int {
    first_index_from(s, b, 0)
}

/// What stands before the first `b`.
pub open spec fn before_first(s: Seq<u8>, b: u8) -> Seq<u8> {
    s.take(first_index(s, b))
}

/// What follows the first `b`; nothing if there is no `b`.
pub open spec fn after_first(s: Seq<u8>, b: u8) -> Seq<u8> {
    if first_index(s, b) < s.len() {
        s.skip(first_index(s, b) + 1)
    } else {
        Seq::empty()
    }
}

/// A number from 0 to `max`: decimal digits, at least one, after an optional
/// `+`. Leading zeros are accepted.
pub open spec fn decimal(s: Seq<u8>, max: nat) -> Option<nat> {
    let body = if s.len() > 0 && s[0] == PLUS {
        s.skip(1)
    } else {
        s
    };
    if body.len() > 0 && all_digits(body) && digits_value(body) <= max {
        Some(digits_value(body))
    } else {
        None
    }
}

/// One of the four numbers of an address: one to three digits that write
/// at most 255, with no zero before another digit.
pub open spec fn octet(s: Seq<u8>) -> Option<nat> {
    if 1 <= s.len() <= 3 && all_digits(s) && (s.len() == 1 || s[0] != ZERO) && digits_value(s)
        <= 255 {
        Some(digits_value(s))
    } else {
        None
    }
}

/// An address: four octets with a `.` between each two. Its number has the
/// first octet in the high byte.
pub open spec fn ipv4(s: Seq<u8>) -> Option<u32> {
    let rest1 = after_first(s, DOT);
    let rest2 = after_first(rest1, DOT);
    match (
        octet(before_first(s, DOT)),
        octet(before_first(rest1, DOT)),
        octet(before_first(rest2, DOT)),
        octet(after_first(rest2, DOT)),
    ) {
        (Some(a), Some(b), Some(c), Some(d)) => Some((((a * 256 + b) * 256 + c) * 256 + d) as u32),
        _ => None,
    }
}

/// The first `b` lies where no `b` stands before and one stands there, or
/// at the end where there is none at all.
pub proof fn lemma_first_index(s: Seq<u8>, b: u8, from: int, at: int)
    requires
        0 <= from <= at <= s.len(),
        forall|j: int| from <= j < at ==> s[j] != b,
        at < s.len() ==> s[at] == b,
    ensures
        first_index_from(s, b, from) == at,
    decreases at - from,
{
    if from < at {
        lemma_first_index(s, b, from + 1, at);
    }
}

/// The first `b` lies inside the sequence or at its end; a sequence has a
/// `b` exactly if it lies inside.
pub proof fn lemma_first_index_bounds(s: Seq<u8>, b: u8, from: int)
    requires
        0 <= from <= s.len(),
    ensures
        from <= first_index_from(s, b, from) <= s.len(),
        first_index_from(s, b, from) < s.len() ==> s[first_index_from(s, b, from)] == b,
        forall|j: int| from <= j < first_index_from(s, b, from) ==> s[j] != b,
    decreases s.len() - from,
{
    if from < s.len() && s[from] != b {
        lemma_first_index_bounds(s, b, from + 1);
    }
}

/// More digits write no smaller a number.
pub proof fn lemma_digits_value_prefix(s: Seq<u8>, n: int)
    requires
        0 <= n <= s.len(),
        all_digits(s),
    ensures
        digits_value(s.take(n)) <= digits_value(s),
    decreases s.len(),
{
    if n == s.len() {
        assert(s.take(n) =~= s);
    } else {
        assert(is_digit(s[s.len() - 1]));
        assert(all_digits(s.drop_last())) by {
            assert forall|i: int| 0 <= i < s.drop_last().len() implies is_digit(
                #[trigger] s.drop_last()[i],
            ) by {
                assert(s.drop_last()[i] == s[i]);
            }
        }
        lemma_digits_value_prefix(s.drop_last(), n);
        assert(s.drop_last().take(n) =~= s.take(n));
    }
}

/// The place of the first `b` in `s[from..to]`, counted in `s`; `to` if
/// there is none.
pub fn find_byte(s: &[u8], from: usize, to: usize, b: u8) -> (at: usize)
    requires
        from <= to <= s@.len(),
    ensures
        from <= at <= to,
        at - from == first_index(s@.subrange(from as int, to as int), b),
        at < to ==> s@[at as int] == b,
        forall|j: int| from <= j < at ==> s@[j] != b,
{
    let mut at: usize = from;
    while at < to && s[at] != b
        invariant
            from <= at <= to <= s@.len(),
            forall|j: int| from <= j < at ==> s@[j] != b,
        decreases to - at,
    {
        at += 1;
    }
    proof {
        lemma_first_index(s@.subrange(from as int, to as int), b, 0, at - from);
    }
    at
}

/// Reads `s[from..to]` as a number from 0 to `max`.
pub fn parse_decimal(s: &[u8], from: usize, to: usize, max: u32) -> (n: Option<u32>)
    requires
        from <= to <= s@.len(),
    ensures
        n matches Some(v) ==> decimal(s@.subrange(from as int, to as int), max as nat) == Some(
            v as nat,
        ),
        n is None ==> decimal(s@.subrange(from as int, to as int), max as nat) is None,
{
    let ghost text = s@.subrange(from as int, to as int);
    let start: usize = if from < to && s[from] == PLUS {
        from + 1
    } else {
        from
    };
    let ghost body = s@.subrange(start as int, to as int);
    proof {
        if start > from {
            assert(text[0] == PLUS);
            assert(body =~= text.skip(1));
        } else {
            assert(body =~= text);
            if text.len() > 0 {
                assert(text[0] == s@[from as int]);
            }
        }
    }
    let ghost wanted = decimal(text, max as nat);
    assert(wanted == if body.len() > 0 && all_digits(body) && digits_value(body) <= max {
        Some(digits_value(body))
    } else {
        None
    });
    if start == to {
        return None;
    }
    let mut value: u64 = 0;
    let mut i: usize = start;
    while i < to
        invariant
            start <= i <= to <= s@.len(),
            start < to,
            body == s@.subrange(start as int, to as int),
            wanted == decimal(s@.subrange(from as int, to as int), max as nat),
            wanted == if body.len() > 0 && all_digits(body) && digits_value(body) <= max {
                Some(digits_value(body))
            } else {
                None
            },
            all_digits(body.take(i - start)),
            value == digits_value(body.take(i - start)),
            value <= max,
        decreases to - i,
    {
        let b: u8 = s[i];
        let ghost seen = body.take(i - start + 1);
        proof {
            assert(seen.drop_last() =~= body.take(i - start));
            assert(seen.last() == b);
            assert(body[i - start] == b);
        }
        if b < 0x30 || b > 0x39 {
            proof {
                assert(!is_digit(body[i - start]));
                assert(!all_digits(body));
            }
            return None;
        }
        proof {
            assert forall|j: int| 0 <= j < seen.len() implies is_digit(#[trigger] seen[j]) by {
                if j < seen.len() - 1 {
                    assert(seen[j] == body.take(i - start)[j]);
                }
            }
            assert(digits_value(seen) == value * 10 + (b - ZERO));
        }
        let next: u64 = value * 10 + (b - 0x30) as u64;
        if next > max as u64 {
            proof {
                if all_digits(body) {
                    lemma_digits_value_prefix(body, i - start + 1);
                }
            }
            return None;
        }
        value = next;
        i += 1;
    }
    proof {
        assert(body.take(to - start) =~= body);
    }
    Some(value as u32)
}

/// Reads `s[from..to]` as an octet of an address.
pub fn parse_octet(s: &[u8], from: usize, to: usize) -> (n: Option<u8>)
    requires
        from <= to <= s@.len(),
    ensures
        n matches Some(v) ==> octet(s@.subrange(from as int, to as int)) == Some(v as nat),
        n is None ==> octet(s@.subrange(from as int, to as int)) is None,
{
    let ghost text = s@.subrange(from as int, to as int);
    if to - from < 1 || to - from > 3 {
        return None;
    }
    proof {
        assert(text[0] == s@[from as int]);
    }
    if to - from > 1 && s[from] == ZERO {
        return None;
    }
    if s[from] == PLUS {
        proof {
            assert(!is_digit(text[0]));
        }
        return None;
    }
    match parse_decimal(s, from, to, 255) {
        Some(v) => Some(v as u8),
        None => None,
    }
}

/// Reads `s[from..to]` as an address.
pub fn parse_ipv4(s: &[u8], from: usize, to: usize) -> (addr: Option<u32>)
    requires
        from <= to <= s@.len(),
    ensures
        addr == ipv4(s@.subrange(from as int, to as int)),
{
    let ghost text = s@.subrange(from as int, to as int);
    let dot1: usize = find_byte(s, from, to, DOT);
    let from2: usize = if dot1 < to {
        dot1 + 1
    } else {
        to
    };
    let dot2: usize = find_byte(s, from2, to, DOT);
    let from3: usize = if dot2 < to {
        dot2 + 1
    } else {
        to
    };
    let dot3: usize = find_byte(s, from3, to, DOT);
    let from4: usize = if dot3 < to {
        dot3 + 1
    } else {
        to
    };
    proof {
        let rest1 = after_first(text, DOT);
        let rest2 = after_first(rest1, DOT);
        assert(before_first(text, DOT) =~= s@.subrange(from as int, dot1 as int));
        assert(rest1 =~= s@.subrange(from2 as int, to as int));
        assert(before_first(rest1, DOT) =~= s@.subrange(from2 as int, dot2 as int));
        assert(rest2 =~= s@.subrange(from3 as int, to as int));
        assert(before_first(rest2, DOT) =~= s@.subrange(from3 as int, dot3 as int));
        assert(after_first(rest2, DOT) =~= s@.subrange(from4 as int, to as int));
    }
    let a = parse_octet(s, from, dot1);
    let b = parse_octet(s, from2, dot2);
    let c = parse_octet(s, from3, dot3);
    let d = parse_octet(s, from4, to);
    match (a, b, c, d) {
        (Some(a), Some(b), Some(c), Some(d)) => Some(
            ((a as u32 * 256 + b as u32) * 256 + c as u32) * 256 + d as u32,
        ),
        _ => None,
    }
}

/// Whether `b` occurs in `s`.
pub open spec fn has_byte(s: Seq<u8>, b: u8) -> bool {
    first_index(s, b) < s.len()
}

/// The host part of an address under a prefix of `prefix` bits: the low
/// `32 - prefix` bits set.
pub open spec fn host_mask(prefix: nat) -> u32 {
    if prefix == 0 {
        0xffff_ffff
    } else {
        ((1u32 << ((32 - prefix) as u32)) - 1) as u32
    }
}

/// The addresses that a text names: one address, a network as an address
/// and a prefix length, or a first and a last address. The text of a network
/// may hold one `/` and no `-`, that of a range one `-` and no `/`.
pub open spec fn address_range(s: Seq<u8>) -> Result<Ipv4Range, ScanRangeError> {
    if has_byte(s, SLASH) && has_byte(s, HYPHEN) {
        Err(ScanRangeError::SlashAndHyphen)
    } else if has_byte(s, SLASH) {
        match decimal(after_first(s, SLASH), 32) {
            None => Err(ScanRangeError::SubnetMask),
            Some(prefix) => match ipv4(before_first(s, SLASH)) {
                None => Err(ScanRangeError::NetAddress),
                Some(ip) => Ok(
                    Ipv4Range { start: ip & !host_mask(prefix), end: ip | host_mask(prefix) },
                ),
            },
        }
    } else if has_byte(s, HYPHEN) {
        match ipv4(before_first(s, HYPHEN)) {
            None => Err(ScanRangeError::AddressStart),
            Some(start) => match ipv4(after_first(s, HYPHEN)) {
                None => Err(ScanRangeError::AddressEnd),
                Some(end) => if start > end {
                    Err(ScanRangeError::StartAfterEnd)
                } else {
                    Ok(Ipv4Range { start, end })
                },
            },
        }
    } else {
        match ipv4(s) {
            None => Err(ScanRangeError::SingleAddress),
            Some(addr) => Ok(Ipv4Range { start: addr, end: addr }),
        }
    }
}

/// The ports that a text names: one port, or a first and a last port with a
/// `-` between them. The first is not held to be the smaller.
pub open spec fn port_range(s: Seq<u8>) -> Result<(u16, u16), ScanRangeError> {
    if has_byte(s, HYPHEN) {
        match decimal(before_first(s, HYPHEN), 0xffff) {
            None => Err(ScanRangeError::PortStart),
            Some(start) => match decimal(after_first(s, HYPHEN), 0xffff) {
                None => Err(ScanRangeError::PortEnd),
                Some(end) => Ok((start as u16, end as u16)),
            },
        }
    } else {
        match decimal(s, 0xffff) {
            None => Err(ScanRangeError::Port),
            Some(port) => Ok((port as u16, port as u16)),
        }
    }
}

/// The scan range that a text names: addresses, the first `:`, ports. A
/// fault in the addresses is found before one in the ports.
pub open spec fn scan_range(s: Seq<u8>) -> Result<ScanRange, ScanRangeError> {
    if !has_byte(s, COLON) {
        Err(ScanRangeError::NoPort)
    } else {
        match address_range(before_first(s, COLON)) {
            Err(e) => Err(e),
            Ok(addrs) => match port_range(after_first(s, COLON)) {
                Err(e) => Err(e),
                Ok(ports) => Ok(
                    ScanRange {
                        addr_start: addrs.start,
                        addr_end: addrs.end,
                        port_start: ports.0,
                        port_end: ports.1,
                    },
                ),
            },
        }
    }
}

/// `rest` with `done` put before it, or the fault of `rest`.
pub open spec fn prepend(done: Seq<ScanRange>, rest: Result<Seq<ScanRange>, ScanRangeError>) -> Result<
    Seq<ScanRange>,
    ScanRangeError,
> {
    match rest {
        Ok(more) => Ok(done + more),
        Err(e) => Err(e),
    }
}

/// The scan ranges that a text names: one or more, with a `,` between each
/// two. The fault of the first text that is no scan range is the fault of
/// the whole.
pub open spec fn scan_range_list(s: Seq<u8>) -> Result<Seq<ScanRange>, ScanRangeError>
    decreases s.len(),
{
    if !has_byte(s, COMMA) {
        match scan_range(s) {
            Ok(r) => Ok(seq![r]),
            Err(e) => Err(e),
        }
    } else {
        proof {
            lemma_first_index_bounds(s, COMMA, 0);
        }
        match scan_range(before_first(s, COMMA)) {
            Ok(r) => prepend(seq![r], scan_range_list(after_first(s, COMMA))),
            Err(e) => Err(e),
        }
    }
}

/// A network or a range of addresses is never empty.
pub proof fn lemma_address_range_wf(s: Seq<u8>)
    ensures
        address_range(s) matches Ok(r) ==> r.wf(),
{
    if has_byte(s, SLASH) && !has_byte(s, HYPHEN) {
        if let Some(prefix) = decimal(after_first(s, SLASH), 32) {
            if let Some(ip) = ipv4(before_first(s, SLASH)) {
                let mask = host_mask(prefix);
                assert(ip & !mask <= ip | mask) by (bit_vector);
            }
        }
    }
}

/// Reads `s[from..to]` as addresses.
pub fn parse_address_range(s: &[u8], from: usize, to: usize) -> (r: Result<
    Ipv4Range,
    ScanRangeError,
>)
    requires
        from <= to <= s@.len(),
    ensures
        r == address_range(s@.subrange(from as int, to as int)),
        r matches Ok(range) ==> range.wf(),
{
    let ghost text = s@.subrange(from as int, to as int);
    let slash: usize = find_byte(s, from, to, SLASH);
    let hyphen: usize = find_byte(s, from, to, HYPHEN);
    proof {
        lemma_address_range_wf(text);
    }
    if slash < to && hyphen < to {
        return Err(ScanRangeError::SlashAndHyphen);
    }
    if slash < to {
        proof {
            assert(before_first(text, SLASH) =~= s@.subrange(from as int, slash as int));
            assert(after_first(text, SLASH) =~= s@.subrange(slash + 1, to as int));
        }
        let prefix: u32 = match parse_decimal(s, slash + 1, to, 32) {
            Some(prefix) => prefix,
            None => {
                return Err(ScanRangeError::SubnetMask);
            },
        };
        let ip: u32 = match parse_ipv4(s, from, slash) {
            Some(ip) => ip,
            None => {
                return Err(ScanRangeError::NetAddress);
            },
        };
        let host_bits: u32 = 32 - prefix;
        let mask_bits: u32 = if host_bits == 32 {
            u32::MAX
        } else {
            proof {
                assert(host_bits < 32 ==> (1u32 << host_bits) >= 1) by (bit_vector);
            }
            (1u32 << host_bits) - 1
        };
        Ok(Ipv4Range { start: ip & !mask_bits, end: ip | mask_bits })
    } else if hyphen < to {
        proof {
            assert(before_first(text, HYPHEN) =~= s@.subrange(from as int, hyphen as int));
            assert(after_first(text, HYPHEN) =~= s@.subrange(hyphen + 1, to as int));
        }
        let ip_start: u32 = match parse_ipv4(s, from, hyphen) {
            Some(ip) => ip,
            None => {
                return Err(ScanRangeError::AddressStart);
            },
        };
        let ip_end: u32 = match parse_ipv4(s, hyphen + 1, to) {
            Some(ip) => ip,
            None => {
                return Err(ScanRangeError::AddressEnd);
            },
        };
        if ip_start > ip_end {
            return Err(ScanRangeError::StartAfterEnd);
        }
        Ok(Ipv4Range { start: ip_start, end: ip_end })
    } else {
        match parse_ipv4(s, from, to) {
            Some(addr) => Ok(Ipv4Range::single(addr)),
            None => Err(ScanRangeError::SingleAddress),
        }
    }
}

/// Reads `s[from..to]` as ports.
pub fn parse_port_range(s: &[u8], from: usize, to: usize) -> (r: Result<
    (u16, u16),
    ScanRangeError,
>)
    requires
        from <= to <= s@.len(),
    ensures
        r == port_range(s@.subrange(from as int, to as int)),
{
    let ghost text = s@.subrange(from as int, to as int);
    let hyphen: usize = find_byte(s, from, to, HYPHEN);
    if hyphen < to {
        proof {
            assert(before_first(text, HYPHEN) =~= s@.subrange(from as int, hyphen as int));
            assert(after_first(text, HYPHEN) =~= s@.subrange(hyphen + 1, to as int));
        }
        let start: u32 = match parse_decimal(s, from, hyphen, 0xffff) {
            Some(port) => port,
            None => {
                return Err(ScanRangeError::PortStart);
            },
        };
        let end: u32 = match parse_decimal(s, hyphen + 1, to, 0xffff) {
            Some(port) => port,
            None => {
                return Err(ScanRangeError::PortEnd);
            },
        };
        Ok((start as u16, end as u16))
    } else {
        match parse_decimal(s, from, to, 0xffff) {
            Some(port) => Ok((port as u16, port as u16)),
            None => Err(ScanRangeError::Port),
        }
    }
}

/// Reads `s[from..to]` as a scan range.
pub fn parse_scan_range(s: &[u8], from: usize, to: usize) -> (r: Result<ScanRange, ScanRangeError>)
    requires
        from <= to <= s@.len(),
    ensures
        r == scan_range(s@.subrange(from as int, to as int)),
        r matches Ok(range) ==> range.addr_start <= range.addr_end,
{
    let ghost text = s@.subrange(from as int, to as int);
    let colon: usize = find_byte(s, from, to, COLON);
    if colon >= to {
        return Err(ScanRangeError::NoPort);
    }
    proof {
        assert(before_first(text, COLON) =~= s@.subrange(from as int, colon as int));
        assert(after_first(text, COLON) =~= s@.subrange(colon + 1, to as int));
    }
    let addrs = match parse_address_range(s, from, colon) {
        Ok(addrs) => addrs,
        Err(e) => {
            return Err(e);
        },
    };
    let ports = match parse_port_range(s, colon + 1, to) {
        Ok(ports) => ports,
        Err(e) => {
            return Err(e);
        },
    };
    Ok(
        ScanRange {
            addr_start: addrs.start,
            addr_end: addrs.end,
            port_start: ports.0,
            port_end: ports.1,
        },
    )
}

/// Reads a text as scan ranges with a `,` between each two.
pub fn parse_scan_ranges(text: &str) -> (r: Result<Vec<ScanRange>, ScanRangeError>)
    ensures
        match r {
            Ok(ranges) => scan_range_list(text.spec_bytes()) == Ok::<
                Seq<ScanRange>,
                ScanRangeError,
            >(ranges@),
            Err(e) => scan_range_list(text.spec_bytes()) == Err::<Seq<ScanRange>, ScanRangeError>(
                e,
            ),
        },
{
    let s = text.as_bytes();
    let end: usize = s.len();
    let mut ranges: Vec<ScanRange> = Vec::new();
    let mut from: usize = 0;
    proof {
        assert(s@.subrange(0, end as int) =~= s@);
    }
    loop
        invariant
            0 <= from <= end == s@.len(),
            s@ == text.spec_bytes(),
            scan_range_list(s@) == prepend(
                ranges@,
                scan_range_list(s@.subrange(from as int, end as int)),
            ),
        decreases end - from,
    {
        let ghost rest = s@.subrange(from as int, end as int);
        let comma: usize = find_byte(s, from, end, COMMA);
        proof {
            assert(before_first(rest, COMMA) =~= s@.subrange(from as int, comma as int));
        }
        let range = match parse_scan_range(s, from, comma) {
            Ok(range) => range,
            Err(e) => {
                proof {
                    if comma >= end {
                        assert(s@.subrange(from as int, comma as int) =~= rest);
                    }
                }
                return Err(e);
            },
        };
        let ghost done = ranges@;
        ranges.push(range);
        if comma >= end {
            proof {
                assert(s@.subrange(from as int, comma as int) =~= rest);
                assert(done + seq![range] =~= ranges@);
            }
            return Ok(ranges);
        }
        proof {
            let after = s@.subrange(comma + 1, end as int);
            assert(after_first(rest, COMMA) =~= after);
            match scan_range_list(after) {
                Ok(more) => {
                    assert(done + (seq![range] + more) =~= ranges@ + more);
                },
                Err(e) => {},
            }
        }
        from = comma + 1;
    }
}

/// Whether a byte is a blank: a space, a tab or a carriage return.
pub open spec fn is_blank(b: u8) -> bool {
    b == 0x20 || b == 0x09 || b == 0x0d
}

/// `s` without the blanks at its start.
pub open spec fn trim_front(s: Seq<u8>) -> Seq<u8>
    decreases s.len(),
{
    if s.len() > 0 && is_blank(s[0]) {
        trim_front(s.skip(1))
    } else {
        s
    }
}

/// `s` without the blanks at its end.
pub open spec fn trim_back(s: Seq<u8>) -> Seq<u8>
    decreases s.len(),
{
    if s.len() > 0 && is_blank(s.last()) {
        trim_back(s.drop_last())
    } else {
        s
    }
}

/// What a line of an exclusion list says: what stands before the first
/// `#`, without the blanks round it.
pub open spec fn line_content(line: Seq<u8>) -> Seq<u8> {
    trim_back(trim_front(before_first(line, HASH)))
}

/// The addresses that a line of an exclusion list names: none if it says
/// nothing, else one range of addresses.
pub open spec fn exclude_line(line: Seq<u8>) -> Result<Seq<Ipv4Range>, ScanRangeError> {
    if line_content(line).len() == 0 {
        Ok(Seq::empty())
    } else {
        match address_range(line_content(line)) {
            Ok(range) => Ok(seq![range]),
            Err(e) => Err(e),
        }
    }
}

/// `rest` with `done` put before it, or the fault of `rest`.
pub open spec fn prepend_ranges(
    done: Seq<Ipv4Range>,
    rest: Result<Seq<Ipv4Range>, ScanRangeError>,
) -> Result<Seq<Ipv4Range>, ScanRangeError> {
    match rest {
        Ok(more) => Ok(done + more),
        Err(e) => Err(e),
    }
}

/// The ranges of addresses that an exclusion list names, line by line.
/// Blanks, empty lines and what follows a `#` say nothing. The fault of the
/// first line that is no range of addresses is the fault of the whole.
pub open spec fn exclude_list(s: Seq<u8>) -> Result<Seq<Ipv4Range>, ScanRangeError>
    decreases s.len(),
{
    if !has_byte(s, NEWLINE) {
        exclude_line(s)
    } else {
        proof {
            lemma_first_index_bounds(s, NEWLINE, 0);
        }
        match exclude_line(before_first(s, NEWLINE)) {
            Ok(here) => prepend_ranges(here, exclude_list(after_first(s, NEWLINE))),
            Err(e) => Err(e),
        }
    }
}

/// Every range of an exclusion list is well formed.
pub proof fn lemma_exclude_list_wf(s: Seq<u8>)
    ensures
        exclude_list(s) matches Ok(ranges) ==> crate::ranges::all_wf(ranges),
    decreases s.len(),
{
    if !has_byte(s, NEWLINE) {
        lemma_address_range_wf(line_content(s));
    } else {
        lemma_first_index_bounds(s, NEWLINE, 0);
        lemma_address_range_wf(line_content(before_first(s, NEWLINE)));
        lemma_exclude_list_wf(after_first(s, NEWLINE));
    }
}

/// Reads `s[from..to]` as a line of an exclusion list.
pub fn parse_exclude_line(s: &[u8], from: usize, to: usize) -> (r: Result<
    Option<Ipv4Range>,
    ScanRangeError,
>)
    requires
        from <= to <= s@.len(),
    ensures
        match r {
            Ok(Some(range)) => exclude_line(s@.subrange(from as int, to as int)) == Ok::<
                Seq<Ipv4Range>,
                ScanRangeError,
            >(seq![range]) && range.wf(),
            Ok(None) => exclude_line(s@.subrange(from as int, to as int)) == Ok::<
                Seq<Ipv4Range>,
                ScanRangeError,
            >(Seq::empty()),
            Err(e) => exclude_line(s@.subrange(from as int, to as int)) == Err::<
                Seq<Ipv4Range>,
                ScanRangeError,
            >(e),
        },
{
    let ghost line = s@.subrange(from as int, to as int);
    let hash: usize = find_byte(s, from, to, HASH);
    let ghost said = s@.subrange(from as int, hash as int);
    proof {
        assert(before_first(line, HASH) =~= said);
    }
    let mut start: usize = from;
    proof {
        assert(s@.subrange(start as int, hash as int) =~= said);
    }
    while start < hash && (s[start] == 0x20 || s[start] == 0x09 || s[start] == 0x0d)
        invariant
            from <= start <= hash <= s@.len(),
            trim_front(said) == trim_front(s@.subrange(start as int, hash as int)),
        decreases hash - start,
    {
        proof {
            let here = s@.subrange(start as int, hash as int);
            assert(here[0] == s@[start as int]);
            assert(here.skip(1) =~= s@.subrange(start + 1, hash as int));
        }
        start += 1;
    }
    proof {
        let here = s@.subrange(start as int, hash as int);
        if here.len() > 0 {
            assert(here[0] == s@[start as int]);
        }
        assert(trim_front(said) == here);
    }
    let ghost fronted = s@.subrange(start as int, hash as int);
    let mut end: usize = hash;
    while start < end && (s[end - 1] == 0x20 || s[end - 1] == 0x09 || s[end - 1] == 0x0d)
        invariant
            start <= end <= hash <= s@.len(),
            trim_back(fronted) == trim_back(s@.subrange(start as int, end as int)),
        decreases end - start,
    {
        proof {
            let here = s@.subrange(start as int, end as int);
            assert(here.last() == s@[end - 1]);
            assert(here.drop_last() =~= s@.subrange(start as int, end - 1));
        }
        end -= 1;
    }
    proof {
        let here = s@.subrange(start as int, end as int);
        if here.len() > 0 {
            assert(here.last() == s@[end - 1]);
        }
        assert(line_content(line) == here);
    }
    if start == end {
        return Ok(None);
    }
    match parse_address_range(s, start, end) {
        Ok(range) => Ok(Some(range)),
        Err(e) => Err(e),
    }
}

/// Reads a text as an exclusion list: a range of addresses on each line
/// that says anything.
pub fn parse_exclude_list(text: &str) -> (r: Result<Vec<Ipv4Range>, ScanRangeError>)
    ensures
        match r {
            Ok(ranges) => exclude_list(text.spec_bytes()) == Ok::<Seq<Ipv4Range>, ScanRangeError>(
                ranges@,
            ) && crate::ranges::all_wf(ranges@),
            Err(e) => exclude_list(text.spec_bytes()) == Err::<Seq<Ipv4Range>, ScanRangeError>(e),
        },
{
    let s = text.as_bytes();
    let end: usize = s.len();
    let mut ranges: Vec<Ipv4Range> = Vec::new();
    let mut from: usize = 0;
    proof {
        assert(s@.subrange(0, end as int) =~= s@);
        lemma_exclude_list_wf(s@);
    }
    loop
        invariant
            0 <= from <= end == s@.len(),
            s@ == text.spec_bytes(),
            exclude_list(s@) == prepend_ranges(
                ranges@,
                exclude_list(s@.subrange(from as int, end as int)),
            ),
            exclude_list(s@) matches Ok(all) ==> crate::ranges::all_wf(all),
        decreases end - from,
    {
        let ghost rest = s@.subrange(from as int, end as int);
        let newline: usize = find_byte(s, from, end, NEWLINE);
        proof {
            assert(before_first(rest, NEWLINE) =~= s@.subrange(from as int, newline as int));
            if newline >= end {
                assert(s@.subrange(from as int, newline as int) =~= rest);
            }
        }
        let ghost done = ranges@;
        let ghost mut here: Seq<Ipv4Range> = Seq::empty();
        match parse_exclude_line(s, from, newline) {
            Ok(Some(range)) => {
                ranges.push(range);
                proof {
                    here = seq![range];
                }
            },
            Ok(None) => {},
            Err(e) => {
                return Err(e);
            },
        }
        proof {
            assert(ranges@ =~= done + here);
        }
        if newline >= end {
            proof {
                assert(done + here =~= ranges@);
            }
            return Ok(ranges);
        }
        proof {
            let after = s@.subrange(newline + 1, end as int);
            assert(after_first(rest, NEWLINE) =~= after);
            match exclude_list(after) {
                Ok(more) => {
                    assert(done + (here + more) =~= ranges@ + more);
                },
                Err(e) => {},
            }
        }
        from = newline + 1;
    }
}

impl ScanRangeError {
    pub open spec fn spec_message(self) -> Seq<char> {
        match self {
            ScanRangeError::NoPort => "No port specified"@,
            ScanRangeError::SlashAndHyphen => "Invalid range - contains both - and /"@,
            ScanRangeError::SubnetMask => "Failed to parse subnet mask as u8"@,
            ScanRangeError::NetAddress => "Failed to parse IP net address as Ipv4Addr"@,
            ScanRangeError::AddressStart => "Could not parse address start as Ipv4Addr"@,
            ScanRangeError::AddressEnd => "Could not parse address end as Ipv4Addr"@,
            ScanRangeError::StartAfterEnd => "Start address is bigger than the end address"@,
            ScanRangeError::SingleAddress => "Could not parse single address as Ipv4Addr"@,
            ScanRangeError::PortStart => "Could not parse port start as u16"@,
            ScanRangeError::PortEnd => "Could not parse port end as u16"@,
            ScanRangeError::Port => "Failed to parse port as u16"@,
        }
    }

    /// The fault in words.
    pub fn message(&self) -> (text: &'static str)
        ensures
            text@ == self.spec_message(),
    {
        match self {
            ScanRangeError::NoPort => "No port specified",
            ScanRangeError::SlashAndHyphen => "Invalid range - contains both - and /",
            ScanRangeError::SubnetMask => "Failed to parse subnet mask as u8",
            ScanRangeError::NetAddress => "Failed to parse IP net address as Ipv4Addr",
            ScanRangeError::AddressStart => "Could not parse address start as Ipv4Addr",
            ScanRangeError::AddressEnd => "Could not parse address end as Ipv4Addr",
            ScanRangeError::StartAfterEnd => "Start address is bigger than the end address",
            ScanRangeError::SingleAddress => "Could not parse single address as Ipv4Addr",
            ScanRangeError::PortStart => "Could not parse port start as u16",
            ScanRangeError::PortEnd => "Could not parse port end as u16",
            ScanRangeError::Port => "Failed to parse port as u16",
        }
    }
}

impl std::str::FromStr for ScanRange {
    type Err = ScanRangeError;

    /// Reads a text as a scan range.
    fn from_str(s: &str) -> (r: Result<Self, Self::Err>)
        ensures
            r == scan_range(s.spec_bytes()),
    {
        let bytes = s.as_bytes();
        proof {
            assert(bytes@.subrange(0, bytes@.len() as int) =~= bytes@);
        }
        parse_scan_range(bytes, 0, bytes.len())
    }
}

} // verus!
