//! The set of targets of a scan: ranges of addresses crossed with ranges of
//! ports, kept in order of their first address.

use crate::iteration::{all_targets, lemma_all_targets_at, lemma_locate, lemma_total_take, lemma_total_take_ordered};
use crate::net::SocketAddrV4;
use crate::order::{
    extend_by_key, is_sorted, lemma_insert_position, lemma_stable_extend_sorted, stable_extend,
    Keyed,
};
use crate::ranges::{Ipv4Range, Ipv4Ranges};
use vstd::arithmetic::div_mod::{
    lemma_fundamental_div_mod, lemma_fundamental_div_mod_converse_div,
    lemma_fundamental_div_mod_converse_mod,
};
use vstd::prelude::*;

verus! {

/// Every port from `port_start` to `port_end` on every address from
/// `addr_start` to `addr_end`, all bounds included.
#[derive(Debug, Clone, Copy, PartialEq, Eq, Structural)]
pub struct ScanRange {
    pub addr_start: u32,
    pub addr_end: u32,
    pub port_start: u16,
    pub port_end: u16,
}

impl ScanRange {
    /// Neither the addresses nor the ports are empty.
    pub open spec fn wf(self) -> bool {
        &&& self.addr_start <= self.addr_end
        &&& self.port_start <= self.port_end
    }

    pub open spec fn spec_count_addresses(self) -> nat {
        (self.addr_end - self.addr_start + 1) as nat
    }

    pub open spec fn spec_count_ports(self) -> nat {
        (self.port_end - self.port_start + 1) as nat
    }

    /// The number of targets: addresses times ports.
    pub open spec fn spec_count(self) -> nat {
        self.spec_count_addresses() * self.spec_count_ports()
    }

    /// The target at position `i`: ports run fastest.
    pub open spec fn spec_index(self, i: int) -> SocketAddrV4 {
        SocketAddrV4 {
            ip: (self.addr_start + i / (self.spec_count_ports() as int)) as u32,
            port: (self.port_start + i % (self.spec_count_ports() as int)) as u16,
        }
    }

    /// Whether `target` is one of the targets.
    pub open spec fn spec_contains(self, target: SocketAddrV4) -> bool {
        &&& self.addr_start <= target.ip <= self.addr_end
        &&& self.port_start <= target.port <= self.port_end
    }

    pub fn count_addresses(&self) -> (n: u64)
        requires
            self.wf(),
        ensures
            n == self.spec_count_addresses(),
            1 <= n <= 0x1_0000_0000,
    {
        self.addr_end as u64 - self.addr_start as u64 + 1
    }

    pub fn count_ports(&self) -> (n: u64)
        requires
            self.wf(),
        ensures
            n == self.spec_count_ports(),
            1 <= n <= 0x1_0000,
    {
        (self.port_end - self.port_start) as u64 + 1
    }

    /// Count the number of combinations of addresses and ports in this range.
    pub fn count(&self) -> (n: u64)
        requires
            self.wf(),
        ensures
            n == self.spec_count(),
            1 <= n <= 0x1_0000_0000_0000,
    {
        let addresses: u64 = self.count_addresses();
        let ports: u64 = self.count_ports();
        proof {
            lemma_count_bounds(*self);
        }
        addresses * ports
    }

    /// Get the address and port at the given index.
    pub fn index(&self, index: u64) -> (target: SocketAddrV4)
        requires
            self.wf(),
            index < self.spec_count(),
        ensures
            target == self.spec_index(index as int),
            self.spec_contains(target),
    {
        let port_count: u64 = self.count_ports();
        let addr_index: u64 = index / port_count;
        let port_index: u64 = index % port_count;
        proof {
            lemma_index_in_range(*self, index as int);
        }
        let addr: u32 = self.addr_start + addr_index as u32;
        let port: u16 = self.port_start + port_index as u16;
        SocketAddrV4::new(addr, port)
    }

    pub fn single(addr: u32, port: u16) -> (r: Self)
        ensures
            r == (ScanRange { addr_start: addr, addr_end: addr, port_start: port, port_end: port }),
            r.wf(),
    {
        Self { addr_start: addr, addr_end: addr, port_start: port, port_end: port }
    }

    pub fn single_port(addr_start: u32, addr_end: u32, port: u16) -> (r: Self)
        ensures
            r == (ScanRange { addr_start, addr_end, port_start: port, port_end: port }),
    {
        Self { addr_start, addr_end, port_start: port, port_end: port }
    }

    pub fn single_address(addr: u32, port_start: u16, port_end: u16) -> (r: Self)
        ensures
            r == (ScanRange { addr_start: addr, addr_end: addr, port_start, port_end }),
    {
        Self { addr_start: addr, addr_end: addr, port_start, port_end }
    }

    pub fn multi_address_port(addr_start: u32, addr_end: u32, port_start: u16, port_end: u16) -> (r:
        Self)
        ensures
            r == (ScanRange { addr_start, addr_end, port_start, port_end }),
    {
        Self { addr_start, addr_end, port_start, port_end }
    }
}

impl Keyed for ScanRange {
    open spec fn spec_sort_key(&self) -> u32 {
        self.addr_start
    }

    fn sort_key(&self) -> (k: u32) {
        self.addr_start
    }
}

/// A well-formed range has at least one target and at most 2^48.
pub proof fn lemma_count_bounds(r: ScanRange)
    requires
        r.wf(),
    ensures
        1 <= r.spec_count() <= 0x1_0000_0000_0000,
{
    let a = r.spec_count_addresses() as int;
    let p = r.spec_count_ports() as int;
    assert(1 <= a * p <= 0x1_0000_0000_0000) by (nonlinear_arith)
        requires
            1 <= a <= 0x1_0000_0000,
            1 <= p <= 0x1_0000,
    ;
}

/// A position below the count names an address and a port of the range.
pub proof fn lemma_index_in_range(r: ScanRange, i: int)
    requires
        r.wf(),
        0 <= i < r.spec_count(),
    ensures
        0 <= i / (r.spec_count_ports() as int) < r.spec_count_addresses(),
        0 <= i % (r.spec_count_ports() as int) < r.spec_count_ports(),
        r.spec_contains(r.spec_index(i)),
{
    let a = r.spec_count_addresses() as int;
    let p = r.spec_count_ports() as int;
    lemma_fundamental_div_mod(i, p);
    assert(0 <= i / p < a && 0 <= i % p < p) by (nonlinear_arith)
        requires
            0 <= i < a * p,
            p > 0,
            i == p * (i / p) + (i % p),
    ;
}

/// The position of a target of the range: the targets of the addresses
/// before it, then the ports before it.
pub open spec fn position_of(r: ScanRange, target: SocketAddrV4) -> int {
    (target.ip - r.addr_start) * (r.spec_count_ports() as int) + (target.port - r.port_start)
}

/// Every target of the range stands at its position, which is below the
/// count.
pub proof fn lemma_position_of(r: ScanRange, target: SocketAddrV4)
    requires
        r.wf(),
        r.spec_contains(target),
    ensures
        0 <= position_of(r, target) < r.spec_count(),
        r.spec_index(position_of(r, target)) == target,
{
    let a = r.spec_count_addresses() as int;
    let p = r.spec_count_ports() as int;
    let q = target.ip - r.addr_start;
    let m = target.port - r.port_start;
    lemma_fundamental_div_mod_converse_div(q * p + m, p, q, m);
    lemma_fundamental_div_mod_converse_mod(q * p + m, p, q, m);
    assert(0 <= q * p + m < a * p) by (nonlinear_arith)
        requires
            0 <= q < a,
            0 <= m < p,
    ;
}

/// Two positions of a range that name the same target are the same.
pub proof fn lemma_index_injective(r: ScanRange, i: int, j: int)
    requires
        r.wf(),
        0 <= i < r.spec_count(),
        0 <= j < r.spec_count(),
        r.spec_index(i) == r.spec_index(j),
    ensures
        i == j,
{
    let p = r.spec_count_ports() as int;
    lemma_index_in_range(r, i);
    lemma_index_in_range(r, j);
    lemma_fundamental_div_mod(i, p);
    lemma_fundamental_div_mod(j, p);
}

/// Every range of `s` is well formed.
pub open spec fn all_wf(s: Seq<ScanRange>) -> bool {
    forall|i: int| 0 <= i < s.len() ==> (#[trigger] s[i]).wf()
}

/// The number of targets in the ranges of `s`, a target counted once for
/// each range that holds it.
pub open spec fn total(s: Seq<ScanRange>) -> nat
    decreases s.len(),
{
    if s.len() == 0 {
        0
    } else {
        total(s.drop_last()) + s.last().spec_count()
    }
}

/// Some address of `r` lies in `x`.
pub open spec fn overlaps(r: ScanRange, x: Ipv4Range) -> bool {
    r.addr_end >= x.start && r.addr_start <= x.end
}

/// What stays in the place of `r` when `x` is excluded: `r` itself if `x`
/// does not touch it, else its addresses before `x`, if there are any.
pub open spec fn kept_part(r: ScanRange, x: Ipv4Range) -> Option<ScanRange> {
    if !overlaps(r, x) {
        Some(r)
    } else if r.addr_start < x.start {
        Some(ScanRange { addr_end: (x.start - 1) as u32, ..r })
    } else {
        None
    }
}

/// What is cut off `r` and put back later when `x` is excluded: its
/// addresses behind `x`, if `x` touches it and there are any.
pub open spec fn queued_part(r: ScanRange, x: Ipv4Range) -> Option<ScanRange> {
    if overlaps(r, x) && r.addr_end > x.end {
        Some(ScanRange { addr_start: (x.end + 1) as u32, ..r })
    } else {
        None
    }
}

/// The kept parts of the ranges of `s`, in their order.
pub open spec fn kept_parts(s: Seq<ScanRange>, x: Ipv4Range) -> Seq<ScanRange>
    decreases s.len(),
{
    if s.len() == 0 {
        Seq::empty()
    } else {
        match kept_part(s.last(), x) {
            Some(r) => kept_parts(s.drop_last(), x).push(r),
            None => kept_parts(s.drop_last(), x),
        }
    }
}

/// The queued parts of the ranges of `s`, in their order.
pub open spec fn queued_parts(s: Seq<ScanRange>, x: Ipv4Range) -> Seq<ScanRange>
    decreases s.len(),
{
    if s.len() == 0 {
        Seq::empty()
    } else {
        match queued_part(s.last(), x) {
            Some(r) => queued_parts(s.drop_last(), x).push(r),
            None => queued_parts(s.drop_last(), x),
        }
    }
}

/// `s` without the addresses of `x`: the kept parts, with the queued parts
/// put back in order of their start.
pub open spec fn exclude_one(s: Seq<ScanRange>, x: Ipv4Range) -> Seq<ScanRange> {
    stable_extend(kept_parts(s, x), queued_parts(s, x))
}

/// `s` after each range of `xs` has been excluded, first to last.
pub open spec fn exclude_all(s: Seq<ScanRange>, xs: Seq<Ipv4Range>) -> Seq<ScanRange>
    decreases xs.len(),
{
    if xs.len() == 0 {
        s
    } else {
        exclude_one(exclude_all(s, xs.drop_last()), xs.last())
    }
}

/// The parts of a range are well formed, keep its ports, lie inside it and
/// outside `x`; the kept part keeps its start.
pub proof fn lemma_parts(r: ScanRange, x: Ipv4Range)
    requires
        r.wf(),
        x.wf(),
    ensures
        kept_part(r, x) matches Some(k) ==> {
            &&& k.wf()
            &&& !overlaps(k, x)
            &&& k.addr_start == r.addr_start
            &&& k.addr_end <= r.addr_end
            &&& k.port_start == r.port_start
            &&& k.port_end == r.port_end
        },
        queued_part(r, x) matches Some(q) ==> {
            &&& q.wf()
            &&& !overlaps(q, x)
            &&& q.addr_start == x.end + 1
            &&& q.addr_end == r.addr_end
            &&& q.port_start == r.port_start
            &&& q.port_end == r.port_end
        },
{
}

/// The kept parts of well-formed ranges in order are well formed and in
/// order; the queued parts are well formed.
pub proof fn lemma_parts_wf(s: Seq<ScanRange>, x: Ipv4Range)
    requires
        all_wf(s),
        x.wf(),
    ensures
        all_wf(kept_parts(s, x)),
        all_wf(queued_parts(s, x)),
        kept_parts(s, x).len() <= s.len(),
        queued_parts(s, x).len() <= s.len(),
        is_sorted(s) ==> is_sorted(kept_parts(s, x)),
        forall|i: int|
            0 <= i < kept_parts(s, x).len() ==> exists|j: int|
                0 <= j < s.len() && (#[trigger] kept_parts(s, x)[i]).addr_start
                    == (#[trigger] s[j]).addr_start,
    decreases s.len(),
{
    if s.len() > 0 {
        let front = s.drop_last();
        assert(all_wf(front)) by {
            assert forall|i: int| 0 <= i < front.len() implies (#[trigger] front[i]).wf() by {
                assert(front[i] == s[i]);
            }
        }
        lemma_parts_wf(front, x);
        assert(s.last().wf());
        lemma_parts(s.last(), x);
        let kept = kept_parts(s, x);
        let before = kept_parts(front, x);
        assert forall|i: int| 0 <= i < kept.len() implies exists|j: int|
            0 <= j < s.len() && (#[trigger] kept[i]).addr_start == (#[trigger] s[j]).addr_start by {
            if i < before.len() {
                assert(kept[i] == before[i]);
                let j = choose|j: int|
                    0 <= j < front.len() && (#[trigger] before[i]).addr_start
                        == (#[trigger] front[j]).addr_start;
                assert(front[j] == s[j]);
            } else {
                assert(kept[i].addr_start == s[s.len() - 1].addr_start);
            }
        }
        if is_sorted(s) {
            assert(is_sorted(front)) by {
                assert forall|i: int, j: int| 0 <= i <= j < front.len() implies front[i].addr_start
                    <= front[j].addr_start by {
                    assert(front[i] == s[i] && front[j] == s[j]);
                }
            }
            assert forall|i: int, j: int| 0 <= i <= j < kept.len() implies kept[i].addr_start
                <= kept[j].addr_start by {
                if j < before.len() {
                    assert(kept[i] == before[i] && kept[j] == before[j]);
                } else if i < before.len() {
                    assert(kept[i] == before[i]);
                    let k = choose|k: int|
                        0 <= k < front.len() && (#[trigger] before[i]).addr_start
                            == (#[trigger] front[k]).addr_start;
                    assert(front[k] == s[k]);
                    assert(s[k].addr_start <= s[s.len() - 1].addr_start);
                }
            }
        }
    }
}

/// Where no range from position `n` on overlaps `x`, the parts of `s` are
/// the parts of its first `n` ranges, followed by the rest as it is.
pub proof fn lemma_parts_of_untouched_tail(s: Seq<ScanRange>, n: int, x: Ipv4Range)
    requires
        0 <= n <= s.len(),
        forall|k: int| n <= k < s.len() ==> !overlaps(#[trigger] s[k], x),
    ensures
        kept_parts(s, x) == kept_parts(s.take(n), x) + s.skip(n),
        queued_parts(s, x) == queued_parts(s.take(n), x),
    decreases s.len() - n,
{
    if n == s.len() {
        assert(s.take(n) =~= s);
        assert(kept_parts(s.take(n), x) + s.skip(n) =~= kept_parts(s, x));
    } else {
        let front = s.drop_last();
        assert forall|k: int| n <= k < front.len() implies !overlaps(#[trigger] front[k], x) by {
            assert(front[k] == s[k]);
        }
        lemma_parts_of_untouched_tail(front, n, x);
        assert(front.take(n) =~= s.take(n));
        assert(!overlaps(s[s.len() - 1], x));
        assert(kept_parts(s, x) =~= kept_parts(s.take(n), x) + s.skip(n)) by {
            assert(front.skip(n).push(s.last()) =~= s.skip(n));
        }
    }
}

/// Stable extension by well-formed ranges keeps the ranges well formed.
pub proof fn lemma_stable_extend_all_wf(s: Seq<ScanRange>, more: Seq<ScanRange>)
    requires
        all_wf(s),
        all_wf(more),
    ensures
        all_wf(stable_extend(s, more)),
    decreases more.len(),
{
    if more.len() > 0 {
        lemma_stable_extend_all_wf(s, more.drop_last());
        let prev = stable_extend(s, more.drop_last());
        lemma_insert_position(prev, more.last().addr_start);
        assert(more.last().wf());
    }
}

/// Excluding a range keeps the ranges well formed and in order.
pub proof fn lemma_exclude_one_wf(s: Seq<ScanRange>, x: Ipv4Range)
    requires
        all_wf(s),
        is_sorted(s),
        x.wf(),
    ensures
        all_wf(exclude_one(s, x)),
        is_sorted(exclude_one(s, x)),
{
    lemma_parts_wf(s, x);
    lemma_stable_extend_all_wf(kept_parts(s, x), queued_parts(s, x));
    lemma_stable_extend_sorted(kept_parts(s, x), queued_parts(s, x));
}

/// A set of scan ranges, in order of their first address. Ranges may overlap;
/// a target in two ranges counts, and is scanned, twice.
#[derive(Debug, Clone, PartialEq)]
pub struct ScanRanges {
    /// The ranges in order of `addr_start`.
    ranges: Vec<ScanRange>,
}

impl View for ScanRanges {
    type V = Seq<ScanRange>;

    closed spec fn view(&self) -> Seq<ScanRange> {
        self.ranges@
    }
}

impl ScanRanges {
    /// Every range is well formed, and the ranges are in order of their first
    /// address.
    pub open spec fn wf(&self) -> bool {
        &&& all_wf(self@)
        &&& is_sorted(self@)
    }

    pub open spec fn spec_count(&self) -> nat {
        total(self@)
    }

    pub fn new() -> (r: Self)
        ensures
            r@ == Seq::<ScanRange>::empty(),
            r.wf(),
    {
        Self { ranges: Vec::new() }
    }

    /// Add to the set of ranges: the new ranges are put in order of their
    /// first address, behind the ranges that start at the same address.
    pub fn extend(&mut self, ranges: Vec<ScanRange>)
        requires
            old(self).wf(),
            all_wf(ranges@),
        ensures
            final(self).wf(),
            final(self)@ == stable_extend(old(self)@, ranges@),
    {
        proof {
            lemma_stable_extend_all_wf(self@, ranges@);
            lemma_stable_extend_sorted(self@, ranges@);
        }
        extend_by_key(&mut self.ranges, ranges);
    }

    /// Takes the addresses of every given range out of the set.
    pub fn exclude_ranges(&mut self, ranges: Ipv4Ranges)
        requires
            old(self).wf(),
            ranges.wf(),
        ensures
            final(self).wf(),
            final(self)@ == exclude_all(old(self)@, ranges@),
    {
        let excluded = ranges.ranges();
        let mut n: usize = 0;
        while n < excluded.len()
            invariant
                0 <= n <= excluded.len(),
                excluded@ == ranges@,
                ranges.wf(),
                self.wf(),
                self@ == exclude_all(old(self)@, excluded@.take(n as int)),
            decreases excluded.len() - n,
        {
            proof {
                assert(excluded@.take(n + 1).drop_last() =~= excluded@.take(n as int));
                assert(excluded@[n as int].wf());
            }
            self.exclude(&excluded[n]);
            n += 1;
        }
        proof {
            assert(excluded@.take(n as int) =~= excluded@);
        }
    }

    /// Takes the addresses of `exclude_range` out of the set. A range that
    /// lies inside it goes; one that reaches over one of its ends is cut
    /// there; one that reaches over both is split in two.
    pub fn exclude(&mut self, exclude_range: &Ipv4Range)
        requires
            old(self).wf(),
            exclude_range.wf(),
        ensures
            final(self).wf(),
            final(self)@ == exclude_one(old(self)@, *exclude_range),
    {
        let x = *exclude_range;
        let ghost orig = self@;
        let ghost mut seen: int = 0;
        let mut i: usize = 0;
        while i < self.ranges.len() && self.ranges[i].addr_end < x.start
            invariant
                0 <= i <= self.ranges.len(),
                seen == i,
                self@ == orig,
                self.ranges@ == kept_parts(orig.take(seen), x) + orig.skip(seen),
                queued_parts(orig.take(seen), x) == Seq::<ScanRange>::empty(),
            decreases self.ranges.len() - i,
        {
            proof {
                assert(orig.take(seen + 1).drop_last() =~= orig.take(seen));
                assert(orig.take(seen + 1).last() == orig[seen]);
                assert(kept_parts(orig.take(seen + 1), x) + orig.skip(seen + 1) =~= kept_parts(
                    orig.take(seen),
                    x,
                ) + orig.skip(seen));
                seen = seen + 1;
            }
            i += 1;
        }

        let mut queued_push: Vec<ScanRange> = Vec::new();

        while i < self.ranges.len() && self.ranges[i].addr_start <= x.end
            invariant
                x.wf(),
                all_wf(orig),
                0 <= seen <= orig.len(),
                0 <= i <= self.ranges.len(),
                i == kept_parts(orig.take(seen), x).len(),
                self.ranges@ == kept_parts(orig.take(seen), x) + orig.skip(seen),
                queued_push@ == queued_parts(orig.take(seen), x),
            decreases orig.len() - seen,
        {
            let range = self.ranges[i];
            proof {
                assert(range == orig[seen]);
                assert(orig[seen].wf());
                assert(orig.take(seen + 1).drop_last() =~= orig.take(seen));
                assert(orig.take(seen + 1).last() == orig[seen]);
            }
            if range.addr_end < x.start {
                // Not touched: only its start lies before the end of the exclude.
                i += 1;
            } else if range.addr_start >= x.start && range.addr_end <= x.end {
                // Range is fully contained in exclude.
                self.ranges.remove(i);
            } else if range.addr_start < x.start && range.addr_end > x.end {
                // Range fully contains the exclude, so split.
                let other_range = ScanRange {
                    addr_start: x.end + 1,
                    addr_end: range.addr_end,
                    port_start: range.port_start,
                    port_end: range.port_end,
                };
                self.ranges.set(
                    i,
                    ScanRange {
                        addr_start: range.addr_start,
                        addr_end: x.start - 1,
                        port_start: range.port_start,
                        port_end: range.port_end,
                    },
                );
                queued_push.push(other_range);
                i += 1;
            } else if range.addr_start < x.start {
                // Cut off end.
                self.ranges.set(
                    i,
                    ScanRange {
                        addr_start: range.addr_start,
                        addr_end: x.start - 1,
                        port_start: range.port_start,
                        port_end: range.port_end,
                    },
                );
                i += 1;
            } else {
                // Cut off start. Changing the start would change the position,
                // so the range goes and what is left of it comes back later.
                self.ranges.remove(i);
                queued_push.push(
                    ScanRange {
                        addr_start: x.end + 1,
                        addr_end: range.addr_end,
                        port_start: range.port_start,
                        port_end: range.port_end,
                    },
                );
            }
            proof {
                assert(self.ranges@ =~= kept_parts(orig.take(seen + 1), x) + orig.skip(seen + 1));
                seen = seen + 1;
            }
        }
        proof {
            assert forall|k: int| seen <= k < orig.len() implies !overlaps(#[trigger] orig[k], x) by {
                assert(orig[seen] == self.ranges@[i as int]);
                assert(orig[seen].addr_start <= orig[k].addr_start);
            }
            lemma_parts_of_untouched_tail(orig, seen, x);
            lemma_parts_wf(orig, x);
            lemma_exclude_one_wf(orig, x);
        }
        self.extend(queued_push);
    }

    /// Count the total number of targets that are going to be scanned.
    pub fn count(&self) -> (n: u64)
        requires
            self.wf(),
            self.spec_count() <= u64::MAX,
        ensures
            n == self.spec_count(),
    {
        let mut sum: u64 = 0;
        let mut i: usize = 0;
        while i < self.ranges.len()
            invariant
                0 <= i <= self.ranges.len(),
                self.wf(),
                sum == total(self@.take(i as int)),
                total(self@) <= u64::MAX,
            decreases self.ranges.len() - i,
        {
            proof {
                assert(self@[i as int].wf());
                assert(self@.take(i + 1).drop_last() =~= self@.take(i as int));
                lemma_total_prefix(self@, i + 1);
            }
            sum = sum + self.ranges[i].count();
            i += 1;
        }
        proof {
            assert(self@.take(i as int) =~= self@);
        }
        sum
    }

    /// The total number of targets, if it is a 64-bit number.
    pub fn checked_count(&self) -> (n: Option<u64>)
        requires
            self.wf(),
        ensures
            n == if self.spec_count() <= u64::MAX {
                Some(self.spec_count() as u64)
            } else {
                None
            },
    {
        let mut sum: u64 = 0;
        let mut i: usize = 0;
        while i < self.ranges.len()
            invariant
                0 <= i <= self.ranges.len(),
                self.wf(),
                sum == total(self@.take(i as int)),
            decreases self.ranges.len() - i,
        {
            proof {
                assert(self@[i as int].wf());
                assert(self@.take(i + 1).drop_last() =~= self@.take(i as int));
                lemma_total_prefix(self@, i + 1);
            }
            let count: u64 = self.ranges[i].count();
            if count > u64::MAX - sum {
                return None;
            }
            sum = sum + count;
            i += 1;
        }
        proof {
            assert(self@.take(i as int) =~= self@);
        }
        Some(sum)
    }

    pub fn is_empty(&self) -> (empty: bool)
        ensures
            empty == (self@.len() == 0),
    {
        self.ranges.len() == 0
    }

    pub fn ranges(&self) -> (ranges: &Vec<ScanRange>)
        ensures
            ranges@ == self@,
    {
        &self.ranges
    }

    /// Get the address and port at the given index, by going through the
    /// ranges from the first.
    ///
    /// You should use [`Self::to_static`] and then call index on that.
    pub fn slow_index(&self, index: u64) -> (target: SocketAddrV4)
        requires
            self.wf(),
            index < self.spec_count(),
        ensures
            target == all_targets(self@)[index as int],
    {
        let mut i: usize = 0;
        let mut rest: u64 = index;
        proof {
            assert(self@.take(0) =~= Seq::<ScanRange>::empty());
        }
        while i < self.ranges.len()
            invariant
                0 <= i <= self.ranges.len(),
                self.wf(),
                index == total(self@.take(i as int)) + rest,
                index < total(self@),
            decreases self.ranges.len() - i,
        {
            let range = &self.ranges[i];
            proof {
                assert(self@[i as int].wf());
                lemma_total_take(self@, i as int);
            }
            let count: u64 = range.count();
            if rest < count {
                proof {
                    lemma_all_targets_at(self@, i as int, rest as int);
                }
                return range.index(rest);
            }
            rest -= count;
            i += 1;
        }
        proof {
            assert(self@.take(i as int) =~= self@);
        }
        vstd::pervasive::unreached()
    }

    /// The ranges with, beside each, its count and the count of the ranges
    /// before it, so that a target can be found by bisection.
    pub fn to_static(self) -> (fixed: StaticScanRanges)
        requires
            self.wf(),
            self.spec_count() <= u64::MAX,
        ensures
            fixed.wf(),
            fixed@ == self@,
            fixed.count == self.spec_count(),
    {
        let mut ranges: Vec<StaticScanRange> = Vec::with_capacity(self.ranges.len());
        let mut index: u64 = 0;
        let mut i: usize = 0;
        proof {
            assert(self@.take(0) =~= Seq::<ScanRange>::empty());
        }
        while i < self.ranges.len()
            invariant
                0 <= i <= self.ranges.len(),
                self.wf(),
                total(self@) <= u64::MAX,
                index == total(self@.take(i as int)),
                ranges@.len() == i,
                forall|j: int|
                    0 <= j < i ==> {
                        &&& (#[trigger] ranges@[j]).range == self@[j]
                        &&& ranges@[j].count == self@[j].spec_count()
                        &&& ranges@[j].index == total(self@.take(j))
                    },
            decreases self.ranges.len() - i,
        {
            let range = self.ranges[i];
            proof {
                assert(self@[i as int].wf());
                lemma_total_take(self@, i as int);
                lemma_total_take(self@, i + 1);
            }
            let count: u64 = range.count();
            ranges.push(StaticScanRange { count, range, index });
            index += count;
            i += 1;
        }
        proof {
            assert(self@.take(i as int) =~= self@);
        }
        let fixed = StaticScanRanges { ranges, count: index };
        proof {
            reveal(StaticScanRanges::wf);
            assert(fixed@ =~= self@);
        }
        fixed
    }
}

impl Default for ScanRanges {
    fn default() -> (r: Self)
        ensures
            r@ == Seq::<ScanRange>::empty(),
            r.wf(),
    {
        Self::new()
    }
}

/// One range for each address, holding that address and port alone.
pub open spec fn single_ranges(addrs: Seq<SocketAddrV4>) -> Seq<ScanRange> {
    Seq::new(
        addrs.len(),
        |i: int|
            ScanRange {
                addr_start: addrs[i].ip,
                addr_end: addrs[i].ip,
                port_start: addrs[i].port,
                port_end: addrs[i].port,
            },
    )
}

impl From<Vec<SocketAddrV4>> for ScanRanges {
    /// A set with one single-address, single-port range for each address.
    fn from(addrs: Vec<SocketAddrV4>) -> (r: Self)
        ensures
            r.wf(),
            r@ == stable_extend(Seq::<ScanRange>::empty(), single_ranges(addrs@)),
    {
        let mut ranges: Vec<ScanRange> = Vec::new();
        let mut i: usize = 0;
        while i < addrs.len()
            invariant
                0 <= i <= addrs.len(),
                ranges@ == single_ranges(addrs@).take(i as int),
            decreases addrs.len() - i,
        {
            let socket_addr = addrs[i];
            ranges.push(
                ScanRange {
                    addr_start: socket_addr.ip(),
                    addr_end: socket_addr.ip(),
                    port_start: socket_addr.port(),
                    port_end: socket_addr.port(),
                },
            );
            proof {
                assert(ranges@ =~= single_ranges(addrs@).take(i + 1));
            }
            i += 1;
        }
        proof {
            assert(single_ranges(addrs@).take(i as int) =~= single_ranges(addrs@));
        }
        let mut scan_ranges = ScanRanges::new();
        scan_ranges.extend(ranges);
        scan_ranges
    }
}

impl vstd::std_specs::convert::FromSpecImpl<Vec<SocketAddrV4>> for ScanRanges {
    open spec fn obeys_from_spec() -> bool {
        false
    }

    open spec fn from_spec(v: Vec<SocketAddrV4>) -> Self {
        arbitrary()
    }
}

/// How the range in the middle of a bisection stands to the range looked
/// for: one before it ends before that one starts, one behind it starts
/// after that one ends.
pub proof fn lemma_bisect_step(s: Seq<ScanRange>, mid: int, at: int)
    requires
        all_wf(s),
        0 <= mid < s.len(),
        0 <= at < s.len(),
    ensures
        mid < at ==> total(s.take(mid)) + s[mid].spec_count() <= total(s.take(at)),
        at < mid ==> total(s.take(at)) + s[at].spec_count() <= total(s.take(mid)),
{
    if mid < at {
        lemma_total_take_ordered(s, mid, at);
    }
    if at < mid {
        lemma_total_take_ordered(s, at, mid);
    }
}

/// A range with its count and the count of the ranges before it.
pub struct StaticScanRange {
    pub range: ScanRange,
    count: u64,
    index: u64,
}

/// Scan ranges prepared for finding the target at an index by bisection.
pub struct StaticScanRanges {
    pub ranges: Vec<StaticScanRange>,
    pub count: u64,
}

impl View for StaticScanRanges {
    type V = Seq<ScanRange>;

    closed spec fn view(&self) -> Seq<ScanRange> {
        Seq::new(self.ranges@.len(), |i: int| self.ranges@[i].range)
    }
}

impl StaticScanRanges {
    /// The ranges are well formed, each stands beside its count and the
    /// count of the ranges before it, and `count` is the count of all.
    #[verifier::opaque]
    pub closed spec fn wf(&self) -> bool {
        &&& all_wf(self@)
        &&& self.count == total(self@)
        &&& forall|i: int|
            0 <= i < self.ranges@.len() ==> {
                &&& (#[trigger] self.ranges@[i]).count == self@[i].spec_count()
                &&& self.ranges@[i].index == total(self@.take(i))
            }
    }

    /// What stands beside the range at position `i`.
    proof fn lemma_entry(&self, i: int)
        requires
            self.wf(),
            0 <= i < self.ranges@.len(),
        ensures
            self@.len() == self.ranges@.len(),
            self.ranges@[i].range == self@[i],
            self@[i].wf(),
            self.ranges@[i].count == self@[i].spec_count(),
            self.ranges@[i].index == total(self@.take(i)),
            self.ranges@[i].index + self.ranges@[i].count <= self.count,
            self.count == total(self@),
            all_wf(self@),
    {
        reveal(StaticScanRanges::wf);
        assert(self@[i].wf());
        lemma_total_take(self@, i);
        lemma_total_take(self@, i + 1);
    }

    /// The range that holds the target at `index`, and the position of the
    /// target in it.
    proof fn lemma_find(&self, index: u64) -> (at: (int, int))
        requires
            self.wf(),
            index < self.count,
        ensures
            0 <= at.0 < self.ranges@.len(),
            0 <= at.1 < self@[at.0].spec_count(),
            index == total(self@.take(at.0)) + at.1,
    {
        reveal(StaticScanRanges::wf);
        lemma_locate(self@, index as int)
    }

    /// Get the address and port at the given index, by bisection.
    pub fn index(&self, index: u64) -> (target: SocketAddrV4)
        requires
            self.wf(),
            index < self.count,
        ensures
            target == all_targets(self@)[index as int],
    {
        // binary search to find the range that contains the index
        let mut start: usize = 0;
        let mut end: usize = self.ranges.len();
        let ghost at = self.lemma_find(index);
        while start < end
            invariant
                self.wf(),
                0 <= start <= at.0 < end <= self.ranges.len(),
                0 <= at.1 < self@[at.0].spec_count(),
                index == total(self@.take(at.0)) + at.1,
            decreases end - start,
        {
            let mid: usize = start + (end - start) / 2;
            let range = &self.ranges[mid];
            proof {
                self.lemma_entry(mid as int);
                self.lemma_entry(at.0);
                lemma_bisect_step(self@, mid as int, at.0);
            }
            if range.index + range.count <= index {
                start = mid + 1;
            } else if range.index > index {
                end = mid;
            } else {
                proof {
                    lemma_all_targets_at(self@, at.0, at.1);
                }
                return range.range.index(index - range.index);
            }
        }
        vstd::pervasive::unreached()
    }
}

/// The count of a prefix is at most the count of the whole.
pub proof fn lemma_total_prefix(s: Seq<ScanRange>, n: int)
    requires
        0 <= n <= s.len(),
    ensures
        total(s.take(n)) <= total(s),
    decreases s.len(),
{
    if n == s.len() {
        assert(s.take(n) =~= s);
    } else {
        lemma_total_prefix(s.drop_last(), n);
        assert(s.drop_last().take(n) =~= s.take(n));
    }
}

} // verus!
