//! The order in which the targets of a scan are visited: range after range,
//! in each range address after address, on each address port after port.

use crate::net::SocketAddrV4;
use crate::targets::{
    all_wf, lemma_index_in_range, lemma_index_injective, lemma_position_of, position_of, total,
    ScanRange, ScanRanges,
};
use vstd::arithmetic::div_mod::{
    lemma_fundamental_div_mod_converse_div, lemma_fundamental_div_mod_converse_mod,
};
use vstd::prelude::*;

verus! {

/// The targets on one address, ports ascending from `first` to `last`.
pub open spec fn port_run(ip: u32, first: u16, last: u16) -> Seq<SocketAddrV4> {
    Seq::new((last - first + 1) as nat, |j: int| SocketAddrV4 { ip, port: (first + j) as u16 })
}

/// The targets on the first `n` addresses of `r`, addresses ascending.
pub open spec fn address_runs(r: ScanRange, n: nat) -> Seq<SocketAddrV4>
    decreases n,
{
    if n == 0 {
        Seq::empty()
    } else {
        address_runs(r, (n - 1) as nat) + port_run(
            (r.addr_start + n - 1) as u32,
            r.port_start,
            r.port_end,
        )
    }
}

/// The targets of `r` in the order of their visit.
pub open spec fn range_targets(r: ScanRange) -> Seq<SocketAddrV4> {
    address_runs(r, r.spec_count_addresses())
}

/// The targets of the ranges of `s` in the order of their visit.
pub open spec fn all_targets(s: Seq<ScanRange>) -> Seq<SocketAddrV4>
    decreases s.len(),
{
    if s.len() == 0 {
        Seq::empty()
    } else {
        all_targets(s.drop_last()) + range_targets(s.last())
    }
}

/// No target is in both ranges.
pub open spec fn disjoint(a: ScanRange, b: ScanRange) -> bool {
    ||| a.addr_end < b.addr_start
    ||| b.addr_end < a.addr_start
    ||| a.port_end < b.port_start
    ||| b.port_end < a.port_start
}

/// No target is in two ranges of `s`.
pub open spec fn pairwise_disjoint(s: Seq<ScanRange>) -> bool {
    forall|i: int, j: int| 0 <= i < j < s.len() ==> disjoint(s[i], s[j])
}

/// The first `n` addresses of a range are visited in the order of its
/// positions.
pub proof fn lemma_address_runs(r: ScanRange, n: nat)
    requires
        r.wf(),
        n <= r.spec_count_addresses(),
    ensures
        address_runs(r, n).len() == n * r.spec_count_ports(),
        forall|i: int|
            0 <= i < n * r.spec_count_ports() ==> #[trigger] address_runs(r, n)[i] == r.spec_index(
                i,
            ),
    decreases n,
{
    let p = r.spec_count_ports() as int;
    if n > 0 {
        let m = (n - 1) as nat;
        lemma_address_runs(r, m);
        assert(n * p == m * p + p) by (nonlinear_arith)
            requires
                n == m + 1,
        ;
        let before = address_runs(r, m);
        let run = port_run((r.addr_start + n - 1) as u32, r.port_start, r.port_end);
        assert forall|i: int| 0 <= i < n * p implies #[trigger] address_runs(r, n)[i]
            == r.spec_index(i) by {
            if i < m * p {
                assert(address_runs(r, n)[i] == before[i]);
            } else {
                let j = i - m * p;
                assert(address_runs(r, n)[i] == run[j]);
                lemma_fundamental_div_mod_converse_div(i, p, m as int, j);
                lemma_fundamental_div_mod_converse_mod(i, p, m as int, j);
            }
        }
    } else {
        assert(n * p == 0) by (nonlinear_arith)
            requires
                n == 0,
        ;
    }
}

/// The visit of a range goes through its positions in order: the target
/// visited as number `i` is the target at position `i`, and the visit ends
/// with the count.
pub proof fn lemma_range_targets(r: ScanRange)
    requires
        r.wf(),
    ensures
        range_targets(r).len() == r.spec_count(),
        forall|i: int|
            0 <= i < r.spec_count() ==> #[trigger] range_targets(r)[i] == r.spec_index(i),
{
    lemma_address_runs(r, r.spec_count_addresses());
}

/// The visit is as long as the count of the ranges.
pub proof fn lemma_all_targets_len(s: Seq<ScanRange>)
    requires
        all_wf(s),
    ensures
        all_targets(s).len() == total(s),
    decreases s.len(),
{
    if s.len() > 0 {
        lemma_all_wf_front(s);
        lemma_all_targets_len(s.drop_last());
        assert(s.last().wf());
        lemma_range_targets(s.last());
    }
}

/// The ranges before the last one of well-formed ranges are well formed.
pub proof fn lemma_all_wf_front(s: Seq<ScanRange>)
    requires
        all_wf(s),
        s.len() > 0,
    ensures
        all_wf(s.drop_last()),
{
    let front = s.drop_last();
    assert forall|i: int| 0 <= i < front.len() implies (#[trigger] front[i]).wf() by {
        assert(front[i] == s[i]);
    }
}

/// The first ranges of well-formed ranges are well formed, and count no more
/// than all; with one range more they count that range more.
pub proof fn lemma_total_take(s: Seq<ScanRange>, n: int)
    requires
        all_wf(s),
        0 <= n <= s.len(),
    ensures
        all_wf(s.take(n)),
        total(s.take(n)) <= total(s),
        n < s.len() ==> total(s.take(n + 1)) == total(s.take(n)) + s[n].spec_count(),
    decreases s.len(),
{
    assert forall|i: int| 0 <= i < s.take(n).len() implies (#[trigger] s.take(n)[i]).wf() by {
        assert(s.take(n)[i] == s[i]);
    }
    if n == s.len() {
        assert(s.take(n) =~= s);
    } else {
        lemma_all_wf_front(s);
        lemma_total_take(s.drop_last(), n);
        assert(s.drop_last().take(n) =~= s.take(n));
        assert(s.take(n + 1).drop_last() =~= s.take(n));
    }
}

/// The first ranges count the more the more of them are taken.
pub proof fn lemma_total_take_ordered(s: Seq<ScanRange>, m: int, n: int)
    requires
        all_wf(s),
        0 <= m < n <= s.len(),
    ensures
        total(s.take(m)) + s[m].spec_count() <= total(s.take(n)),
    decreases n - m,
{
    lemma_total_take(s, m);
    if m + 1 < n {
        lemma_total_take_ordered(s, m + 1, n);
    }
}

/// The target at position `k` of range `j` is visited after all targets of
/// the ranges before it and the `k` targets before it in its range.
pub proof fn lemma_all_targets_at(s: Seq<ScanRange>, j: int, k: int)
    requires
        all_wf(s),
        0 <= j < s.len(),
        0 <= k < s[j].spec_count(),
    ensures
        total(s.take(j)) + k < all_targets(s).len(),
        all_targets(s)[total(s.take(j)) + k] == s[j].spec_index(k),
    decreases s.len(),
{
    lemma_all_wf_front(s);
    let front = s.drop_last();
    lemma_all_targets_len(front);
    lemma_all_targets_len(s);
    assert(s.last().wf());
    lemma_range_targets(s.last());
    if j == s.len() - 1 {
        assert(s.take(j) =~= front);
        assert(all_targets(s)[total(front) + k] == range_targets(s.last())[k]);
    } else {
        assert(front[j] == s[j]);
        lemma_all_targets_at(front, j, k);
        assert(front.take(j) =~= s.take(j));
    }
}

/// Every number of a visit is a position of one of the ranges.
pub proof fn lemma_locate(s: Seq<ScanRange>, n: int) -> (at: (int, int))
    requires
        all_wf(s),
        0 <= n < total(s),
    ensures
        0 <= at.0 < s.len(),
        0 <= at.1 < s[at.0].spec_count(),
        n == total(s.take(at.0)) + at.1,
    decreases s.len(),
{
    lemma_all_wf_front(s);
    let front = s.drop_last();
    if n >= total(front) {
        assert(s.take(s.len() - 1) =~= front);
        (s.len() - 1, n - total(front))
    } else {
        let at = lemma_locate(front, n);
        assert(front[at.0] == s[at.0]);
        assert(front.take(at.0) =~= s.take(at.0));
        at
    }
}

/// A visit of ranges that share no target visits no target twice, and as
/// many targets as the ranges count.
pub proof fn lemma_visit_distinct(s: Seq<ScanRange>)
    requires
        all_wf(s),
        pairwise_disjoint(s),
    ensures
        all_targets(s).len() == total(s),
        all_targets(s).no_duplicates(),
{
    lemma_all_targets_len(s);
    let visit = all_targets(s);
    assert forall|m: int, n: int| 0 <= m < visit.len() && 0 <= n < visit.len() && m != n implies visit[m]
        != visit[n] by {
        let a = lemma_locate(s, m);
        let b = lemma_locate(s, n);
        lemma_all_targets_at(s, a.0, a.1);
        lemma_all_targets_at(s, b.0, b.1);
        assert(s[a.0].wf() && s[b.0].wf());
        lemma_index_in_range(s[a.0], a.1);
        lemma_index_in_range(s[b.0], b.1);
        if a.0 == b.0 {
            if visit[m] == visit[n] {
                lemma_index_injective(s[a.0], a.1, b.1);
            }
        } else if a.0 < b.0 {
            assert(disjoint(s[a.0], s[b.0]));
        } else {
            assert(disjoint(s[b.0], s[a.0]));
        }
    }
}

/// A place in a visit: the range, and the address and port in it that come
/// next. Behind the last range the address and port are 0.
#[derive(Debug, Clone, Copy, PartialEq, Eq, Structural)]
pub struct TargetCursor {
    range: usize,
    addr: u32,
    port: u16,
}

impl TargetCursor {
    /// The cursor stands on a target of its range, or behind the last range.
    pub closed spec fn wf(self, s: Seq<ScanRange>) -> bool {
        &&& self.range <= s.len()
        &&& self.range < s.len() ==> s[self.range as int].spec_contains(
            SocketAddrV4 { ip: self.addr, port: self.port },
        )
        &&& self.range == s.len() ==> self.addr == 0 && self.port == 0
    }

    /// How many targets have been visited.
    pub closed spec fn position(self, s: Seq<ScanRange>) -> int {
        total(s.take(self.range as int)) + if self.range < s.len() {
            position_of(s[self.range as int], SocketAddrV4 { ip: self.addr, port: self.port })
        } else {
            0
        }
    }

    /// The cursor before the first target.
    pub fn start(ranges: &ScanRanges) -> (cursor: Self)
        requires
            ranges.wf(),
        ensures
            cursor.wf(ranges@),
            cursor.position(ranges@) == 0,
    {
        let list = ranges.ranges();
        proof {
            assert(list@.take(0) =~= Seq::<ScanRange>::empty());
        }
        if list.len() == 0 {
            TargetCursor { range: 0, addr: 0, port: 0 }
        } else {
            proof {
                assert(list@[0].wf());
                assert(0 * (list@[0].spec_count_ports() as int) == 0) by (nonlinear_arith);
            }
            TargetCursor { range: 0, addr: list[0].addr_start, port: list[0].port_start }
        }
    }

    /// Hands out the target that the cursor stands on and moves on, or
    /// hands out nothing once every target has been visited.
    pub fn next(&mut self, ranges: &ScanRanges) -> (target: Option<SocketAddrV4>)
        requires
            ranges.wf(),
            old(self).wf(ranges@),
        ensures
            final(self).wf(ranges@),
            0 <= old(self).position(ranges@) <= total(ranges@),
            match target {
                Some(t) => {
                    &&& old(self).position(ranges@) < total(ranges@)
                    &&& t == all_targets(ranges@)[old(self).position(ranges@)]
                    &&& final(self).position(ranges@) == old(self).position(ranges@) + 1
                },
                None => {
                    &&& old(self).position(ranges@) == total(ranges@)
                    &&& *final(self) == *old(self)
                },
            },
    {
        let list = ranges.ranges();
        let ghost s = ranges@;
        if self.range >= list.len() {
            proof {
                assert(s.take(self.range as int) =~= s);
            }
            return None;
        }
        let r = list[self.range];
        let target = SocketAddrV4::new(self.addr, self.port);
        let ghost here = self.range as int;
        let ghost k = position_of(r, target);
        let ghost p = r.spec_count_ports() as int;
        proof {
            assert(s[here].wf());
            lemma_position_of(r, target);
            lemma_all_targets_at(s, here, k);
            lemma_all_targets_len(s);
            lemma_total_take(s, here);
        }
        if self.port < r.port_end {
            self.port = self.port + 1;
        } else if self.addr < r.addr_end {
            self.addr = self.addr + 1;
            self.port = r.port_start;
            proof {
                assert((target.ip + 1 - r.addr_start) * p == (target.ip - r.addr_start) * p + p)
                    by (nonlinear_arith);
            }
        } else {
            self.range = self.range + 1;
            proof {
                assert((r.addr_end - r.addr_start) * p + p == (r.addr_end - r.addr_start + 1) * p)
                    by (nonlinear_arith);
                assert(k + 1 == r.spec_count());
            }
            if self.range < list.len() {
                self.addr = list[self.range].addr_start;
                self.port = list[self.range].port_start;
                proof {
                    let next = s[here + 1];
                    assert(next.wf());
                    assert(0 * (next.spec_count_ports() as int) == 0) by (nonlinear_arith);
                }
            } else {
                self.addr = 0;
                self.port = 0;
            }
        }
        Some(target)
    }
}

} // verus!
