//! Inclusive ranges of IPv4 addresses, used to exclude addresses from a scan.

use crate::order::{extend_by_key, is_sorted, lemma_stable_extend_sorted, stable_extend, Keyed};
use vstd::prelude::*;

verus! {

/// The addresses from `start` to `end`, both included. An address is its
/// 32-bit number, first octet in the high byte.
#[derive(Debug, PartialEq, Eq, Copy, Clone, Structural)]
pub struct Ipv4Range {
    pub start: u32,
    pub end: u32,
}

impl Ipv4Range {
    /// The range is not empty.
    pub open spec fn wf(self) -> bool {
        self.start <= self.end
    }

    pub open spec fn spec_contains(self, addr: int) -> bool {
        self.start <= addr <= self.end
    }

    /// The addresses of the range, as a set.
    pub open spec fn addrs(self) -> Set<int> {
        Set::new(|a: int| self.spec_contains(a))
    }

    pub open spec fn spec_count(self) -> nat {
        (self.end - self.start + 1) as nat
    }

    /// The range that holds `addr` alone.
    pub fn single(addr: u32) -> (r: Self)
        ensures
            r.start == addr,
            r.end == addr,
            r.wf(),
    {
        Self { start: addr, end: addr }
    }
}

impl Keyed for Ipv4Range {
    open spec fn spec_sort_key(&self) -> u32 {
        self.start
    }

    fn sort_key(&self) -> (k: u32) {
        self.start
    }
}

/// Every range of `s` is well formed.
pub open spec fn all_wf(s: Seq<Ipv4Range>) -> bool {
    forall|i: int| 0 <= i < s.len() ==> (#[trigger] s[i]).wf()
}

/// Some range of `s` holds `addr`.
pub open spec fn covers(s: Seq<Ipv4Range>, addr: int) -> bool {
    exists|i: int| 0 <= i < s.len() && (#[trigger] s[i]).spec_contains(addr)
}

/// The addresses that some range of `s` holds.
pub open spec fn covered(s: Seq<Ipv4Range>) -> Set<int> {
    Set::new(|a: int| covers(s, a))
}

/// Each range ends before the next one starts.
pub open spec fn separated(s: Seq<Ipv4Range>) -> bool {
    forall|i: int, j: int| 0 <= i < j < s.len() ==> s[i].end < s[j].start
}

/// The addresses in the ranges of `s`, a range counted once for each time
/// it occurs.
pub open spec fn total_count(s: Seq<Ipv4Range>) -> nat
    decreases s.len(),
{
    if s.len() == 0 {
        0
    } else {
        total_count(s.drop_last()) + s.last().spec_count()
    }
}

/// The answer of a bisection for `addr` among `s[lo..hi]`: the middle range
/// decides whether the search goes on behind it, before it, or ends there.
pub open spec fn bisect(s: Seq<Ipv4Range>, lo: int, hi: int, addr: u32) -> bool
    decreases hi - lo,
{
    if lo >= hi {
        false
    } else {
        let mid = lo + (hi - lo) / 2;
        if s[mid].end < addr {
            bisect(s, mid + 1, hi, addr)
        } else if s[mid].start > addr {
            bisect(s, lo, mid, addr)
        } else {
            true
        }
    }
}

/// A bisection only finds addresses that a range holds.
pub proof fn lemma_bisect_sound(s: Seq<Ipv4Range>, lo: int, hi: int, addr: u32)
    requires
        0 <= lo <= hi <= s.len(),
        bisect(s, lo, hi, addr),
    ensures
        covers(s, addr as int),
    decreases hi - lo,
{
    let mid = lo + (hi - lo) / 2;
    if s[mid].end < addr {
        lemma_bisect_sound(s, mid + 1, hi, addr);
    } else if s[mid].start > addr {
        lemma_bisect_sound(s, lo, mid, addr);
    } else {
        assert(s[mid].spec_contains(addr as int));
    }
}

/// Among separated ranges a bisection finds every address that a range of
/// the searched part holds.
pub proof fn lemma_bisect_complete(s: Seq<Ipv4Range>, lo: int, hi: int, addr: u32, at: int)
    requires
        0 <= lo <= at < hi <= s.len(),
        all_wf(s),
        separated(s),
        s[at].spec_contains(addr as int),
    ensures
        bisect(s, lo, hi, addr),
    decreases hi - lo,
{
    let mid = lo + (hi - lo) / 2;
    if s[mid].end < addr {
        assert(s[mid].wf());
        if at < mid {
            assert(s[at].end < s[mid].start);
        }
        lemma_bisect_complete(s, mid + 1, hi, addr, at);
    } else if s[mid].start > addr {
        assert(s[at].wf());
        if mid < at {
            assert(s[mid].end < s[at].start);
        }
        lemma_bisect_complete(s, lo, mid, addr, at);
    }
}

/// A list of address ranges in order of their start.
pub struct Ipv4Ranges {
    ranges: Vec<Ipv4Range>,
}

impl View for Ipv4Ranges {
    type V = Seq<Ipv4Range>;

    closed spec fn view(&self) -> Seq<Ipv4Range> {
        self.ranges@
    }
}

impl Ipv4Ranges {
    /// The ranges are well formed and in order of their start.
    pub open spec fn wf(&self) -> bool {
        &&& all_wf(self@)
        &&& is_sorted(self@)
    }

    /// Whether some range holds `addr`.
    pub open spec fn spec_contains(&self, addr: u32) -> bool {
        covers(self@, addr as int)
    }

    pub open spec fn spec_count(&self) -> nat {
        total_count(self@)
    }

    /// The given ranges in order of their start; ranges with the same start
    /// keep their order.
    pub fn new(ranges: Vec<Ipv4Range>) -> (r: Self)
        requires
            all_wf(ranges@),
        ensures
            r.wf(),
            r@ == stable_extend(Seq::<Ipv4Range>::empty(), ranges@),
            r@.to_multiset() == ranges@.to_multiset(),
    {
        let mut sorted: Vec<Ipv4Range> = Vec::new();
        proof {
            lemma_stable_extend_sorted(sorted@, ranges@);
            crate::order::lemma_stable_extend_multiset(sorted@, ranges@);
            lemma_stable_extend_all_wf(sorted@, ranges@);
            assert(sorted@.to_multiset() =~= vstd::multiset::Multiset::<Ipv4Range>::empty()) by {
                broadcast use vstd::seq_lib::group_to_multiset_ensures;

                assert forall|x: Ipv4Range| sorted@.to_multiset().count(x) == 0 by {
                    assert(!sorted@.contains(x));
                }
            }
            assert(sorted@.to_multiset().add(ranges@.to_multiset()) =~= ranges@.to_multiset());
        }
        extend_by_key(&mut sorted, ranges);
        Self { ranges: sorted }
    }

    /// Looks for `addr` by bisection. The answer is that of [`bisect`]; it
    /// is whether some range holds `addr` where the ranges are separated.
    pub fn contains(&self, addr: u32) -> (found: bool)
        ensures
            found == bisect(self@, 0, self@.len() as int, addr),
            found ==> self.spec_contains(addr),
            self.wf() && separated(self@) ==> found == self.spec_contains(addr),
    {
        let mut start: usize = 0;
        let mut end: usize = self.ranges.len();
        let mut found = false;
        while start < end
            invariant_except_break
                !found,
                0 <= start <= end <= self.ranges.len(),
                bisect(self@, 0, self@.len() as int, addr) == bisect(
                    self@,
                    start as int,
                    end as int,
                    addr,
                ),
            ensures
                found == bisect(self@, 0, self@.len() as int, addr),
            decreases end - start,
        {
            let mid: usize = start + (end - start) / 2;
            let range = &self.ranges[mid];
            if range.end < addr {
                start = mid + 1;
            } else if range.start > addr {
                end = mid;
            } else {
                found = true;
                break ;
            }
        }
        proof {
            if found {
                lemma_bisect_sound(self@, 0, self@.len() as int, addr);
            }
            if self.wf() && separated(self@) && self.spec_contains(addr) {
                let at = choose|i: int| 0 <= i < self@.len() && (#[trigger] self@[i]).spec_contains(addr as int);
                lemma_bisect_complete(self@, 0, self@.len() as int, addr, at);
            }
        }
        found
    }

    pub fn is_empty(&self) -> (empty: bool)
        ensures
            empty == (self@.len() == 0),
    {
        self.ranges.len() == 0
    }

    pub fn ranges(&self) -> (ranges: &Vec<Ipv4Range>)
        ensures
            ranges@ == self@,
    {
        &self.ranges
    }

    /// The number of addresses in the ranges, a range counted once for each
    /// time it occurs.
    pub fn count(&self) -> (total: u64)
        requires
            self.wf(),
            self.spec_count() <= u64::MAX,
        ensures
            total == self.spec_count(),
    {
        let mut total: u64 = 0;
        let mut i: usize = 0;
        while i < self.ranges.len()
            invariant
                0 <= i <= self.ranges.len(),
                self.wf(),
                total == total_count(self@.take(i as int)),
                total_count(self@) <= u64::MAX,
            decreases self.ranges.len() - i,
        {
            let range = &self.ranges[i];
            proof {
                assert(self@[i as int].wf());
                assert(self@.take(i + 1).drop_last() =~= self@.take(i as int));
                lemma_total_count_prefix(self@, i + 1);
            }
            total = total + (range.end as u64 - range.start as u64 + 1);
            i += 1;
        }
        proof {
            assert(self@.take(i as int) =~= self@);
        }
        total
    }
}

/// Stable extension by well-formed ranges keeps the ranges well formed.
pub proof fn lemma_stable_extend_all_wf(s: Seq<Ipv4Range>, more: Seq<Ipv4Range>)
    requires
        all_wf(s),
        all_wf(more),
    ensures
        all_wf(stable_extend(s, more)),
    decreases more.len(),
{
    if more.len() > 0 {
        lemma_stable_extend_all_wf(s, more.drop_last());
        let prev = stable_extend(s, more.drop_last());
        crate::order::lemma_insert_position(prev, more.last().start);
        assert(more.last().wf());
    }
}

/// The count of a prefix is at most the count of the whole.
pub proof fn lemma_total_count_prefix(s: Seq<Ipv4Range>, n: int)
    requires
        0 <= n <= s.len(),
    ensures
        total_count(s.take(n)) <= total_count(s),
    decreases s.len(),
{
    if n == s.len() {
        assert(s.take(n) =~= s);
    } else {
        lemma_total_count_prefix(s.drop_last(), n);
        assert(s.drop_last().take(n) =~= s.take(n));
    }
}

} // verus!
