//! What exclusion does to the targets of a scan: which addresses are left,
//! and how many targets go.

use crate::order::{insert_position, is_sorted, lemma_insert_position, stable_extend};
use crate::ranges::{covered, covers, Ipv4Range};
use crate::targets::{
    all_wf, exclude_all, exclude_one, kept_part, kept_parts, lemma_exclude_one_wf, overlaps,
    queued_part, queued_parts, total, ScanRange,
};
use vstd::prelude::*;

verus! {

/// How many of the addresses from `lo` to `hi`, both included, are in `e`.
pub open spec fn covered_between(lo: int, hi: int, e: Set<int>) -> nat
    decreases hi - lo + 1,
{
    if hi < lo {
        0
    } else {
        covered_between(lo, hi - 1, e) + if e.contains(hi) {
            1nat
        } else {
            0nat
        }
    }
}

/// How many targets of `r` have their address in `e`.
pub open spec fn range_hits(r: ScanRange, e: Set<int>) -> nat {
    covered_between(r.addr_start as int, r.addr_end as int, e) * r.spec_count_ports()
}

/// How many targets of the ranges of `s` have their address in `e`, a target
/// counted once for each range that holds it.
pub open spec fn hits(s: Seq<ScanRange>, e: Set<int>) -> nat
    decreases s.len(),
{
    if s.len() == 0 {
        0
    } else {
        hits(s.drop_last(), e) + range_hits(s.last(), e)
    }
}

/// A stretch of addresses counts as its two parts do.
pub proof fn lemma_covered_split(lo: int, mid: int, hi: int, e: Set<int>)
    requires
        lo - 1 <= mid <= hi,
    ensures
        covered_between(lo, hi, e) == covered_between(lo, mid, e) + covered_between(
            mid + 1,
            hi,
            e,
        ),
    decreases hi - mid,
{
    if mid < hi {
        lemma_covered_split(lo, mid, hi - 1, e);
    }
}

/// Two sets that agree on a stretch of addresses count the same on it.
pub proof fn lemma_covered_agree(lo: int, hi: int, e1: Set<int>, e2: Set<int>)
    requires
        forall|a: int| lo <= a <= hi ==> e1.contains(a) == e2.contains(a),
    ensures
        covered_between(lo, hi, e1) == covered_between(lo, hi, e2),
    decreases hi - lo + 1,
{
    if lo <= hi {
        lemma_covered_agree(lo, hi - 1, e1, e2);
    }
}

/// A stretch counts at most its length; it counts nothing exactly where none
/// of its addresses is in the set, and its length where all are.
pub proof fn lemma_covered_bounds(lo: int, hi: int, e: Set<int>)
    requires
        lo <= hi + 1,
    ensures
        covered_between(lo, hi, e) <= hi - lo + 1,
        covered_between(lo, hi, e) == 0 <==> forall|a: int| lo <= a <= hi ==> !e.contains(a),
        (forall|a: int| lo <= a <= hi ==> e.contains(a)) ==> covered_between(lo, hi, e) == hi - lo
            + 1,
    decreases hi - lo + 1,
{
    if lo <= hi {
        lemma_covered_bounds(lo, hi - 1, e);
    }
}

/// A set and what is left of it without `c` count, together, as the set.
pub proof fn lemma_covered_difference(lo: int, hi: int, e: Set<int>, c: Set<int>)
    ensures
        covered_between(lo, hi, e.difference(c)) + covered_between(lo, hi, e.intersect(c))
            == covered_between(lo, hi, e),
    decreases hi - lo + 1,
{
    if lo <= hi {
        lemma_covered_difference(lo, hi - 1, e, c);
    }
}

/// The parts of a range hold the targets of the range whose address is not
/// in `x`, each once.
pub proof fn lemma_parts_hits(r: ScanRange, x: Ipv4Range, e: Set<int>)
    requires
        r.wf(),
        x.wf(),
    ensures
        (match kept_part(r, x) {
            Some(k) => range_hits(k, e),
            None => 0,
        }) + (match queued_part(r, x) {
            Some(q) => range_hits(q, e),
            None => 0,
        }) == range_hits(r, e.difference(x.addrs())),
{
    let d = e.difference(x.addrs());
    let lo = r.addr_start as int;
    let hi = r.addr_end as int;
    let p = r.spec_count_ports() as int;
    if !overlaps(r, x) {
        lemma_covered_agree(lo, hi, e, d);
    } else {
        // The range in three stretches: before, inside and behind `x`.
        let from = if lo < x.start { x.start as int } else { lo };
        let to = if hi > x.end { x.end as int } else { hi };
        lemma_covered_split(lo, from - 1, hi, d);
        lemma_covered_split(from, to, hi, d);
        lemma_covered_bounds(from, to, d);
        lemma_covered_agree(lo, from - 1, e, d);
        lemma_covered_agree(to + 1, hi, e, d);
        lemma_covered_bounds(lo, from - 1, e);
        lemma_covered_bounds(to + 1, hi, e);
        let before = covered_between(lo, from - 1, e) as int;
        let behind = covered_between(to + 1, hi, e) as int;
        assert(covered_between(lo, hi, d) == before + behind);
        assert((before + behind) * p == before * p + behind * p) by (nonlinear_arith);
    }
}

/// Putting a range anywhere into a sequence adds its hits and its targets.
pub proof fn lemma_hits_insert(s: Seq<ScanRange>, at: int, r: ScanRange, e: Set<int>)
    requires
        0 <= at <= s.len(),
    ensures
        hits(s.insert(at, r), e) == hits(s, e) + range_hits(r, e),
    decreases s.len(),
{
    let t = s.insert(at, r);
    if at == s.len() {
        assert(t.drop_last() =~= s);
    } else {
        lemma_hits_insert(s.drop_last(), at, r, e);
        assert(t.drop_last() =~= s.drop_last().insert(at, r));
        assert(t.last() == s.last());
    }
}

/// Stable extension adds the hits of what comes in.
pub proof fn lemma_hits_stable_extend(s: Seq<ScanRange>, more: Seq<ScanRange>, e: Set<int>)
    ensures
        hits(stable_extend(s, more), e) == hits(s, e) + hits(more, e),
    decreases more.len(),
{
    if more.len() > 0 {
        let prev = stable_extend(s, more.drop_last());
        lemma_hits_stable_extend(s, more.drop_last(), e);
        lemma_insert_position(prev, more.last().addr_start);
        lemma_hits_insert(prev, insert_position(prev, more.last().addr_start), more.last(), e);
    }
}

/// After one exclusion the ranges hold the targets they held whose address
/// is not in `x`, each as often as before.
pub proof fn lemma_exclude_one_hits(s: Seq<ScanRange>, x: Ipv4Range, e: Set<int>)
    requires
        all_wf(s),
        x.wf(),
    ensures
        hits(exclude_one(s, x), e) == hits(s, e.difference(x.addrs())),
{
    lemma_hits_stable_extend(kept_parts(s, x), queued_parts(s, x), e);
    lemma_parts_sum(s, x, e);
}

proof fn lemma_parts_sum(s: Seq<ScanRange>, x: Ipv4Range, e: Set<int>)
    requires
        all_wf(s),
        x.wf(),
    ensures
        hits(kept_parts(s, x), e) + hits(queued_parts(s, x), e) == hits(
            s,
            e.difference(x.addrs()),
        ),
    decreases s.len(),
{
    if s.len() > 0 {
        let front = s.drop_last();
        assert(all_wf(front)) by {
            assert forall|i: int| 0 <= i < front.len() implies (#[trigger] front[i]).wf() by {
                assert(front[i] == s[i]);
            }
        }
        lemma_parts_sum(front, x, e);
        assert(s.last().wf());
        lemma_parts_hits(s.last(), x, e);
        match kept_part(s.last(), x) {
            Some(k) => {
                assert(kept_parts(s, x).drop_last() =~= kept_parts(front, x));
            },
            None => {},
        }
        match queued_part(s.last(), x) {
            Some(q) => {
                assert(queued_parts(s, x).drop_last() =~= queued_parts(front, x));
            },
            None => {},
        }
    }
}

/// Excluding ranges one after the other keeps the ranges well formed, and
/// keeps them in order where they were.
pub proof fn lemma_exclude_all_wf(s: Seq<ScanRange>, xs: Seq<Ipv4Range>)
    requires
        all_wf(s),
        crate::ranges::all_wf(xs),
    ensures
        all_wf(exclude_all(s, xs)),
        is_sorted(s) ==> is_sorted(exclude_all(s, xs)),
    decreases xs.len(),
{
    if xs.len() > 0 {
        let front = xs.drop_last();
        assert(crate::ranges::all_wf(front)) by {
            assert forall|i: int| 0 <= i < front.len() implies (#[trigger] front[i]).wf() by {
                assert(front[i] == xs[i]);
            }
        }
        lemma_exclude_all_wf(s, front);
        assert(xs.last().wf());
        let prev = exclude_all(s, front);
        crate::targets::lemma_parts_wf(prev, xs.last());
        crate::targets::lemma_stable_extend_all_wf(
            kept_parts(prev, xs.last()),
            queued_parts(prev, xs.last()),
        );
        if is_sorted(s) {
            lemma_exclude_one_wf(prev, xs.last());
        }
    }
}

/// After the exclusion of `xs` the ranges hold the targets they held whose
/// address no range of `xs` holds, each as often as before.
pub proof fn lemma_exclude_all_hits(s: Seq<ScanRange>, xs: Seq<Ipv4Range>, e: Set<int>)
    requires
        all_wf(s),
        crate::ranges::all_wf(xs),
    ensures
        hits(exclude_all(s, xs), e) == hits(s, e.difference(covered(xs))),
    decreases xs.len(),
{
    if xs.len() == 0 {
        assert(e.difference(covered(xs)) =~= e);
    } else {
        let front = xs.drop_last();
        let last = xs.last();
        assert(crate::ranges::all_wf(front)) by {
            assert forall|i: int| 0 <= i < front.len() implies (#[trigger] front[i]).wf() by {
                assert(front[i] == xs[i]);
            }
        }
        assert(last.wf());
        lemma_exclude_all_wf(s, front);
        lemma_exclude_one_hits(exclude_all(s, front), last, e);
        lemma_exclude_all_hits(s, front, e.difference(last.addrs()));
        assert(e.difference(last.addrs()).difference(covered(front)) =~= e.difference(
            covered(xs),
        )) by {
            assert forall|a: int| covers(xs, a) <==> covers(front, a) || last.spec_contains(a) by {
                if covers(xs, a) {
                    let i = choose|i: int| 0 <= i < xs.len() && (#[trigger] xs[i]).spec_contains(a);
                    if i < front.len() {
                        assert(front[i].spec_contains(a));
                    }
                }
                if covers(front, a) {
                    let i = choose|i: int|
                        0 <= i < front.len() && (#[trigger] front[i]).spec_contains(a);
                    assert(xs[i].spec_contains(a));
                }
                if last.spec_contains(a) {
                    assert(xs[xs.len() - 1].spec_contains(a));
                }
            }
        }
    }
}

/// Against the set of all addresses every target is a hit.
pub proof fn lemma_hits_full(s: Seq<ScanRange>)
    requires
        all_wf(s),
    ensures
        hits(s, Set::full()) == total(s),
    decreases s.len(),
{
    if s.len() > 0 {
        let front = s.drop_last();
        assert(all_wf(front)) by {
            assert forall|i: int| 0 <= i < front.len() implies (#[trigger] front[i]).wf() by {
                assert(front[i] == s[i]);
            }
        }
        lemma_hits_full(front);
        assert(s.last().wf());
        lemma_covered_bounds(s.last().addr_start as int, s.last().addr_end as int, Set::full());
    }
}

/// The hits against a set and against what is left of it without `c` are,
/// together, the hits against the set.
pub proof fn lemma_hits_difference(s: Seq<ScanRange>, e: Set<int>, c: Set<int>)
    ensures
        hits(s, e.difference(c)) + hits(s, e.intersect(c)) == hits(s, e),
    decreases s.len(),
{
    if s.len() > 0 {
        lemma_hits_difference(s.drop_last(), e, c);
        let r = s.last();
        let lo = r.addr_start as int;
        let hi = r.addr_end as int;
        let p = r.spec_count_ports() as int;
        lemma_covered_difference(lo, hi, e, c);
        let a = covered_between(lo, hi, e.difference(c)) as int;
        let b = covered_between(lo, hi, e.intersect(c)) as int;
        assert((a + b) * p == a * p + b * p) by (nonlinear_arith);
    }
}

/// Ranges without a hit against `e` hold no address of `e`.
pub proof fn lemma_no_hits(s: Seq<ScanRange>, e: Set<int>)
    requires
        all_wf(s),
        hits(s, e) == 0,
    ensures
        forall|i: int, a: int|
            0 <= i < s.len() && (#[trigger] s[i]).addr_start <= a <= s[i].addr_end
                ==> !#[trigger] e.contains(a),
    decreases s.len(),
{
    if s.len() > 0 {
        let front = s.drop_last();
        assert(all_wf(front)) by {
            assert forall|i: int| 0 <= i < front.len() implies (#[trigger] front[i]).wf() by {
                assert(front[i] == s[i]);
            }
        }
        lemma_no_hits(front, e);
        let r = s.last();
        assert(r.wf());
        let c = covered_between(r.addr_start as int, r.addr_end as int, e) as int;
        let p = r.spec_count_ports() as int;
        assert(c == 0) by (nonlinear_arith)
            requires
                c * p == 0,
                c >= 0,
                p >= 1,
        ;
        lemma_covered_bounds(r.addr_start as int, r.addr_end as int, e);
        assert forall|i: int, a: int|
            0 <= i < s.len() && (#[trigger] s[i]).addr_start <= a <= s[i].addr_end
                implies !#[trigger] e.contains(a) by {
            if i < front.len() {
                assert(front[i] == s[i]);
            }
        }
    }
}

/// What exclusion leaves and what it takes. After the ranges `xs` have been
/// excluded from `s`, no range holds an address that a range of `xs` holds,
/// and the targets that are left, together with the targets of `s` whose
/// address a range of `xs` holds, are as many as the targets of `s`.
pub proof fn lemma_exclusion(s: Seq<ScanRange>, xs: Seq<Ipv4Range>)
    requires
        all_wf(s),
        crate::ranges::all_wf(xs),
    ensures
        total(exclude_all(s, xs)) + hits(s, covered(xs)) == total(s),
        forall|i: int, a: int|
            0 <= i < exclude_all(s, xs).len() && (#[trigger] exclude_all(s, xs)[i]).addr_start <= a
                <= exclude_all(s, xs)[i].addr_end ==> !#[trigger] covers(xs, a),
{
    let after = exclude_all(s, xs);
    let gone = covered(xs);
    let full = Set::<int>::full();
    lemma_exclude_all_wf(s, xs);
    lemma_hits_full(after);
    lemma_hits_full(s);
    lemma_exclude_all_hits(s, xs, full);
    lemma_hits_difference(s, full, gone);
    assert(full.intersect(gone) =~= gone);
    lemma_exclude_all_hits(s, xs, gone);
    assert(gone.difference(gone) =~= Set::<int>::empty());
    lemma_hits_none(s);
    lemma_no_hits(after, gone);
    assert forall|i: int, a: int|
        0 <= i < after.len() && (#[trigger] after[i]).addr_start <= a <= after[i].addr_end
            implies !#[trigger] covers(xs, a) by {
        assert(!gone.contains(a));
    }
}

/// Against the empty set nothing is a hit.
pub proof fn lemma_hits_none(s: Seq<ScanRange>)
    ensures
        hits(s, Set::empty()) == 0,
    decreases s.len(),
{
    if s.len() > 0 {
        lemma_hits_none(s.drop_last());
        let r = s.last();
        lemma_covered_none(r.addr_start as int, r.addr_end as int);
    }
}

proof fn lemma_covered_none(lo: int, hi: int)
    ensures
        covered_between(lo, hi, Set::empty()) == 0,
    decreases hi - lo + 1,
{
    if lo <= hi {
        lemma_covered_none(lo, hi - 1);
    }
}

} // verus!
