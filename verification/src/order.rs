//! Sequences kept in order of a 32-bit key, and stable insertion into them.

use vstd::prelude::*;

verus! {

/// A value that is ordered by a 32-bit key.
pub trait Keyed: Sized {
    spec fn spec_sort_key(&self) -> u32;

    fn sort_key(&self) -> (k: u32)
        ensures
            k == self.spec_sort_key(),
    ;
}

/// No element has a smaller key than an element before it.
pub open spec fn is_sorted<T: Keyed>(s: Seq<T>) -> bool {
    forall|i: int, j: int| 0 <= i <= j < s.len() ==> s[i].spec_sort_key() <= s[j].spec_sort_key()
}

/// Where a new element with key `k` goes: directly behind the last element
/// whose key is not greater than `k`, or to the front if there is none.
pub open spec fn insert_position<T: Keyed>(s: Seq<T>, k: u32) -> int
    decreases s.len(),
{
    if s.len() == 0 || s.last().spec_sort_key() <= k {
        s.len() as int
    } else {
        insert_position(s.drop_last(), k)
    }
}

/// `s` with `item` put at its insert position.
pub open spec fn stable_insert<T: Keyed>(s: Seq<T>, item: T) -> Seq<T> {
    s.insert(insert_position(s, item.spec_sort_key()), item)
}

/// `s` with the elements of `more` inserted one by one, first to last: each
/// goes behind the elements that are there with a key of at most its own.
/// On a sorted `s` this is `s + more` in a stable sort by key.
pub open spec fn stable_extend<T: Keyed>(s: Seq<T>, more: Seq<T>) -> Seq<T>
    decreases more.len(),
{
    if more.len() == 0 {
        s
    } else {
        stable_insert(stable_extend(s, more.drop_last()), more.last())
    }
}

/// The insert position lies inside the sequence; in a sorted sequence every
/// element before it has a key of at most `k`, every element from it on a
/// greater one.
pub proof fn lemma_insert_position<T: Keyed>(s: Seq<T>, k: u32)
    ensures
        0 <= insert_position(s, k) <= s.len(),
        forall|i: int| insert_position(s, k) <= i < s.len() ==> s[i].spec_sort_key() > k,
        insert_position(s, k) > 0 ==> s[insert_position(s, k) - 1].spec_sort_key() <= k,
        is_sorted(s) ==> forall|i: int|
            0 <= i < insert_position(s, k) ==> s[i].spec_sort_key() <= k,
    decreases s.len(),
{
    if s.len() == 0 || s.last().spec_sort_key() <= k {
    } else {
        let front = s.drop_last();
        lemma_insert_position(front, k);
        assert forall|i: int| insert_position(s, k) <= i < s.len() implies s[i].spec_sort_key()
            > k by {
            if i < front.len() {
                assert(front[i] == s[i]);
            }
        }
        assert forall|i: int| 0 <= i < insert_position(s, k) implies #[trigger] s[i] == front[i] by {}
    }
}

/// Stable insertion keeps a sorted sequence sorted and makes it one longer.
pub proof fn lemma_stable_insert_sorted<T: Keyed>(s: Seq<T>, item: T)
    requires
        is_sorted(s),
    ensures
        is_sorted(stable_insert(s, item)),
        stable_insert(s, item).len() == s.len() + 1,
{
    lemma_insert_position(s, item.spec_sort_key());
}

/// Stable extension keeps a sorted sequence sorted and adds the length of
/// what came in.
pub proof fn lemma_stable_extend_sorted<T: Keyed>(s: Seq<T>, more: Seq<T>)
    requires
        is_sorted(s),
    ensures
        is_sorted(stable_extend(s, more)),
        stable_extend(s, more).len() == s.len() + more.len(),
    decreases more.len(),
{
    if more.len() > 0 {
        lemma_stable_extend_sorted(s, more.drop_last());
        lemma_stable_insert_sorted(stable_extend(s, more.drop_last()), more.last());
    }
}

/// Stable extension holds exactly the elements of both sequences.
pub proof fn lemma_stable_extend_multiset<T: Keyed>(s: Seq<T>, more: Seq<T>)
    ensures
        stable_extend(s, more).to_multiset() =~= s.to_multiset().add(more.to_multiset()),
    decreases more.len(),
{
    broadcast use vstd::seq_lib::group_to_multiset_ensures;

    if more.len() == 0 {
        assert(more.to_multiset() =~= vstd::multiset::Multiset::<T>::empty());
    } else {
        let prev = stable_extend(s, more.drop_last());
        lemma_stable_extend_multiset(s, more.drop_last());
        lemma_insert_position(prev, more.last().spec_sort_key());
        let at = insert_position(prev, more.last().spec_sort_key());
        let next = prev.insert(at, more.last());
        assert(next.remove(at) =~= prev);
        assert(next[at] == more.last());
        assert(more =~= more.drop_last().push(more.last()));
    }
}

/// The elements of `s` with key `k`, in their order.
pub open spec fn with_key<T: Keyed>(s: Seq<T>, k: u32) -> Seq<T>
    decreases s.len(),
{
    if s.len() == 0 {
        Seq::empty()
    } else if s.last().spec_sort_key() == k {
        with_key(s.drop_last(), k).push(s.last())
    } else {
        with_key(s.drop_last(), k)
    }
}

/// An element put before none of its own key comes last among the
/// elements of its key, and leaves the elements of every other key as they
/// were.
pub proof fn lemma_with_key_insert<T: Keyed>(s: Seq<T>, at: int, item: T, k: u32)
    requires
        0 <= at <= s.len(),
        forall|i: int| at <= i < s.len() ==> s[i].spec_sort_key() != item.spec_sort_key(),
    ensures
        with_key(s.insert(at, item), k) == if item.spec_sort_key() == k {
            with_key(s, k).push(item)
        } else {
            with_key(s, k)
        },
    decreases s.len(),
{
    let t = s.insert(at, item);
    if at == s.len() {
        assert(t.drop_last() =~= s);
    } else {
        let front = s.drop_last();
        assert forall|i: int| at <= i < front.len() implies front[i].spec_sort_key()
            != item.spec_sort_key() by {
            assert(front[i] == s[i]);
        }
        lemma_with_key_insert(front, at, item, k);
        assert(t.drop_last() =~= front.insert(at, item));
        assert(t.last() == s.last());
        assert(s[s.len() - 1].spec_sort_key() != item.spec_sort_key());
    }
}

/// Stable extension is stable: among the elements of one key, those that
/// were there come first, in their order, then those that came in, in
/// theirs.
pub proof fn lemma_stable_extend_keeps_order<T: Keyed>(s: Seq<T>, more: Seq<T>, k: u32)
    ensures
        with_key(stable_extend(s, more), k) == with_key(s, k) + with_key(more, k),
    decreases more.len(),
{
    if more.len() == 0 {
        assert(with_key(s, k) + with_key(more, k) =~= with_key(s, k));
    } else {
        let prev = stable_extend(s, more.drop_last());
        let item = more.last();
        lemma_stable_extend_keeps_order(s, more.drop_last(), k);
        lemma_insert_position(prev, item.spec_sort_key());
        lemma_with_key_insert(prev, insert_position(prev, item.spec_sort_key()), item, k);
        if item.spec_sort_key() == k {
            assert((with_key(s, k) + with_key(more.drop_last(), k)).push(item) =~= with_key(s, k)
                + with_key(more, k));
        }
    }
}

/// Puts `item` at its insert position.
pub fn insert_by_key<T: Keyed>(v: &mut Vec<T>, item: T)
    ensures
        final(v)@ == stable_insert(old(v)@, item),
{
    let key: u32 = item.sort_key();
    let mut at: usize = v.len();
    proof {
        assert(v@.take(at as int) =~= v@);
    }
    while at > 0 && v[at - 1].sort_key() > key
        invariant
            at <= v.len(),
            v@ == old(v)@,
            key == item.spec_sort_key(),
            insert_position(v@, key) == insert_position(v@.take(at as int), key),
        decreases at,
    {
        proof {
            assert(v@.take(at as int).drop_last() =~= v@.take(at as int - 1));
        }
        at -= 1;
    }
    proof {
        if at > 0 {
            assert(v@.take(at as int).last() == v@[at as int - 1]);
        }
    }
    v.insert(at, item);
}

/// Inserts every element of `more`, first to last.
pub fn extend_by_key<T: Keyed>(v: &mut Vec<T>, more: Vec<T>)
    ensures
        final(v)@ == stable_extend(old(v)@, more@),
{
    let ghost all = more@;
    for item in it: more
        invariant
            it.seq() == all,
            v@ == stable_extend(old(v)@, all.take(it.index() as int)),
    {
        proof {
            assert(all.take(it.index() + 1).drop_last() =~= all.take(it.index() as int));
        }
        insert_by_key(v, item);
    }
    proof {
        assert(all.take(all.len() as int) =~= all);
    }
}

} // verus!
