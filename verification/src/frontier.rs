//! The pending work of the searches: a queue of `(priority, vertex)` entries
//! that hands out the entry of least priority, and among entries of equal
//! priority the one with the greatest vertex. The entries are kept in a
//! binary heap.

use vstd::multiset::Multiset;
use vstd::prelude::*;

verus! {

broadcast use vstd::seq_lib::group_to_multiset_ensures;

/// A vertex waiting to be expanded, with the priority it was queued under.
#[derive(Clone, Copy, Debug, PartialEq, Eq, Structural)]
pub struct Entry {
    pub priority: i64,
    pub vertex: usize,
}

/// `a` leaves the queue before `b`.
pub open spec fn precedes(a: Entry, b: Entry) -> bool {
    a.priority < b.priority || (a.priority == b.priority && a.vertex > b.vertex)
}

/// `e` is an entry of `m` that no other entry precedes.
pub open spec fn is_least(m: Multiset<Entry>, e: Entry) -> bool {
    m.contains(e) && forall|o: Entry| m.contains(o) ==> !precedes(o, e)
}

/// The entry that leaves next.
pub open spec fn least(m: Multiset<Entry>) -> Entry {
    choose|e: Entry| is_least(m, e)
}

/// Only one entry can be the least.
pub proof fn lemma_least_unique(m: Multiset<Entry>, e: Entry)
    requires
        is_least(m, e),
    ensures
        least(m) == e,
{
    let other = least(m);
    assert(is_least(m, other));
    assert(!precedes(e, other) && !precedes(other, e));
}

/// What queuing an entry does to the entries that wait.
pub proof fn lemma_queue_insert(m: Multiset<Entry>, e: Entry)
    ensures
        m.insert(e).len() == m.len() + 1,
        m.insert(e).contains(e),
        forall|o: Entry| #[trigger] m.insert(e).contains(o) <==> (o == e || m.contains(o)),
{
    broadcast use vstd::multiset::group_multiset_properties;

    assert forall|o: Entry| #[trigger] m.insert(e).contains(o) <==> (o == e || m.contains(
        o,
    )) by {
        if o != e {
            assert(m.insert(e).count(o) == m.count(o));
        }
    }
}

/// What taking an entry out does to the entries that wait.
pub proof fn lemma_queue_remove(m: Multiset<Entry>, e: Entry)
    requires
        m.contains(e),
    ensures
        m.remove(e).len() == m.len() - 1,
        forall|o: Entry| #[trigger] m.remove(e).contains(o) ==> m.contains(o),
        forall|o: Entry| #[trigger] m.contains(o) && o != e ==> m.remove(e).contains(o),
{
    broadcast use vstd::multiset::group_multiset_properties;

}

/// A queue has no entries exactly if nothing waits in it.
pub proof fn lemma_queue_empty(m: Multiset<Entry>)
    ensures
        m.len() == 0 <==> (forall|o: Entry| !#[trigger] m.contains(o)),
        Multiset::<Entry>::empty().len() == 0,
{
    broadcast use vstd::multiset::group_multiset_properties;

    if m.len() == 0 {
        assert(m =~= Multiset::<Entry>::empty());
    }
    if forall|o: Entry| !#[trigger] m.contains(o) {
        assert forall|o: Entry| m.count(o) == 0 by {
            assert(!m.contains(o));
        }
        assert(m =~= Multiset::<Entry>::empty());
    }
}

/// The position above `i` in the heap.
pub open spec fn parent(i: int) -> int {
    (i - 1) / 2
}

/// No entry precedes the entry above it, but perhaps the entry at `gap`.
pub open spec fn ordered_but(s: Seq<Entry>, gap: int) -> bool {
    forall|i: int| 0 < i < s.len() && i != gap ==> !precedes(#[trigger] s[i], s[parent(i)])
}

/// No entry below `gap` precedes the entry above `gap`.
pub open spec fn bridged(s: Seq<Entry>, gap: int) -> bool {
    forall|i: int|
        0 < i < s.len() && parent(i) == gap && gap > 0 ==> !precedes(
            #[trigger] s[i],
            s[parent(gap)],
        )
}

/// Every entry below `gap` may be preceded by the entry above it, but no
/// other entry is.
pub open spec fn ordered_under(s: Seq<Entry>, gap: int) -> bool {
    forall|i: int|
        0 < i < s.len() && parent(i) != gap ==> !precedes(#[trigger] s[i], s[parent(i)])
}

/// No entry precedes the entry above it.
pub open spec fn heap_ordered(s: Seq<Entry>) -> bool {
    ordered_but(s, 0)
}

/// In a heap, nothing precedes the entry at the top.
pub proof fn lemma_top_is_least(s: Seq<Entry>, i: int)
    requires
        heap_ordered(s),
        0 <= i < s.len(),
    ensures
        !precedes(s[i], s[0]),
    decreases i,
{
    if i > 0 {
        lemma_top_is_least(s, parent(i));
        assert(!precedes(s[i], s[parent(i)]));
    }
}

/// The entry at the top of a heap is the least of its entries.
pub proof fn lemma_heap_least(s: Seq<Entry>)
    requires
        heap_ordered(s),
        s.len() > 0,
    ensures
        least(s.to_multiset()) == s[0],
        is_least(s.to_multiset(), s[0]),
{
    let m = s.to_multiset();
    assert(s.contains(s[0]));
    assert forall|o: Entry| m.contains(o) implies !precedes(o, s[0]) by {
        assert(s.contains(o));
        let i = choose|i: int| 0 <= i < s.len() && s[i] == o;
        lemma_top_is_least(s, i);
    }
    lemma_least_unique(m, s[0]);
}

/// Exchanging two entries leaves the same entries.
pub proof fn lemma_swap_entries(s: Seq<Entry>, i: int, j: int)
    requires
        0 <= i < s.len(),
        0 <= j < s.len(),
    ensures
        s.update(i, s[j]).update(j, s[i]).to_multiset() == s.to_multiset(),
{
    let mid = s.update(i, s[j]);
    assert(mid.to_multiset() == s.to_multiset().insert(s[j]).remove(s[i]));
    assert(mid.update(j, s[i]).to_multiset() == mid.to_multiset().insert(s[i]).remove(mid[j]));
    assert(s.contains(s[i]) && s.contains(s[j]));
    assert(s.update(i, s[j]).update(j, s[i]).to_multiset() =~= s.to_multiset());
}

/// A queue of entries, held as a binary heap, and seen by its contracts as
/// the multiset of the entries that wait.
pub struct PriorityQueue {
    pub entries: Vec<Entry>,
}

impl View for PriorityQueue {
    type V = Multiset<Entry>;

    open spec fn view(&self) -> Multiset<Entry> {
        self.entries@.to_multiset()
    }
}

impl PriorityQueue {
    /// The invariant of the queue: its entries are in heap order.
    pub open spec fn wf(&self) -> bool {
        heap_ordered(self.entries@)
    }

    /// A queue in which nothing waits.
    pub fn new() -> (q: Self)
        ensures
            q.wf(),
            q@ == Multiset::<Entry>::empty(),
    {
        let q = Self { entries: Vec::new() };
        assert(q.entries@.to_multiset() =~= Multiset::<Entry>::empty()) by {
            assert(q.entries@.to_multiset().len() == 0);
        }
        q
    }

    /// Whether nothing waits.
    pub fn is_empty(&self) -> (empty: bool)
        ensures
            empty == (self@.len() == 0),
    {
        self.entries.len() == 0
    }

    /// The number of entries that wait.
    pub fn len(&self) -> (n: usize)
        ensures
            n == self@.len(),
    {
        self.entries.len()
    }

    /// Whether the entry at `i` goes before the entry at `j`.
    fn goes_before(&self, i: usize, j: usize) -> (before: bool)
        requires
            i < self.entries@.len(),
            j < self.entries@.len(),
        ensures
            before == precedes(self.entries@[i as int], self.entries@[j as int]),
    {
        let a = self.entries[i];
        let b = self.entries[j];
        a.priority < b.priority || (a.priority == b.priority && a.vertex > b.vertex)
    }

    /// Exchanges the entries at `i` and `j`.
    fn exchange(&mut self, i: usize, j: usize)
        requires
            i < old(self).entries@.len(),
            j < old(self).entries@.len(),
        ensures
            final(self).entries@ == old(self).entries@.update(
                i as int,
                old(self).entries@[j as int],
            ).update(j as int, old(self).entries@[i as int]),
            final(self)@ == old(self)@,
    {
        proof {
            lemma_swap_entries(self.entries@, i as int, j as int);
        }
        let a = self.entries[i];
        let b = self.entries[j];
        self.entries[i] = b;
        self.entries[j] = a;
    }

    /// Queues `vertex` under `priority`.
    pub fn push(&mut self, priority: i64, vertex: usize)
        requires
            old(self).wf(),
        ensures
            final(self).wf(),
            final(self)@ == old(self)@.insert(Entry { priority, vertex }),
    {
        self.entries.push(Entry { priority, vertex });
        let mut i: usize = self.entries.len() - 1;
        while i > 0 && self.goes_before(i, (i - 1) / 2)
            invariant
                i < self.entries@.len(),
                self@ == old(self)@.insert(Entry { priority, vertex }),
                ordered_but(self.entries@, i as int),
                bridged(self.entries@, i as int),
            decreases i,
        {
            let up: usize = (i - 1) / 2;
            let ghost before = self.entries@;
            self.exchange(i, up);
            proof {
                let after = self.entries@;
                assert forall|j: int| 0 < j < after.len() && j != up implies !precedes(
                    #[trigger] after[j],
                    after[parent(j)],
                ) by {
                    if j == i {
                    } else if parent(j) == i {
                        assert(!precedes(before[j], before[parent(i as int)]));
                    } else if parent(j) == up {
                        assert(!precedes(before[j], before[up as int]));
                    } else {
                        assert(!precedes(before[j], before[parent(j)]));
                    }
                }
                assert forall|j: int|
                    0 < j < after.len() && parent(j) == up && up > 0 implies !precedes(
                    #[trigger] after[j],
                    after[parent(up as int)],
                ) by {
                    assert(!precedes(before[up as int], before[parent(up as int)]));
                    if j != i {
                        assert(!precedes(before[j], before[up as int]));
                    }
                }
            }
            i = up;
        }
        proof {
            let s = self.entries@;
            assert forall|j: int| 0 < j < s.len() && j != 0 implies !precedes(
                #[trigger] s[j],
                s[parent(j)],
            ) by {
            }
        }
    }

    /// Takes out the entry that no other precedes; `None` when nothing waits.
    pub fn pop(&mut self) -> (e: Option<Entry>)
        requires
            old(self).wf(),
        ensures
            final(self).wf(),
            old(self)@.len() == 0 ==> e is None && final(self)@ == old(self)@,
            old(self)@.len() > 0 ==> e == Some(least(old(self)@)) && is_least(
                old(self)@,
                least(old(self)@),
            ) && final(self)@ == old(self)@.remove(least(old(self)@)),
    {
        if self.entries.len() == 0 {
            return None;
        }
        let ghost full = self.entries@;
        proof {
            lemma_heap_least(full);
        }
        let top = self.entries.swap_remove(0);
        proof {
            let moved = full.update(0, full.last());
            assert(self.entries@ == moved.drop_last());
            assert(moved.drop_last() =~= moved.remove(moved.len() - 1));
            assert(moved.to_multiset() == full.to_multiset().insert(full.last()).remove(full[0]));
            assert(full.contains(full.last()));
            assert(self.entries@.to_multiset() =~= full.to_multiset().remove(full[0]));
            let s = self.entries@;
            assert forall|j: int| 0 < j < s.len() && parent(j) != 0 implies !precedes(
                #[trigger] s[j],
                s[parent(j)],
            ) by {
                assert(!precedes(full[j], full[parent(j)]));
            }
        }
        let n: usize = self.entries.len();
        let mut i: usize = 0;
        while i < n / 2
            invariant
                n == self.entries@.len(),
                i <= n,
                full == old(self).entries@,
                full.len() > 0,
                top == full[0],
                least(full.to_multiset()) == full[0],
                is_least(full.to_multiset(), full[0]),
                self@ == full.to_multiset().remove(full[0]),
                ordered_under(self.entries@, i as int),
                bridged(self.entries@, i as int),
            decreases n - i,
        {
            let left: usize = 2 * i + 1;
            let right: usize = left + 1;
            let mut first: usize = left;
            if right < n && self.goes_before(right, left) {
                first = right;
            }
            if !self.goes_before(first, i) {
                proof {
                    let s = self.entries@;
                    assert forall|j: int| 0 < j < s.len() implies !precedes(
                        #[trigger] s[j],
                        s[parent(j)],
                    ) by {
                        if parent(j) == i {
                            assert(j == left || j == right);
                        }
                    }
                }
                return Some(top);
            }
            let ghost before = self.entries@;
            self.exchange(i, first);
            proof {
                let after = self.entries@;
                assert forall|j: int| 0 < j < after.len() && parent(j) != first implies !precedes(
                    #[trigger] after[j],
                    after[parent(j)],
                ) by {
                    if j == first {
                    } else if parent(j) == i {
                        assert(j == left || j == right);
                    } else if j == i {
                        assert(!precedes(before[first as int], before[parent(i as int)]));
                    } else {
                        assert(!precedes(before[j], before[parent(j)]));
                    }
                }
                assert forall|j: int|
                    0 < j < after.len() && parent(j) == first && first > 0 implies !precedes(
                    #[trigger] after[j],
                    after[parent(first as int)],
                ) by {
                    assert(!precedes(before[j], before[first as int]));
                }
            }
            i = first;
        }
        proof {
            let s = self.entries@;
            assert forall|j: int| 0 < j < s.len() implies !precedes(
                #[trigger] s[j],
                s[parent(j)],
            ) by {
            }
        }
        Some(top)
    }
}

} // verus!
