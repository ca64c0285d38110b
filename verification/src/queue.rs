//! A min-priority queue of `(distance, node)` entries, kept as a binary heap.

use vstd::multiset::*;
use vstd::prelude::*;
use vstd::seq_lib::*;

verus! {

/// The order in which entries leave the queue: by distance, then by node.
pub open spec fn entry_le(a: (usize, usize), b: (usize, usize)) -> bool {
    a.0 < b.0 || (a.0 == b.0 && a.1 <= b.1)
}

/// Whether `a` leaves the queue strictly before `b`.
fn entry_lt(a: (usize, usize), b: (usize, usize)) -> (r: bool)
    ensures
        r == !entry_le(b, a),
{
    a.0 < b.0 || (a.0 == b.0 && a.1 < b.1)
}

/// The position above `i` in the heap.
spec fn parent(i: int) -> int {
    (i - 1) / 2
}

/// No entry leaves before the one above it.
spec fn heap_ordered(s: Seq<(usize, usize)>) -> bool {
    forall|i: int| 1 <= i < s.len() ==> entry_le(s[parent(i)], #[trigger] s[i])
}

/// The heap order holds but for the entry at `hole`, which may leave before the
/// one above it.
spec fn ordered_but_above(s: Seq<(usize, usize)>, hole: int) -> bool {
    &&& forall|i: int| 1 <= i < s.len() && i != hole ==> entry_le(s[parent(i)], #[trigger] s[i])
    &&& forall|i: int|
        1 <= i < s.len() && parent(i) == hole && hole >= 1 ==> entry_le(
            s[parent(hole)],
            #[trigger] s[i],
        )
}

/// The heap order holds but for the entry at `hole`, which may leave after the
/// ones below it.
spec fn ordered_but_below(s: Seq<(usize, usize)>, hole: int) -> bool {
    &&& forall|i: int|
        1 <= i < s.len() && parent(i) != hole ==> entry_le(s[parent(i)], #[trigger] s[i])
    &&& forall|i: int|
        1 <= i < s.len() && parent(i) == hole && hole >= 1 ==> entry_le(
            s[parent(hole)],
            #[trigger] s[i],
        )
}

/// In a heap, nothing leaves before the entry at the root.
proof fn lemma_root_is_least(s: Seq<(usize, usize)>, i: int)
    requires
        heap_ordered(s),
        0 <= i < s.len(),
    ensures
        entry_le(s[0], s[i]),
    decreases i,
{
    if i > 0 {
        lemma_root_is_least(s, parent(i));
    }
}

/// Exchanges the entries at `i` and `j`.
fn swap_entries(items: &mut Vec<(usize, usize)>, i: usize, j: usize)
    requires
        i < old(items).len(),
        j < old(items).len(),
        i != j,
    ensures
        final(items)@ == old(items)@.update(i as int, old(items)@[j as int]).update(
            j as int,
            old(items)@[i as int],
        ),
        final(items)@.to_multiset() == old(items)@.to_multiset(),
{
    let a = items[i];
    let b = items[j];
    proof {
        let s = items@;
        to_multiset_update(s, i as int, b);
        to_multiset_update(s.update(i as int, b), j as int, a);
        to_multiset_contains(s, a);
        to_multiset_contains(s, b);
        assert(s.contains(a));
        assert(s.contains(b));
        assert(s.to_multiset().insert(b).remove(a).insert(a).remove(b) =~= s.to_multiset());
    }
    items[i] = b;
    items[j] = a;
}

/// Moves the entry at `start` up until the one above it leaves no later.
fn sift_up(items: &mut Vec<(usize, usize)>, start: usize)
    requires
        start < old(items).len(),
        ordered_but_above(old(items)@, start as int),
    ensures
        heap_ordered(final(items)@),
        final(items)@.to_multiset() == old(items)@.to_multiset(),
{
    let mut i: usize = start;
    while i > 0
        invariant
            i < items.len(),
            ordered_but_above(items@, i as int),
            items@.to_multiset() == old(items)@.to_multiset(),
        ensures
            heap_ordered(items@),
            items@.to_multiset() == old(items)@.to_multiset(),
        decreases i,
    {
        let above: usize = (i - 1) / 2;
        if entry_lt(items[i], items[above]) {
            let ghost s = items@;
            swap_entries(items, i, above);
            proof {
                let t = items@;
                assert forall|k: int| 1 <= k < t.len() && k != above implies entry_le(
                    t[parent(k)],
                    #[trigger] t[k],
                ) by {
                    if k != i && parent(k) != i {
                        assert(entry_le(s[parent(k)], s[k]));
                    }
                    if parent(k) == i {
                        assert(entry_le(s[parent(i as int)], s[k]));
                    }
                }
                assert forall|k: int|
                    1 <= k < t.len() && parent(k) == above && above >= 1 implies entry_le(
                    t[parent(above as int)],
                    #[trigger] t[k],
                ) by {
                    assert(entry_le(s[parent(above as int)], s[above as int]));
                    if k != i {
                        assert(entry_le(s[parent(k)], s[k]));
                    }
                }
            }
            i = above;
        } else {
            break ;
        }
    }
}

/// Moves the entry at the root down until the ones below it leave no earlier.
fn sift_down(items: &mut Vec<(usize, usize)>)
    requires
        ordered_but_below(old(items)@, 0),
    ensures
        heap_ordered(final(items)@),
        final(items)@.to_multiset() == old(items)@.to_multiset(),
{
    let n = items.len();
    let mut i: usize = 0;
    while i < n / 2
        invariant
            n == items.len(),
            i < n || n == 0,
            ordered_but_below(items@, i as int),
            items@.to_multiset() == old(items)@.to_multiset(),
        ensures
            heap_ordered(items@),
            items@.to_multiset() == old(items)@.to_multiset(),
        decreases n - i,
    {
        let left: usize = 2 * i + 1;
        let right: usize = left + 1;
        let mut least: usize = left;
        if right < n && entry_lt(items[right], items[left]) {
            least = right;
        }
        if entry_lt(items[least], items[i]) {
            let ghost s = items@;
            swap_entries(items, i, least);
            proof {
                let t = items@;
                assert forall|k: int| 1 <= k < t.len() && parent(k) != least implies entry_le(
                    t[parent(k)],
                    #[trigger] t[k],
                ) by {
                    if k == i {
                        assert(entry_le(s[parent(i as int)], s[least as int]));
                    } else if parent(k) == i {
                    } else {
                        assert(entry_le(s[parent(k)], s[k]));
                    }
                }
                assert forall|k: int|
                    1 <= k < t.len() && parent(k) == least && least >= 1 implies entry_le(
                    t[parent(least as int)],
                    #[trigger] t[k],
                ) by {
                    assert(entry_le(s[parent(k)], s[k]));
                }
            }
            i = least;
        } else {
            proof {
                let s = items@;
                assert forall|k: int| 1 <= k < s.len() implies entry_le(
                    s[parent(k)],
                    #[trigger] s[k],
                ) by {}
            }
            break ;
        }
    }
}

/// A collection of `(distance, node)` entries that hands out its least entry first.
pub struct MinQueue {
    items: Vec<(usize, usize)>,
}

impl MinQueue {
    #[verifier::type_invariant]
    spec fn is_heap(self) -> bool {
        heap_ordered(self.items@)
    }

    /// The entries waiting in the queue, with multiplicity.
    pub closed spec fn view(&self) -> Multiset<(usize, usize)> {
        self.items@.to_multiset()
    }

    /// Creates an empty queue.
    pub fn new() -> (q: MinQueue)
        ensures
            q@ == Multiset::<(usize, usize)>::empty(),
    {
        let q = MinQueue { items: Vec::new() };
        proof {
            to_multiset_len(q.items@);
            lemma_multiset_empty_len(q.items@.to_multiset());
        }
        q
    }

    /// The number of waiting entries.
    pub fn len(&self) -> (n: usize)
        ensures
            n == self@.len(),
    {
        proof {
            to_multiset_len(self.items@);
        }
        self.items.len()
    }

    /// Adds an entry.
    pub fn push(&mut self, entry: (usize, usize))
        ensures
            final(self)@ == old(self)@.insert(entry),
    {
        proof {
            use_type_invariant(&*self);
            to_multiset_build(self.items@, entry);
        }
        let mut items: Vec<(usize, usize)> = Vec::new();
        core::mem::swap(&mut self.items, &mut items);
        items.push(entry);
        let last = items.len() - 1;
        sift_up(&mut items, last);
        self.items = items;
    }

    /// Removes and returns the least entry, or `None` when the queue is empty.
    pub fn pop(&mut self) -> (r: Option<(usize, usize)>)
        ensures
            match r {
                None => old(self)@.len() == 0 && final(self)@ == old(self)@,
                Some(e) => {
                    &&& old(self)@.contains(e)
                    &&& final(self)@ == old(self)@.remove(e)
                    &&& forall|o: (usize, usize)| old(self)@.contains(o) ==> entry_le(e, o)
                },
            },
    {
        proof {
            use_type_invariant(&*self);
            to_multiset_len(self.items@);
        }
        if self.items.len() == 0 {
            return None;
        }
        let mut items: Vec<(usize, usize)> = Vec::new();
        core::mem::swap(&mut self.items, &mut items);
        let ghost s = items@;
        let least = items.swap_remove(0);
        proof {
            let last = s[s.len() - 1];
            to_multiset_contains(s, least);
            to_multiset_contains(s, last);
            to_multiset_update(s, 0, last);
            to_multiset_remove(s.update(0, last), s.len() - 1);
            assert(s.update(0, last).remove(s.len() - 1) =~= items@);
            assert(items@.to_multiset() =~= s.to_multiset().remove(least));
            assert forall|o: (usize, usize)| s.to_multiset().contains(o) implies entry_le(
                least,
                o,
            ) by {
                to_multiset_contains(s, o);
                let j = choose|j: int| 0 <= j < s.len() && s[j] == o;
                lemma_root_is_least(s, j);
            }
            assert forall|i: int| 1 <= i < items@.len() && parent(i) != 0 implies entry_le(
                items@[parent(i)],
                #[trigger] items@[i],
            ) by {
                assert(entry_le(s[parent(i)], s[i]));
            }
        }
        sift_down(&mut items);
        self.items = items;
        Some(least)
    }
}

} // verus!
