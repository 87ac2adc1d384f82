use crate::edge::Edge;
use vstd::multiset::Multiset;
use vstd::prelude::*;
use vstd::seq_lib::{to_multiset_contains, to_multiset_insert, to_multiset_remove};

verus! {

/// The place of an entry's parent in the array that holds the heap.
spec fn parent(i: int) -> int {
    (i - 1) / 2
}

/// No entry is tried before its parent.
spec fn heap_ordered(s: Seq<Edge>) -> bool {
    forall|i: int| 0 < i < s.len() ==> !(#[trigger] s[i]).precedes(s[parent(i)])
}

/// The heap order holds everywhere but between `hole` and its parent, and the
/// children of `hole` are in order with the parent of `hole`.
spec fn ordered_above(s: Seq<Edge>, hole: int) -> bool {
    &&& forall|i: int| 0 < i < s.len() && i != hole ==> !(#[trigger] s[i]).precedes(s[parent(i)])
    &&& forall|i: int|
        0 < i < s.len() && parent(i) == hole && hole > 0 ==> !(#[trigger] s[i]).precedes(
            s[parent(hole)],
        )
}

/// The heap order holds everywhere but between `hole` and its children, and
/// the children of `hole` are in order with the parent of `hole`.
spec fn ordered_below(s: Seq<Edge>, hole: int) -> bool {
    &&& forall|i: int|
        0 < i < s.len() && parent(i) != hole ==> !(#[trigger] s[i]).precedes(s[parent(i)])
    &&& forall|i: int|
        0 < i < s.len() && parent(i) == hole && hole > 0 ==> !(#[trigger] s[i]).precedes(
            s[parent(hole)],
        )
}

/// In a heap-ordered array no entry is tried before the first one.
proof fn lemma_root_is_least(s: Seq<Edge>, i: int)
    requires
        heap_ordered(s),
        0 <= i < s.len(),
    ensures
        !s[i].precedes(s[0]),
    decreases i,
{
    if i > 0 {
        lemma_root_is_least(s, parent(i));
    }
}

/// Overwriting one place of a sequence takes the old entry out of its
/// contents and puts the new one in.
proof fn lemma_update_contents(s: Seq<Edge>, i: int, e: Edge)
    requires
        0 <= i < s.len(),
    ensures
        s.update(i, e).to_multiset() == s.to_multiset().remove(s[i]).insert(e),
{
    assert(s.update(i, e) =~= s.remove(i).insert(i, e));
    to_multiset_remove(s, i);
    to_multiset_insert(s.remove(i), i, e);
}

/// Exchanging two places of a sequence keeps its contents.
proof fn lemma_swap_contents(s: Seq<Edge>, i: int, j: int)
    requires
        0 <= i < s.len(),
        0 <= j < s.len(),
        i != j,
    ensures
        s.update(i, s[j]).update(j, s[i]).to_multiset() == s.to_multiset(),
{
    let mid = s.update(i, s[j]);
    lemma_update_contents(s, i, s[j]);
    lemma_update_contents(mid, j, s[i]);
    to_multiset_contains(s, s[i]);
    assert(s.contains(s[i]));
    assert(mid.update(j, s[i]).to_multiset() =~= s.to_multiset());
}

/// The min-priority queue of candidate edges: whatever was pushed comes out
/// again in the order of [`Edge::precedes`], lightest first.
#[derive(Debug)]
pub struct Frontier {
    entries: Vec<Edge>,
}

impl View for Frontier {
    type V = Multiset<Edge>;

    /// What waits in the queue, each entry as often as it was pushed and not
    /// yet popped.
    closed spec fn view(&self) -> Multiset<Edge> {
        self.entries@.to_multiset()
    }
}

impl Frontier {
    /// The entries are laid out as a binary heap.
    pub closed spec fn wf(&self) -> bool {
        heap_ordered(self.entries@)
    }

    /// Creates an empty queue.
    pub fn new() -> (queue: Frontier)
        ensures
            queue.wf(),
            queue@ == Multiset::<Edge>::empty(),
    {
        let queue = Frontier { entries: Vec::new() };
        assert(queue.entries@.to_multiset() =~= Multiset::<Edge>::empty()) by {
            queue.entries@.to_multiset_ensures();
        }
        queue
    }

    /// The number of entries that wait in the queue.
    pub fn len(&self) -> (count: usize)
        ensures
            count == self@.len(),
    {
        proof {
            self.entries@.to_multiset_ensures();
        }
        self.entries.len()
    }

    /// Whether nothing waits in the queue.
    pub fn is_empty(&self) -> (empty: bool)
        ensures
            empty == (self@.len() == 0),
    {
        proof {
            self.entries@.to_multiset_ensures();
        }
        self.entries.len() == 0
    }

    /// Adds a candidate to the queue.
    pub fn push(&mut self, edge: Edge)
        requires
            old(self).wf(),
        ensures
            final(self).wf(),
            final(self)@ == old(self)@.insert(edge),
    {
        proof {
            old(self).entries@.to_multiset_ensures();
        }
        self.entries.push(edge);
        let mut i: usize = self.entries.len() - 1;
        loop
            invariant
                i < self.entries@.len(),
                self.entries@.to_multiset() == old(self)@.insert(edge),
                ordered_above(self.entries@, i as int),
            ensures
                self.entries@.to_multiset() == old(self)@.insert(edge),
                heap_ordered(self.entries@),
            decreases i,
        {
            if i == 0 {
                break ;
            }
            let up: usize = (i - 1) / 2;
            let child = self.entries[i];
            let above = self.entries[up];
            if !child.is_before(&above) {
                break ;
            }
            proof {
                lemma_swap_contents(self.entries@, i as int, up as int);
            }
            self.entries.set(i, above);
            self.entries.set(up, child);
            i = up;
        }
    }

    /// Takes out the entry that is tried first: one that no other entry of
    /// the queue precedes. Returns `None` exactly when the queue is empty.
    pub fn pop(&mut self) -> (least: Option<Edge>)
        requires
            old(self).wf(),
        ensures
            final(self).wf(),
            match least {
                None => old(self)@.len() == 0 && final(self)@ == old(self)@,
                Some(edge) => {
                    &&& old(self)@.contains(edge)
                    &&& final(self)@ == old(self)@.remove(edge)
                    &&& forall|other: Edge| old(self)@.contains(other) ==> !other.precedes(edge)
                },
            },
    {
        let count = self.entries.len();
        proof {
            self.entries@.to_multiset_ensures();
        }
        if count == 0 {
            return None;
        }
        let least = self.entries[0];
        let ghost before = self.entries@;
        proof {
            assert forall|other: Edge| before.to_multiset().contains(other) implies !other.precedes(
                least,
            ) by {
                to_multiset_contains(before, other);
                let i = choose|i: int| 0 <= i < before.len() && before[i] == other;
                lemma_root_is_least(before, i);
            }
            to_multiset_contains(before, least);
            assert(before.contains(least));
        }
        let last = self.entries.pop().unwrap();
        if count == 1 {
            proof {
                to_multiset_remove(before, 0);
                assert(self.entries@ =~= before.remove(0));
            }
            return Some(least);
        }
        self.entries.set(0, last);
        proof {
            let moved = before.update(0, last);
            lemma_update_contents(before, 0, last);
            to_multiset_remove(moved, count - 1);
            assert(self.entries@ =~= moved.remove(count - 1));
            assert(self.entries@.to_multiset() =~= before.to_multiset().remove(least));
        }
        let len: usize = count - 1;
        let mut i: usize = 0;
        loop
            invariant
                len == self.entries@.len(),
                i < len,
                self.entries@.to_multiset() == old(self)@.remove(least),
                ordered_below(self.entries@, i as int),
            ensures
                self.entries@.to_multiset() == old(self)@.remove(least),
                heap_ordered(self.entries@),
            decreases len - i,
        {
            if len - 1 - i < i + 1 {
                break ;
            }
            let left: usize = 2 * i + 1;
            let mut small: usize = left;
            if left + 1 < len {
                let a = self.entries[left + 1];
                let b = self.entries[left];
                if a.is_before(&b) {
                    small = left + 1;
                }
            }
            let child = self.entries[small];
            let above = self.entries[i];
            if !child.is_before(&above) {
                break ;
            }
            proof {
                lemma_swap_contents(self.entries@, i as int, small as int);
            }
            self.entries.set(i, child);
            self.entries.set(small, above);
            i = small;
        }
        Some(least)
    }
}

} // verus!
