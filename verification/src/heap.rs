//! A binary max-heap of weighted items: the top is an item that no other
//! item of the heap outranks.

use crate::weighted::WeightedItem;
use vstd::multiset::Multiset;
use vstd::prelude::*;
use vstd::seq_lib::{to_multiset_contains, to_multiset_len, to_multiset_remove, to_multiset_update};

verus! {

/// The slot above slot `i` in the implicit binary tree.
spec fn parent(i: int) -> int {
    (i - 1) / 2
}

/// No slot outranks the slot above it.
spec fn heap_ordered<T>(s: Seq<WeightedItem<T>>) -> bool {
    forall|i: int| 0 < i < s.len() ==> !(#[trigger] s[i]).outranks(s[parent(i)])
}

/// The heap order holds everywhere but between slot `hole` and the slot above
/// it, and what lies directly below `hole` fits under the slot above `hole`.
spec fn ordered_but_above<T>(s: Seq<WeightedItem<T>>, hole: int) -> bool {
    &&& forall|i: int| 0 < i < s.len() && i != hole ==> !(#[trigger] s[i]).outranks(s[parent(i)])
    &&& forall|i: int|
        0 < i < s.len() && parent(i) == hole && hole > 0 ==> !(#[trigger] s[i]).outranks(
            s[parent(hole)],
        )
}

/// The heap order holds everywhere but between slot `hole` and the slots
/// directly below it, and those fit under the slot above `hole`.
spec fn ordered_but_below<T>(s: Seq<WeightedItem<T>>, hole: int) -> bool {
    &&& forall|i: int|
        0 < i < s.len() && parent(i) != hole ==> !(#[trigger] s[i]).outranks(s[parent(i)])
    &&& forall|i: int|
        0 < i < s.len() && parent(i) == hole && hole > 0 ==> !(#[trigger] s[i]).outranks(
            s[parent(hole)],
        )
}

/// `e` is in `bag`, and nothing in `bag` outranks it.
pub open spec fn is_greatest<T>(e: WeightedItem<T>, bag: Multiset<WeightedItem<T>>) -> bool {
    &&& bag.contains(e)
    &&& forall|x: WeightedItem<T>| bag.contains(x) ==> !x.outranks(e)
}

/// In a heap-ordered sequence no slot outranks the root.
proof fn lemma_root_is_greatest<T>(s: Seq<WeightedItem<T>>, i: int)
    requires
        heap_ordered(s),
        0 <= i < s.len(),
    ensures
        !s[i].outranks(s[0]),
    decreases i,
{
    if i > 0 {
        lemma_root_is_greatest(s, parent(i));
    }
}

/// Exchanging two slots keeps the bag of items.
proof fn lemma_swap_keeps_bag<A>(s: Seq<A>, i: int, j: int)
    requires
        0 <= i < s.len(),
        0 <= j < s.len(),
    ensures
        s.update(i, s[j]).update(j, s[i]).to_multiset() == s.to_multiset(),
{
    to_multiset_update(s, i, s[j]);
    to_multiset_update(s.update(i, s[j]), j, s[i]);
    to_multiset_contains(s, s[i]);
}

/// Exchanges slots `i` and `j` of `v`.
fn swap_slots<T>(v: &mut Vec<T>, i: usize, j: usize)
    requires
        i < j < old(v)@.len(),
    ensures
        final(v)@ == old(v)@.update(i as int, old(v)@[j as int]).update(
            j as int,
            old(v)@[i as int],
        ),
        final(v)@.to_multiset() == old(v)@.to_multiset(),
{
    let (left, right) = v.as_mut_slice().split_at_mut(j);
    core::mem::swap(&mut left[i], &mut right[0]);
    proof {
        lemma_swap_keeps_bag(old(v)@, i as int, j as int);
    }
}

/// A max-heap of weighted items.
///
/// Its view is the bag of items it holds; how they lie in memory is not part
/// of it.
pub struct MaxHeap<T> {
    slots: Vec<WeightedItem<T>>,
}

impl<T> View for MaxHeap<T> {
    type V = Multiset<WeightedItem<T>>;

    closed spec fn view(&self) -> Multiset<WeightedItem<T>> {
        self.slots@.to_multiset()
    }
}

impl<T> MaxHeap<T> {
    /// The slots are in heap order.
    pub closed spec fn wf(&self) -> bool {
        heap_ordered(self.slots@)
    }

    /// An empty heap.
    pub fn new() -> (heap: Self)
        ensures
            heap.wf(),
            heap@ == Multiset::<WeightedItem<T>>::empty(),
    {
        let heap = MaxHeap { slots: Vec::new() };
        assert(heap.slots@.to_multiset() =~= Multiset::<WeightedItem<T>>::empty()) by {
            to_multiset_len(heap.slots@);
        }
        heap
    }

    /// The number of items held.
    pub fn len(&self) -> (n: usize)
        ensures
            n == self@.len(),
    {
        proof {
            to_multiset_len(self.slots@);
        }
        self.slots.len()
    }

    /// An item that nothing in the heap outranks, if the heap holds any.
    pub fn peek(&self) -> (top: Option<&WeightedItem<T>>)
        requires
            self.wf(),
        ensures
            match top {
                Some(e) => is_greatest(*e, self@),
                None => self@.len() == 0,
            },
    {
        proof {
            to_multiset_len(self.slots@);
        }
        if self.slots.len() == 0 {
            None
        } else {
            proof {
                self.lemma_root_tops_bag();
            }
            Some(&self.slots[0])
        }
    }

    /// Adds `entry` to the heap.
    pub fn push(&mut self, entry: WeightedItem<T>)
        requires
            old(self).wf(),
        ensures
            final(self).wf(),
            final(self)@ == old(self)@.insert(entry),
    {
        proof {
            old(self).slots@.to_multiset_ensures();
        }
        self.slots.push(entry);
        let last: usize = self.slots.len() - 1;
        self.sift_up(last);
    }

    /// Takes out an item that nothing in the heap outranks, if the heap holds
    /// any.
    pub fn pop(&mut self) -> (top: Option<WeightedItem<T>>)
        requires
            old(self).wf(),
        ensures
            final(self).wf(),
            match top {
                Some(e) => is_greatest(e, old(self)@) && final(self)@ == old(self)@.remove(e),
                None => old(self)@.len() == 0 && final(self)@ == old(self)@,
            },
    {
        proof {
            to_multiset_len(self.slots@);
        }
        if self.slots.len() == 0 {
            return None;
        }
        proof {
            self.lemma_root_tops_bag();
        }
        let ghost before = self.slots@;
        let top = self.slots.swap_remove(0);
        proof {
            let moved = before.update(0, before.last());
            let end = before.len() - 1;
            assert(self.slots@ =~= moved.remove(end));
            to_multiset_update(before, 0, before.last());
            to_multiset_remove(moved, end);
            to_multiset_contains(before, before[0]);
            to_multiset_contains(before, before.last());
        }
        if self.slots.len() > 1 {
            self.sift_down();
        }
        Some(top)
    }

    /// The items of the heap, in no particular order.
    pub fn into_vec(self) -> (items: Vec<WeightedItem<T>>)
        ensures
            items@.to_multiset() == self@,
    {
        self.slots
    }

    /// The root is in the bag, and nothing in the bag outranks it.
    proof fn lemma_root_tops_bag(&self)
        requires
            heap_ordered(self.slots@),
            self.slots@.len() > 0,
        ensures
            is_greatest(self.slots@[0], self@),
    {
        let s = self.slots@;
        to_multiset_contains(s, s[0]);
        assert forall|x: WeightedItem<T>| s.to_multiset().contains(x) implies !x.outranks(
            s[0],
        ) by {
            to_multiset_contains(s, x);
            let i = choose|i: int| 0 <= i < s.len() && s[i] == x;
            lemma_root_is_greatest(s, i);
        }
    }

    /// Moves the item in slot `start` up until the slot above it ranks at
    /// least as high.
    fn sift_up(&mut self, start: usize)
        requires
            start < old(self).slots@.len(),
            ordered_but_above(old(self).slots@, start as int),
        ensures
            final(self).wf(),
            final(self)@ == old(self)@,
    {
        let mut pos: usize = start;
        while pos > 0 && self.slots[pos].ranks_above(&self.slots[(pos - 1) / 2])
            invariant
                pos < self.slots@.len(),
                ordered_but_above(self.slots@, pos as int),
                self.slots@.to_multiset() == old(self).slots@.to_multiset(),
            decreases pos,
        {
            let up: usize = (pos - 1) / 2;
            swap_slots(&mut self.slots, up, pos);
            pos = up;
        }
    }

    /// Moves the item in the root down until it ranks at least as high as
    /// both slots below it.
    fn sift_down(&mut self)
        requires
            old(self).slots@.len() > 0,
            ordered_but_below(old(self).slots@, 0),
        ensures
            final(self).wf(),
            final(self)@ == old(self)@,
    {
        let len: usize = self.slots.len();
        let mut pos: usize = 0;
        let mut settled = false;
        while !settled && pos < len / 2
            invariant
                len == self.slots@.len(),
                pos < len,
                settled ==> heap_ordered(self.slots@),
                !settled ==> ordered_but_below(self.slots@, pos as int),
                self.slots@.to_multiset() == old(self).slots@.to_multiset(),
            decreases len - pos, if settled { 0int } else { 1int },
        {
            let left: usize = 2 * pos + 1;
            let right: usize = left + 1;
            let mut child: usize = left;
            if right < len && self.slots[right].ranks_above(&self.slots[left]) {
                child = right;
            }
            if self.slots[child].ranks_above(&self.slots[pos]) {
                swap_slots(&mut self.slots, pos, child);
                pos = child;
            } else {
                settled = true;
            }
        }
    }
}

} // verus!
