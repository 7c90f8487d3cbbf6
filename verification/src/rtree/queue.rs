//! The priority queue of a nearest neighbor search.

use crate::num::IndexableNum;
use vstd::multiset::Multiset;
use vstd::prelude::*;

verus! {

/// A node and its distance, for use in the priority queue.
#[derive(Clone, Copy)]
pub(crate) struct NeighborNode<D> {
    /// The insertion index of an item, or where in the boxes the children of any other node start.
    pub(crate) index: usize,
    /// Whether the node is an item.
    pub(crate) is_item: bool,
    /// The distance of the node.
    pub(crate) dist: D,
    /// The position of the node in the tree.
    pub(crate) pos: Ghost<int>,
}

impl<D: IndexableNum> NeighborNode<D> {
    /// Whether the node comes out of the queue no later than another: the nearer first, of equally
    /// near ones those that are not items, and then by index.
    pub(crate) open spec fn no_later(self, other: Self) -> bool {
        ||| self.dist.rank() < other.dist.rank()
        ||| {
            &&& self.dist.rank() == other.dist.rank()
            &&& if self.is_item == other.is_item {
                self.index <= other.index
            } else {
                other.is_item
            }
        }
    }

    /// Whether the node comes out of the queue before another.
    fn is_before(&self, other: &Self) -> (before: bool)
        ensures
            before == !other.no_later(*self),
    {
        if self.dist.is_less(other.dist) {
            true
        } else if other.dist.is_less(self.dist) {
            false
        } else if self.is_item == other.is_item {
            self.index < other.index
        } else {
            other.is_item
        }
    }
}

/// A priority queue of nodes, the nearest first. It is a binary heap: no node comes before the one
/// at half its place.
pub(crate) struct NeighborQueue<D> {
    nodes: Vec<NeighborNode<D>>,
}

impl<D> View for NeighborQueue<D> {
    type V = Multiset<NeighborNode<D>>;

    closed spec fn view(&self) -> Multiset<NeighborNode<D>> {
        self.nodes@.to_multiset()
    }
}

/// Whether node `i` of a heap does not come before the node above it.
spec fn heap_ordered_at<D: IndexableNum>(nodes: Seq<NeighborNode<D>>, i: int) -> bool {
    i > 0 ==> nodes[(i - 1) / 2].no_later(nodes[i])
}

/// Whether no node comes before the node above it.
spec fn heap_ordered<D: IndexableNum>(nodes: Seq<NeighborNode<D>>) -> bool {
    forall|i: int| 0 <= i < nodes.len() ==> #[trigger] heap_ordered_at(nodes, i)
}

/// No node of a heap comes before the first.
proof fn lemma_first_is_nearest<D: IndexableNum>(nodes: Seq<NeighborNode<D>>, i: int)
    requires
        heap_ordered(nodes),
        0 <= i < nodes.len(),
    ensures
        nodes[0].no_later(nodes[i]),
    decreases i,
{
    if i > 0 {
        assert(heap_ordered_at(nodes, i));
        lemma_first_is_nearest(nodes, (i - 1) / 2);
    }
}

/// `nodes` with two places exchanged.
spec fn exchanged<D>(nodes: Seq<NeighborNode<D>>, i: int, j: int) -> Seq<NeighborNode<D>> {
    nodes.update(i, nodes[j]).update(j, nodes[i])
}

/// An exchange keeps the nodes.
proof fn lemma_exchanged<D>(nodes: Seq<NeighborNode<D>>, i: int, j: int)
    requires
        0 <= i < nodes.len(),
        0 <= j < nodes.len(),
    ensures
        exchanged(nodes, i, j).to_multiset() == nodes.to_multiset(),
{
    broadcast use vstd::seq_lib::group_to_multiset_ensures;

    let half = nodes.update(i, nodes[j]);
    vstd::seq_lib::to_multiset_update(nodes, i, nodes[j]);
    vstd::seq_lib::to_multiset_update(half, j, nodes[i]);
    assert(nodes.contains(nodes[i]));
    assert(nodes.to_multiset().count(nodes[i]) > 0);
    if i != j {
        assert(half.contains(half[j]));
    }
    assert(exchanged(nodes, i, j).to_multiset() =~= nodes.to_multiset());
}

impl<D: IndexableNum> NeighborQueue<D> {
    /// Whether the heap is in order.
    pub(crate) closed spec fn wf(self) -> bool {
        heap_ordered(self.nodes@)
    }

    /// The node that is taken next, or None where the queue is empty.
    pub(crate) closed spec fn first(self) -> Option<NeighborNode<D>> {
        if self.nodes@.len() == 0 {
            None
        } else {
            Some(self.nodes@[0])
        }
    }

    /// An empty queue.
    pub(crate) fn new() -> (queue: Self)
        ensures
            queue.wf(),
            queue@ == Multiset::<NeighborNode<D>>::empty(),
    {
        let queue = NeighborQueue { nodes: Vec::new() };
        assert(queue@ =~= Multiset::<NeighborNode<D>>::empty()) by {
            broadcast use vstd::seq_lib::group_to_multiset_ensures;

        }
        queue
    }

    /// Exchanges two places of the heap.
    fn exchange(&mut self, i: usize, j: usize)
        requires
            i < old(self).nodes@.len(),
            j < old(self).nodes@.len(),
        ensures
            final(self).nodes@ == exchanged(old(self).nodes@, i as int, j as int),
            final(self)@ == old(self)@,
    {
        proof {
            lemma_exchanged(self.nodes@, i as int, j as int);
        }
        let a = self.nodes[i];
        let b = self.nodes[j];
        self.nodes[i] = b;
        self.nodes[j] = a;
    }

    /// Adds a node.
    pub(crate) fn push(&mut self, node: NeighborNode<D>)
        requires
            old(self).wf(),
        ensures
            final(self).wf(),
            final(self)@ == old(self)@.insert(node),
    {
        let ghost nodes0 = self.nodes@;
        let mut i: usize = self.nodes.len();
        self.nodes.push(node);
        proof {
            vstd::seq_lib::to_multiset_build(nodes0, node);
            assert forall|j: int| 0 <= j < self.nodes@.len() && j != i implies
                #[trigger] heap_ordered_at(self.nodes@, j) by {
                assert(heap_ordered_at(nodes0, j));
            }
        }
        while i > 0
            invariant
                i < self.nodes@.len(),
                self@ == old(self)@.insert(node),
                forall|j: int|
                    0 <= j < self.nodes@.len() && j != i ==> #[trigger] heap_ordered_at(
                        self.nodes@,
                        j,
                    ),
                forall|j: int|
                    0 < j < self.nodes@.len() && (j - 1) / 2 == i && i > 0
                        ==> self.nodes@[(i - 1) / 2].no_later(#[trigger] self.nodes@[j]),
            ensures
                self@ == old(self)@.insert(node),
                heap_ordered(self.nodes@),
            decreases i,
        {
            let parent: usize = (i - 1) / 2;
            if !self.nodes[i].is_before(&self.nodes[parent]) {
                assert(heap_ordered_at(self.nodes@, i as int));
                break;
            }
            let ghost before = self.nodes@;
            self.exchange(i, parent);
            proof {
                let after = self.nodes@;
                assert forall|j: int| 0 <= j < after.len() && j != parent implies
                    #[trigger] heap_ordered_at(after, j) by {
                    if j > 0 && j != i {
                        assert(heap_ordered_at(before, j));
                        if (j - 1) / 2 == i {
                            assert(before[parent as int].no_later(before[j]));
                        }
                    }
                }
                assert forall|j: int|
                    0 < j < after.len() && (j - 1) / 2 == parent && parent > 0 implies after[(
                parent - 1) / 2].no_later(#[trigger] after[j]) by {
                    assert(heap_ordered_at(before, parent as int));
                    if j != i {
                        assert(heap_ordered_at(before, j));
                    }
                }
            }
            i = parent;
        }
    }

    /// A nearest node, or None where the queue is empty.
    pub(crate) fn peek(&self) -> (nearest: Option<NeighborNode<D>>)
        requires
            self.wf(),
        ensures
            nearest == self.first(),
            match nearest {
                Some(node) => {
                    &&& self@.contains(node)
                    &&& forall|other: NeighborNode<D>| #[trigger]
                        self@.contains(other) ==> node.no_later(other)
                },
                None => self@ == Multiset::<NeighborNode<D>>::empty(),
            },
    {
        proof {
            self.lemma_nearest();
        }
        if self.nodes.len() == 0 {
            None
        } else {
            Some(self.nodes[0])
        }
    }

    /// What the first place of the heap holds.
    proof fn lemma_nearest(&self)
        requires
            self.wf(),
        ensures
            self.nodes@.len() == 0 ==> self@ == Multiset::<NeighborNode<D>>::empty(),
            self.nodes@.len() > 0 ==> {
                &&& self@.contains(self.nodes@[0])
                &&& forall|other: NeighborNode<D>| #[trigger]
                    self@.contains(other) ==> self.nodes@[0].no_later(other)
            },
    {
        broadcast use vstd::seq_lib::group_to_multiset_ensures;

        let nodes = self.nodes@;
        if nodes.len() == 0 {
            assert(self@ =~= Multiset::<NeighborNode<D>>::empty());
        } else {
            assert(nodes.contains(nodes[0]));
            assert forall|other: NeighborNode<D>| #[trigger] self@.contains(other) implies
                nodes[0].no_later(other) by {
                assert(nodes.contains(other));
                let i = choose|i: int| 0 <= i < nodes.len() && nodes[i] == other;
                lemma_first_is_nearest(nodes, i);
            }
        }
    }

    /// Removes a nearest node and returns it, or None where the queue is empty.
    pub(crate) fn pop(&mut self) -> (nearest: Option<NeighborNode<D>>)
        requires
            old(self).wf(),
        ensures
            final(self).wf(),
            nearest == old(self).first(),
            match nearest {
                Some(node) => {
                    &&& old(self)@.contains(node)
                    &&& forall|other: NeighborNode<D>| #[trigger]
                        old(self)@.contains(other) ==> node.no_later(other)
                    &&& final(self)@ == old(self)@.remove(node)
                },
                None => {
                    &&& old(self)@ == Multiset::<NeighborNode<D>>::empty()
                    &&& final(self)@ == old(self)@
                },
            },
    {
        proof {
            self.lemma_nearest();
        }
        let len = self.nodes.len();
        if len == 0 {
            return None;
        }
        let ghost nodes0 = self.nodes@;
        let last: usize = len - 1;
        self.exchange(0, last);
        let ghost swapped = self.nodes@;
        let node = self.nodes[last];
        self.nodes.pop();
        proof {
            vstd::seq_lib::to_multiset_remove(swapped, last as int);
            assert(swapped.remove(last as int) =~= self.nodes@);
            assert forall|j: int| 0 <= j < self.nodes@.len() && (j - 1) / 2 != 0 implies
                #[trigger] heap_ordered_at(self.nodes@, j) by {
                assert(heap_ordered_at(nodes0, j));
            }
        }
        let mut i: usize = 0;
        while i < last / 2
            invariant
                i < last || last == 0,
                self.nodes@.len() == last,
                self@ == old(self)@.remove(node),
                forall|j: int|
                    0 <= j < self.nodes@.len() && (j == 0 || (j - 1) / 2 != i)
                        ==> #[trigger] heap_ordered_at(self.nodes@, j),
                forall|j: int|
                    0 < j < self.nodes@.len() && (j - 1) / 2 == i && i > 0
                        ==> self.nodes@[(i - 1) / 2].no_later(#[trigger] self.nodes@[j]),
            ensures
                self@ == old(self)@.remove(node),
                heap_ordered(self.nodes@),
            decreases last - i,
        {
            let mut child: usize = 2 * i + 1;
            if child + 1 < last && self.nodes[child + 1].is_before(&self.nodes[child]) {
                child = child + 1;
            }
            if !self.nodes[child].is_before(&self.nodes[i]) {
                proof {
                    assert forall|j: int| 0 <= j < self.nodes@.len() implies
                        #[trigger] heap_ordered_at(self.nodes@, j) by {
                        if j > 0 && (j - 1) / 2 == i {
                            assert(j == 2 * i + 1 || j == 2 * i + 2);
                        }
                    }
                }
                break;
            }
            let ghost before = self.nodes@;
            self.exchange(i, child);
            proof {
                let after = self.nodes@;
                assert forall|j: int|
                    0 <= j < after.len() && (j == 0 || (j - 1) / 2 != child) implies
                    #[trigger] heap_ordered_at(after, j) by {
                    if j > 0 {
                        if (j - 1) / 2 == i {
                            assert(j == 2 * i + 1 || j == 2 * i + 2);
                        } else if j == i {
                            assert(after[j] == before[child as int]);
                            assert((child - 1) / 2 == i);
                        } else {
                            assert(heap_ordered_at(before, j));
                        }
                    }
                }
                assert forall|j: int|
                    0 < j < after.len() && (j - 1) / 2 == child && child > 0 implies after[(child
                    - 1) / 2].no_later(#[trigger] after[j]) by {
                    assert(heap_ordered_at(before, j));
                    assert((child - 1) / 2 == i);
                }
            }
            i = child;
        }
        Some(node)
    }
}

} // verus!
