//! Which objects of two trees intersect.

use crate::num::IndexableNum;
use crate::rtree::index::{search_stored, RTreeIndex};
use crate::rtree::layout::TreeView;
use crate::rtree::search::{lemma_positions, positions, Rect};
use vstd::prelude::*;

verus! {

impl<N: IndexableNum> TreeView<N> {
    /// The box of node `p` as a query.
    pub open spec fn rect(self, p: int) -> Rect<N> {
        Rect {
            min_x: self.boxes[4 * p],
            min_y: self.boxes[4 * p + 1],
            max_x: self.boxes[4 * p + 2],
            max_y: self.boxes[4 * p + 3],
        }
    }

    /// The items of another tree that a search for the box of item `p` finds, each with the
    /// insertion index of item `p` before it.
    pub open spec fn pairs_at(self, other: TreeView<N>, p: int) -> Seq<(u32, u32)> {
        let found = other.items_reached(self.rect(p));
        Seq::new(found.len(), |i: int| (self.indices[p] as u32, found[i]))
    }

    /// The pairs of the items before `p`.
    pub open spec fn pairs_before(self, other: TreeView<N>, p: int) -> Seq<(u32, u32)>
        decreases p,
    {
        if p <= 0 {
            Seq::empty()
        } else {
            self.pairs_before(other, p - 1) + self.pairs_at(other, p - 1)
        }
    }

    /// Whether the boxes of item `p` of this tree and item `q` of another have a point in common,
    /// and the items have the given insertion indices.
    pub open spec fn is_pair(self, other: TreeView<N>, p: int, q: int, pair: (u32, u32)) -> bool {
        &&& 0 <= p < self.num_items
        &&& 0 <= q < other.num_items
        &&& other.meets(self.rect(p), q)
        &&& pair == (self.indices[p] as u32, other.indices[q] as u32)
    }

    /// Boxes meet each other or not at all.
    pub proof fn lemma_meets_both_ways(self, other: TreeView<N>, p: int, q: int)
        ensures
            other.meets(self.rect(p), q) == self.meets(other.rect(q), p),
    {
    }

    /// The pairs of the items before `end` are those whose boxes have a point in common, where the
    /// nodes of the other tree enclose their children.
    proof fn lemma_pairs_before(self, other: TreeView<N>, end: int, pair: (u32, u32))
        requires
            other.is_packed(),
            other.boxes.len() > 0,
            other.encloses(),
            0 <= end <= self.num_items,
        ensures
            self.pairs_before(other, end).contains(pair) <==> exists|p: int, q: int|
                p < end && #[trigger] self.is_pair(other, p, q, pair),
        decreases end,
    {
        if end > 0 {
            let p = end - 1;
            let query = self.rect(p);
            let before = self.pairs_before(other, p);
            let at = self.pairs_at(other, p);
            self.lemma_pairs_before(other, p, pair);
            other.lemma_search_is_complete(query);
            let meets = |q: int| other.meets(query, q);
            let met = positions(meets, 0, other.num_items);
            lemma_positions(meets, 0, other.num_items);
            if (before + at).contains(pair) {
                let i = choose|i: int| 0 <= i < (before + at).len() && (before + at)[i] == pair;
                if i < before.len() {
                    assert(before[i] == pair);
                } else {
                    let j = i - before.len();
                    assert(met.contains(met[j]));
                    assert(meets(met[j]));
                    assert(self.is_pair(other, p, met[j], pair));
                }
            }
            if exists|p: int, q: int| p < end && #[trigger] self.is_pair(other, p, q, pair) {
                let (a, q) = choose|a: int, q: int|
                    a < end && #[trigger] self.is_pair(other, a, q, pair);
                if a < p {
                    let i = choose|i: int| 0 <= i < before.len() && before[i] == pair;
                    assert((before + at)[i] == pair);
                } else {
                    assert(meets(q));
                    assert(met.contains(q));
                    let j = choose|j: int| 0 <= j < met.len() && met[j] == q;
                    assert(at[j] == pair);
                    assert((before + at)[before.len() + j] == pair);
                }
            }
        }
    }

    /// Two trees intersect in the pairs of items whose boxes have a point in common, all of them
    /// and no others, where the nodes of the other tree enclose their children.
    pub proof fn lemma_intersection_is_complete(self, other: TreeView<N>, pair: (u32, u32))
        requires
            other.is_packed(),
            other.boxes.len() > 0,
            other.encloses(),
            self.num_items >= 0,
        ensures
            self.pairs_before(other, self.num_items).contains(pair) <==> exists|p: int, q: int|
                #[trigger] self.is_pair(other, p, q, pair),
    {
        self.lemma_pairs_before(other, self.num_items, pair);
        assert forall|p: int, q: int| #[trigger] self.is_pair(other, p, q, pair) implies p
            < self.num_items by {}
    }
}

/// Returns the indexes of objects in a tree and another tree that intersect.
///
/// Each returned object is of the form `(u32, u32)`, where the first is the positional
/// index of the "left" tree and the second is the index of the "right" tree.
pub fn intersection_candidates_with_other_tree<
    N: IndexableNum,
    L: RTreeIndex<N>,
    R: RTreeIndex<N>,
>(tree: &L, other: &R) -> (candidates: Vec<(u32, u32)>)
    requires
        tree.tree().is_packed(),
        other.tree().is_packed(),
    ensures
        tree.tree().boxes.len() == 0 || other.tree().boxes.len() == 0 ==> candidates@.len()
            == 0,
        tree.tree().boxes.len() > 0 && other.tree().boxes.len() > 0 ==> candidates@
            == tree.tree().pairs_before(other.tree(), tree.tree().num_items),
        tree.tree().boxes.len() > 0 && other.tree().boxes.len() > 0 && other.tree().encloses()
            ==> forall|pair: (u32, u32)| #[trigger]
            candidates@.contains(pair) <==> exists|p: int, q: int|
                #[trigger] tree.tree().is_pair(other.tree(), p, q, pair),
{
    let boxes = tree.boxes();
    let indices = tree.indices();
    let mut candidates: Vec<(u32, u32)> = Vec::new();
    if boxes.is_empty() || other.boxes().is_empty() {
        return candidates;
    }
    let ghost left = tree.tree();
    let ghost right = other.tree();
    let num_items = tree.num_items() as usize;
    proof {
        left.lemma_levels_ascend(0, left.top());
    }
    let mut p: usize = 0;
    while p < num_items
        invariant
            left == tree.tree(),
            right == other.tree(),
            boxes@ == left.boxes,
            indices@ == left.indices,
            num_items == left.num_items,
            4 * num_items <= boxes@.len() <= isize::MAX,
            left.indices.len() == left.num_nodes(),
            right.is_packed(),
            right.boxes.len() > 0,
            p <= num_items,
            candidates@ == left.pairs_before(right, p as int),
        decreases num_items - p,
    {
        let index = indices.get(p) as u32;
        let query = Rect {
            min_x: boxes[4 * p],
            min_y: boxes[4 * p + 1],
            max_x: boxes[4 * p + 2],
            max_y: boxes[4 * p + 3],
        };
        let found = search_stored(
            other.boxes(),
            other.indices(),
            other.metadata(),
            query,
            Ghost(right),
        );
        let ghost before = candidates@;
        let ghost at = left.pairs_at(right, p as int);
        let mut i: usize = 0;
        while i < found.len()
            invariant
                i <= found@.len(),
                at.len() == found@.len(),
                forall|j: int| 0 <= j < at.len() ==> #[trigger] at[j] == (index, found@[j]),
                candidates@ == before + at.take(i as int),
            decreases found@.len() - i,
        {
            candidates.push((index, found[i]));
            i += 1;
            assert(candidates@ =~= before + at.take(i as int));
        }
        p += 1;
        assert(at.take(i as int) =~= at);
        assert(candidates@ == left.pairs_before(right, p as int));
    }
    proof {
        if right.encloses() {
            assert forall|pair: (u32, u32)| #[trigger]
                candidates@.contains(pair) <==> exists|p: int, q: int|
                    #[trigger] left.is_pair(right, p, q, pair) by {
                left.lemma_intersection_is_complete(right, pair);
            }
        }
    }
    candidates
}

} // verus!
