//! What a search by bounding box finds.

use crate::num::IndexableNum;
use crate::rtree::layout::TreeView;
use crate::rtree::sort::{
    is_permutation, items_moved, items_reordered, lemma_permutation_reaches,
};
use crate::rtree::sort::util::{k_block_sort_by, lemma_blocks_of_one_ascend, orders};
use std::cmp::Ordering;
use vstd::prelude::*;

verus! {

/// A bounding box.
pub struct Rect<N> {
    pub min_x: N,
    pub min_y: N,
    pub max_x: N,
    pub max_y: N,
}

/// Compares two insertion indices.
fn compare_ids(a: &u32, b: &u32) -> (answer: Ordering)
    ensures
        match answer {
            Ordering::Less => *a < *b,
            Ordering::Equal => *a == *b,
            Ordering::Greater => *a > *b,
        },
{
    if *a < *b {
        Ordering::Less
    } else if *b < *a {
        Ordering::Greater
    } else {
        Ordering::Equal
    }
}

/// Puts insertion indices into ascending order.
pub(crate) fn sort_ids(ids: &mut Vec<u32>)
    ensures
        final(ids)@.len() == old(ids)@.len(),
        final(ids)@.to_multiset() == old(ids)@.to_multiset(),
        forall|i: int, j: int| 0 <= i < j < final(ids)@.len() ==> final(ids)@[i] <= final(ids)@[j],
{
    let ghost ids0 = ids@;
    let ghost leq = |a: u32, b: u32| a <= b;
    assert(orders(compare_ids, leq, ids0));
    k_block_sort_by(ids.as_mut_slice(), 1, compare_ids);
    proof {
        vstd::seq_lib::to_multiset_len(ids@);
        vstd::seq_lib::to_multiset_len(ids0);
        lemma_blocks_of_one_ascend(ids@, leq);
        assert forall|i: int, j: int| 0 <= i < j < ids@.len() implies ids@[i] <= ids@[j] by {
            assert(leq(ids@[i], ids@[j]));
        }
    }
}

/// Insertion indices that are all different and in ascending order are in strictly ascending order.
pub(crate) proof fn lemma_distinct_ids_ascend(stored: Seq<u32>, ids: Seq<u32>)
    requires
        stored.no_duplicates(),
        ids.to_multiset() == stored.to_multiset(),
        forall|i: int, j: int| 0 <= i < j < ids.len() ==> ids[i] <= ids[j],
    ensures
        forall|i: int, j: int| 0 <= i < j < ids.len() ==> ids[i] < ids[j],
{
    stored.lemma_multiset_has_no_duplicates();
    ids.lemma_multiset_has_no_duplicates_conv();
}

/// The positions from `a` to `b` at which `pred` holds, in ascending order.
pub open spec fn positions(pred: spec_fn(int) -> bool, a: int, b: int) -> Seq<int>
    decreases b - a,
{
    if b <= a {
        Seq::empty()
    } else if pred(b - 1) {
        positions(pred, a, b - 1).push(b - 1)
    } else {
        positions(pred, a, b - 1)
    }
}

/// Positions are found where, and only where, the predicate holds, and in ascending order.
pub proof fn lemma_positions(pred: spec_fn(int) -> bool, a: int, b: int)
    ensures
        forall|p: int| #[trigger]
            positions(pred, a, b).contains(p) <==> a <= p < b && pred(p),
        forall|i: int, j: int|
            0 <= i < j < positions(pred, a, b).len() ==> #[trigger] positions(pred, a, b)[i]
                < #[trigger] positions(pred, a, b)[j],
    decreases b - a,
{
    if a < b {
        lemma_positions(pred, a, b - 1);
        let before = positions(pred, a, b - 1);
        let after = positions(pred, a, b);
        assert forall|p: int| #[trigger] after.contains(p) <==> a <= p < b && pred(p) by {
            if after.contains(p) {
                let i = choose|i: int| 0 <= i < after.len() && after[i] == p;
                if i < before.len() {
                    assert(before.contains(before[i]));
                }
            }
            if a <= p < b && pred(p) {
                if p == b - 1 {
                    assert(after[before.len() as int] == p);
                } else {
                    assert(before.contains(p));
                    let i = choose|i: int| 0 <= i < before.len() && before[i] == p;
                    assert(after[i] == p);
                }
            }
        }
        assert forall|i: int, j: int| 0 <= i < j < after.len() implies #[trigger] after[i]
            < #[trigger] after[j] by {
            assert(before.contains(before[i]));
        }
    }
}

/// Positions of two adjacent ranges are those of the whole.
proof fn lemma_positions_split(pred: spec_fn(int) -> bool, a: int, m: int, b: int)
    requires
        a <= m <= b,
    ensures
        positions(pred, a, m) + positions(pred, m, b) == positions(pred, a, b),
    decreases b - m,
{
    if m < b {
        lemma_positions_split(pred, a, m, b - 1);
        assert(positions(pred, a, m) + positions(pred, m, b) =~= positions(pred, a, b));
    } else {
        assert(positions(pred, a, m) + positions(pred, m, b) =~= positions(pred, a, b));
    }
}

/// Predicates that agree on a range hold at the same positions of it.
pub(crate) proof fn lemma_positions_agree(
    first: spec_fn(int) -> bool,
    second: spec_fn(int) -> bool,
    a: int,
    b: int,
)
    requires
        forall|p: int| a <= p < b ==> #[trigger] first(p) == second(p),
    ensures
        positions(first, a, b) == positions(second, a, b),
    decreases b - a,
{
    if a < b {
        assert(first(b - 1) == second(b - 1));
        lemma_positions_agree(first, second, a, b - 1);
    }
}

/// Where a predicate holds nowhere, there are no positions.
proof fn lemma_no_positions(pred: spec_fn(int) -> bool, a: int, b: int)
    requires
        forall|p: int| a <= p < b ==> !#[trigger] pred(p),
    ensures
        positions(pred, a, b) == Seq::<int>::empty(),
    decreases b - a,
{
    if a < b {
        assert(!pred(b - 1));
        lemma_no_positions(pred, a, b - 1);
    }
}

impl<N: IndexableNum> TreeView<N> {
    /// Whether the box of node `p` and the query box have a point in common.
    pub open spec fn meets(self, query: Rect<N>, p: int) -> bool {
        &&& self.boxes[4 * p].rank() <= query.max_x.rank()
        &&& self.boxes[4 * p + 1].rank() <= query.max_y.rank()
        &&& query.min_x.rank() <= self.boxes[4 * p + 2].rank()
        &&& query.min_y.rank() <= self.boxes[4 * p + 3].rank()
    }

    /// Whether the query box meets the box of node `p` of the given level, and the boxes of all of
    /// the ancestors of the node.
    pub open spec fn reached(self, query: Rect<N>, level: int, p: int) -> bool
        decreases self.top() - level,
    {
        self.meets(query, p) && (level >= self.top() || self.reached(
            query,
            level + 1,
            self.parent(level, p),
        ))
    }

    /// The insertion indices of the items at the given positions.
    pub open spec fn items_at(self, items: Seq<int>) -> Seq<u32> {
        Seq::new(items.len(), |i: int| self.indices[items[i]] as u32)
    }

    /// The items that a search reaches from the root, in the order in which they are stored.
    pub open spec fn items_reached(self, query: Rect<N>) -> Seq<u32> {
        self.items_at(positions(|p: int| self.reached(query, 0, p), 0, self.num_items))
    }

    /// The items whose boxes the query box meets, in the order in which they are stored.
    pub open spec fn items_meeting(self, query: Rect<N>) -> Seq<u32> {
        self.items_at(positions(|p: int| self.meets(query, p), 0, self.num_items))
    }

    /// In a tree whose nodes enclose their children, a search reaches each node that the query box
    /// meets.
    proof fn lemma_reaches_what_meets(self, query: Rect<N>, level: int, p: int)
        requires
            self.levels_packed(),
            self.encloses(),
            self.in_level(level, p),
        ensures
            self.reached(query, level, p) == self.meets(query, p),
        decreases self.top() - level,
    {
        if level < self.top() {
            self.lemma_parent(level, p);
            self.lemma_reaches_what_meets(query, level + 1, self.parent(level, p));
            assert(self.box_within(p, self.parent(level, p)));
        }
    }

    /// A search of a tree whose nodes enclose their children finds the items whose boxes the query
    /// box meets, all of them and no others.
    pub proof fn lemma_search_is_complete(self, query: Rect<N>)
        requires
            self.is_packed(),
            self.boxes.len() > 0,
            self.encloses(),
        ensures
            self.items_reached(query) == self.items_meeting(query),
    {
        let reached = |p: int| self.reached(query, 0, p);
        let meets = |p: int| self.meets(query, p);
        assert forall|p: int| 0 <= p < self.num_items implies #[trigger] reached(p) == meets(p) by {
            assert(self.in_level(0, p));
            self.lemma_reaches_what_meets(query, 0, p);
        }
        lemma_positions_agree(reached, meets, 0, self.num_items);
    }

    /// An insertion index is among the items whose boxes the query box meets where, and only where,
    /// it belongs to such an item.
    pub proof fn lemma_item_is_found(self, query: Rect<N>, index: u32)
        ensures
            self.items_meeting(query).contains(index) <==> exists|p: int|
                0 <= p < self.num_items && #[trigger] self.meets(query, p) && index
                    == self.indices[p] as u32,
    {
        let meets = |p: int| self.meets(query, p);
        let met = positions(meets, 0, self.num_items);
        let found = self.items_meeting(query);
        lemma_positions(meets, 0, self.num_items);
        if found.contains(index) {
            let i = choose|i: int| 0 <= i < found.len() && found[i] == index;
            assert(met.contains(met[i]));
            assert(self.meets(query, met[i]));
        }
        if exists|p: int|
            0 <= p < self.num_items && #[trigger] self.meets(query, p) && index == self.indices[p]
                as u32 {
            let p = choose|p: int|
                0 <= p < self.num_items && #[trigger] self.meets(query, p) && index
                    == self.indices[p] as u32;
            assert(meets(p));
            assert(met.contains(p));
            let i = choose|i: int| 0 <= i < met.len() && met[i] == p;
            assert(found[i] == index);
        }
    }

    /// No item is found twice, where no two items have the same insertion index.
    pub proof fn lemma_items_are_found_once(self, query: Rect<N>)
        requires
            self.items_are_distinct(),
            forall|p: int| 0 <= p < self.num_items ==> 0 <= #[trigger] self.indices[p] <= u32::MAX,
        ensures
            self.items_reached(query).no_duplicates(),
    {
        let reached = |p: int| self.reached(query, 0, p);
        let met = positions(reached, 0, self.num_items);
        lemma_positions(reached, 0, self.num_items);
        assert forall|i: int, j: int| 0 <= i < j < met.len() implies self.items_reached(query)[i]
            != self.items_reached(query)[j] by {
            assert(met.contains(met[i]));
            assert(met.contains(met[j]));
            assert(met[i] < met[j]);
        }
    }

    /// The order in which items stand has no part in what is found: where the items of another tree
    /// are those of this one in another order, the query box meets the same items of both.
    pub proof fn lemma_found_in_any_order(self, other: Self, query: Rect<N>, index: u32)
        requires
            self.num_items >= 0,
            other.num_items == self.num_items,
            4 * self.num_items <= self.boxes.len(),
            4 * self.num_items <= other.boxes.len(),
            self.num_items <= self.indices.len(),
            self.num_items <= other.indices.len(),
            items_reordered(
                self.num_items as nat,
                self.boxes.take(4 * self.num_items),
                other.boxes.take(4 * self.num_items),
                self.indices.take(self.num_items),
                other.indices.take(self.num_items),
            ),
        ensures
            self.items_meeting(query).contains(index) <==> other.items_meeting(query).contains(
                index,
            ),
    {
        let n = self.num_items;
        let boxes = self.boxes.take(4 * n);
        let indices = self.indices.take(n);
        let other_boxes = other.boxes.take(4 * n);
        let other_indices = other.indices.take(n);
        let order = choose|order: Seq<int>| #[trigger]
            is_permutation(order, n as nat) && items_moved(
                order,
                boxes,
                other_boxes,
                indices,
                other_indices,
            );
        self.lemma_item_is_found(query, index);
        other.lemma_item_is_found(query, index);
        assert forall|i: int| 0 <= i < n implies #[trigger] other.meets(query, i) == self.meets(
            query,
            order[i],
        ) && other.indices[i] == self.indices[order[i]] by {
            assert(0 <= order[i] < n);
            assert forall|axis: int| 0 <= axis < 4 implies #[trigger] other.boxes[4 * i + axis]
                == self.boxes[4 * order[i] + axis] by {
                let j = 4 * i + axis;
                assert(j / 4 == i && j % 4 == axis);
                assert(other_boxes[j] == boxes[4 * order[j / 4] + j % 4]);
            }
            assert(other.boxes[4 * i + 0] == self.boxes[4 * order[i] + 0]);
            assert(other_indices[i] == indices[order[i]]);
        }
        if self.items_meeting(query).contains(index) {
            let p = choose|p: int|
                0 <= p < n && #[trigger] self.meets(query, p) && index == self.indices[p] as u32;
            let i = lemma_permutation_reaches(order, n as nat, p);
            assert(other.meets(query, i));
        }
        if other.items_meeting(query).contains(index) {
            let i = choose|i: int|
                0 <= i < n && #[trigger] other.meets(query, i) && index == other.indices[i] as u32;
            assert(self.meets(query, order[i]));
        }
    }

    /// The nodes of a level that a search reaches.
    pub(crate) open spec fn level_reached(self, query: Rect<N>, level: int) -> Seq<int> {
        positions(
            |p: int| self.reached(query, level, p),
            self.start(level),
            self.end(level),
        )
    }

    /// Where the children of the given nodes of a level start.
    pub(crate) open spec fn child_runs(self, level: int, nodes: Seq<int>) -> Seq<int> {
        Seq::new(nodes.len(), |i: int| self.first_child(level, nodes[i]))
    }

    /// The nodes that the query box meets in the runs of a level that start at `runs`.
    pub(crate) open spec fn met_in_runs(self, query: Rect<N>, level: int, runs: Seq<int>) -> Seq<int>
        decreases runs.len(),
    {
        if runs.len() == 0 {
            Seq::empty()
        } else {
            self.met_in_runs(query, level, runs.drop_last()) + positions(
                |p: int| self.meets(query, p),
                runs.last(),
                self.run_end(level, runs.last()),
            )
        }
    }

    /// The runs of a level that a search visits: those of the children of the nodes that it reaches
    /// in the level above. In the level of the root it visits the root.
    pub(crate) open spec fn runs_visited(self, query: Rect<N>, level: int) -> Seq<int> {
        if level >= self.top() {
            seq![self.start(self.top())]
        } else {
            self.child_runs(level + 1, self.level_reached(query, level + 1))
        }
    }

    /// The children of the nodes before `b` of the level above stand before this position.
    spec fn cut(self, level: int, b: int) -> int {
        if b < self.end(level + 1) {
            self.first_child(level + 1, b)
        } else {
            self.end(level)
        }
    }

    /// The nodes that are met among the children of the nodes reached before `b` are the nodes
    /// reached before the children of `b`.
    proof fn lemma_met_before(self, query: Rect<N>, level: int, b: int)
        requires
            self.levels_packed(),
            0 <= level < self.top(),
            self.start(level + 1) <= b <= self.end(level + 1),
        ensures
            self.met_in_runs(
                query,
                level,
                self.child_runs(
                    level + 1,
                    positions(
                        |p: int| self.reached(query, level + 1, p),
                        self.start(level + 1),
                        b,
                    ),
                ),
            ) == positions(
                |p: int| self.reached(query, level, p),
                self.start(level),
                self.cut(level, b),
            ),
        decreases b - self.start(level + 1),
    {
        let above = |p: int| self.reached(query, level + 1, p);
        let reached = |p: int| self.reached(query, level, p);
        let meets = |p: int| self.meets(query, p);
        let from = self.start(level + 1);
        let size = self.node_size;
        self.lemma_levels_not_empty(level);
        self.lemma_levels_not_empty(level + 1);
        if b == from {
            assert(positions(above, from, b) =~= Seq::<int>::empty());
            assert(self.child_runs(level + 1, positions(above, from, b)) =~= Seq::<int>::empty());
            assert(self.first_child(level + 1, b) == self.start(level)) by {
                assert(0 * size == 0) by (nonlinear_arith);
            }
        } else {
            let q = b - 1;
            self.lemma_met_before(query, level, q);
            assert(self.in_level(level + 1, q));
            self.lemma_children(level + 1, q);
            let first = self.first_child(level + 1, q);
            let end = self.run_end(level, first);
            assert(self.cut(level, q) == first);
            assert(self.cut(level, b) == end) by {
                let j = q - from;
                assert((j + 1) * size == j * size + size) by (nonlinear_arith);
                if b < self.end(level + 1) {
                    assert(self.in_level(level + 1, b));
                    self.lemma_children(level + 1, b);
                    let next = self.first_child(level + 1, b);
                    assert(self.in_level(level, next));
                } else {
                    assert(self.groups_level_below(level + 1));
                    let a = self.count(level);
                    vstd::arithmetic::div_mod::lemma_fundamental_div_mod(a + size - 1, size);
                    assert(a <= (j + 1) * size) by (nonlinear_arith)
                        requires
                            a + size - 1 == size * (j + 1) + (a + size - 1) % size,
                            (a + size - 1) % size < size,
                    ;
                }
            }
            assert(self.start(level) <= first) by {
                assert(self.in_level(level, first));
            }
            lemma_positions_split(reached, self.start(level), first, end);
            let before = positions(above, from, q);
            let runs = self.child_runs(level + 1, before);
            if above(q) {
                let all = positions(above, from, b);
                assert(all =~= before.push(q));
                let all_runs = self.child_runs(level + 1, all);
                assert(all_runs =~= runs.push(first));
                assert(all_runs.drop_last() =~= runs);
                assert forall|c: int| first <= c < end implies #[trigger] meets(c) == reached(c) by {
                    assert(self.in_level(level, c));
                }
                lemma_positions_agree(meets, reached, first, end);
            } else {
                assert(positions(above, from, b) =~= before);
                assert forall|c: int| first <= c < end implies !#[trigger] reached(c) by {
                    assert(self.in_level(level, c));
                }
                lemma_no_positions(reached, first, end);
                assert(positions(reached, self.start(level), end) =~= positions(
                    reached,
                    self.start(level),
                    first,
                ));
            }
        }
    }

    /// The nodes that are met in the runs that a search visits in a level are the nodes of the level
    /// that it reaches.
    pub(crate) proof fn lemma_runs_visited(self, query: Rect<N>, level: int)
        requires
            self.levels_packed(),
            0 <= level < self.num_levels(),
        ensures
            self.met_in_runs(query, level, self.runs_visited(query, level)) == self.level_reached(
                query,
                level,
            ),
    {
        if level < self.top() {
            self.lemma_levels_not_empty(level + 1);
            self.lemma_met_before(query, level, self.end(level + 1));
        } else {
            let root = self.start(level);
            let runs = seq![root];
            assert(runs.drop_last() =~= Seq::<int>::empty());
            let reached = |p: int| self.reached(query, level, p);
            let meets = |p: int| self.meets(query, p);
            assert forall|p: int| root <= p < self.end(level) implies #[trigger] meets(p)
                == reached(p) by {}
            lemma_positions_agree(meets, reached, root, self.end(level));
            assert(self.met_in_runs(query, level, runs.drop_last()) =~= Seq::<int>::empty());
            assert(self.met_in_runs(query, level, runs) =~= positions(
                meets,
                root,
                self.run_end(level, root),
            ));
        }
    }

    /// Where a search reaches no node of a level, it reaches no item.
    pub(crate) proof fn lemma_nothing_reached(self, query: Rect<N>, level: int)
        requires
            self.levels_packed(),
            0 <= level < self.num_levels(),
            self.level_reached(query, level).len() == 0,
        ensures
            self.level_reached(query, 0).len() == 0,
        decreases level,
    {
        if level > 0 {
            self.lemma_runs_visited(query, level - 1);
            assert(self.runs_visited(query, level - 1) =~= Seq::<int>::empty());
            self.lemma_nothing_reached(query, level - 1);
        }
    }
}

} // verus!
