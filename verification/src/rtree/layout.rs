//! How a packed tree is laid out.
//!
//! The nodes of a tree stand level by level, from the items at the bottom to the root at the end.
//! Each level groups the one below it into runs of `node_size` nodes; only the last run may be
//! shorter. A node of an upper level stores where its run of children starts.

use crate::num::IndexableNum;
use vstd::arithmetic::div_mod::lemma_fundamental_div_mod;
use vstd::prelude::*;

verus! {

/// `a / b`, rounded up.
pub open spec fn ceil_div(a: int, b: int) -> int {
    (a + b - 1) / b
}

/// The contents of a tree.
///
/// Four values in `boxes` make the box of a node: `min_x`, `min_y`, `max_x` and `max_y`. For an
/// item, `indices` holds the position at which it was inserted; for any other node, where in
/// `boxes` its children start; `wide_indices` says whether the indices are stored with 32 bits each
/// or with 16. `level_bounds` holds where in `boxes` each level ends.
pub struct TreeView<N> {
    pub boxes: Seq<N>,
    pub indices: Seq<int>,
    pub wide_indices: bool,
    pub num_items: int,
    pub node_size: int,
    pub level_bounds: Seq<int>,
}

impl<N> TreeView<N> {
    /// The number of nodes, items included.
    pub open spec fn num_nodes(self) -> int {
        self.boxes.len() as int / 4
    }

    /// The number of levels.
    pub open spec fn num_levels(self) -> int {
        self.level_bounds.len() as int
    }

    /// The level of the root.
    pub open spec fn top(self) -> int {
        self.num_levels() - 1
    }

    /// The position behind the last node of a level.
    pub open spec fn end(self, level: int) -> int {
        self.level_bounds[level] / 4
    }

    /// The position of the first node of a level.
    pub open spec fn start(self, level: int) -> int {
        if level <= 0 {
            0
        } else {
            self.end(level - 1)
        }
    }

    /// The number of nodes of a level.
    pub open spec fn count(self, level: int) -> int {
        self.end(level) - self.start(level)
    }

    /// Whether there is a node at position `p` of the given level.
    pub open spec fn in_level(self, level: int, p: int) -> bool {
        0 <= level < self.num_levels() && self.start(level) <= p < self.end(level)
    }

    /// The position of the first child of node `p` of the given level.
    pub open spec fn first_child(self, level: int, p: int) -> int {
        self.start(level - 1) + (p - self.start(level)) * self.node_size
    }

    /// The position behind the last node of the run of siblings that starts at `p` in the given
    /// level.
    pub open spec fn run_end(self, level: int, p: int) -> int {
        if p + self.node_size < self.end(level) {
            p + self.node_size
        } else {
            self.end(level)
        }
    }

    /// The position of the parent of node `p` of the given level.
    pub open spec fn parent(self, level: int, p: int) -> int {
        self.start(level + 1) + (p - self.start(level)) / self.node_size
    }

    /// The position of the ancestor of item `p` in the given level.
    pub open spec fn ancestor(self, level: int, p: int) -> int
        decreases level,
    {
        if level <= 0 {
            p
        } else {
            self.parent(level - 1, self.ancestor(level - 1, p))
        }
    }

    /// The level of node `p`.
    pub open spec fn level_of(self, p: int) -> int {
        choose|level: int| self.in_level(level, p)
    }

    /// The box of node `p`.
    pub open spec fn bbox(self, p: int) -> [N; 4] {
        [self.boxes[4 * p], self.boxes[4 * p + 1], self.boxes[4 * p + 2], self.boxes[4 * p + 3]]
    }

    /// Whether a level has as many nodes as it takes to group the nodes of the level below.
    pub open spec fn groups_level_below(self, level: int) -> bool {
        self.count(level) == ceil_div(self.count(level - 1), self.node_size)
    }

    /// Whether the levels of a tree that is not empty are those of a packed tree.
    pub open spec fn levels_packed(self) -> bool {
        &&& self.num_items > 0
        &&& self.node_size > 0
        &&& self.num_levels() > 0
        &&& self.boxes.len() == 4 * self.num_nodes()
        &&& forall|l: int| 0 <= l < self.num_levels() ==> #[trigger] self.level_bounds[l] % 4 == 0
        &&& self.end(0) == self.num_items
        &&& forall|l: int| 0 < l < self.num_levels() ==> #[trigger] self.groups_level_below(l)
        &&& self.count(self.top()) == 1
        &&& self.end(self.top()) == self.num_nodes()
    }

    /// Whether the tree is a packed tree. A tree without boxes is one, whatever else it holds.
    pub open spec fn is_packed(self) -> bool {
        self.boxes.len() == 0 || {
            &&& self.levels_packed()
            &&& self.boxes.len() <= isize::MAX
            &&& self.indices.len() == self.num_nodes()
            &&& forall|l: int, p: int|
                0 < l && #[trigger] self.in_level(l, p) ==> self.indices[p] == 4
                    * self.first_child(l, p)
        }
    }
}

/// Rounding a quotient up gives the number of runs that the dividend is cut into.
proof fn lemma_ceil_div(a: int, b: int)
    requires
        a > 0,
        b > 0,
    ensures
        ceil_div(a, b) > 0,
        forall|j: int| 0 <= j < a ==> 0 <= #[trigger] (j / b) < ceil_div(a, b),
        forall|q: int| 0 <= q < ceil_div(a, b) ==> 0 <= #[trigger] (q * b) < a,
        a <= ceil_div(a, b) * b,
{
    let c = ceil_div(a, b);
    lemma_fundamental_div_mod(a + b - 1, b);
    assert(c > 0 && a <= c * b && (c - 1) * b < a) by (nonlinear_arith)
        requires
            a > 0,
            b > 0,
            a + b - 1 == b * c + (a + b - 1) % b,
            0 <= (a + b - 1) % b < b,
    ;
    assert forall|j: int| 0 <= j < a implies 0 <= #[trigger] (j / b) < c by {
        lemma_fundamental_div_mod(j, b);
        assert(0 <= j / b < c) by (nonlinear_arith)
            requires
                0 <= j < a,
                a <= c * b,
                b > 0,
                j == b * (j / b) + j % b,
                0 <= j % b < b,
        ;
    }
    assert forall|q: int| 0 <= q < c implies 0 <= #[trigger] (q * b) < a by {
        assert(0 <= q * b < a) by (nonlinear_arith)
            requires
                0 <= q <= c - 1,
                (c - 1) * b < a,
                b > 0,
        ;
    }
}

impl<N> TreeView<N> {
    /// No level is empty.
    pub proof fn lemma_levels_not_empty(self, level: int)
        requires
            self.levels_packed(),
            0 <= level < self.num_levels(),
        ensures
            self.count(level) > 0,
            0 <= self.start(level) < self.end(level),
        decreases level,
    {
        if level > 0 {
            self.lemma_levels_not_empty(level - 1);
            assert(self.groups_level_below(level));
            lemma_ceil_div(self.count(level - 1), self.node_size);
        } else {
            assert(self.count(0) == self.num_items);
        }
    }

    /// Levels stand one behind the other.
    pub proof fn lemma_levels_ascend(self, lower: int, upper: int)
        requires
            self.levels_packed(),
            0 <= lower <= upper < self.num_levels(),
        ensures
            self.end(lower) <= self.end(upper),
            lower < upper ==> self.end(lower) <= self.start(upper),
            self.end(upper) <= self.num_nodes(),
        decreases self.num_levels() - lower,
    {
        self.lemma_levels_not_empty(lower);
        if lower < upper {
            self.lemma_levels_ascend(lower + 1, upper);
            self.lemma_levels_not_empty(lower + 1);
        } else if upper < self.top() {
            self.lemma_levels_ascend(upper + 1, self.top());
            self.lemma_levels_not_empty(upper + 1);
        }
    }

    /// A position belongs to one level.
    pub proof fn lemma_one_level(self, a: int, b: int, p: int)
        requires
            self.levels_packed(),
            self.in_level(a, p),
            self.in_level(b, p),
        ensures
            a == b,
    {
        if a < b {
            self.lemma_levels_ascend(a, b);
        } else if b < a {
            self.lemma_levels_ascend(b, a);
        }
    }

    /// Every position belongs to a level.
    pub proof fn lemma_has_level(self, p: int) -> (level: int)
        requires
            self.levels_packed(),
            0 <= p < self.num_nodes(),
        ensures
            self.in_level(level, p),
    {
        self.lemma_level_upto(self.top(), p)
    }

    /// Every position before the end of a level belongs to it or to a level below.
    proof fn lemma_level_upto(self, upper: int, p: int) -> (level: int)
        requires
            self.levels_packed(),
            0 <= upper < self.num_levels(),
            0 <= p < self.end(upper),
        ensures
            self.in_level(level, p),
        decreases upper,
    {
        if p < self.start(upper) {
            self.lemma_level_upto(upper - 1, p)
        } else {
            upper
        }
    }

    /// The children of a node are a run in the level below, and it is their parent.
    pub proof fn lemma_children(self, level: int, p: int)
        requires
            self.levels_packed(),
            0 < level,
            self.in_level(level, p),
        ensures
            self.first_child(level, p) < self.run_end(level - 1, self.first_child(level, p)),
            forall|c: int|
                self.first_child(level, p) <= c < self.run_end(
                    level - 1,
                    self.first_child(level, p),
                ) ==> #[trigger] self.in_level(level - 1, c) && self.parent(level - 1, c) == p,
    {
        let below = level - 1;
        self.lemma_levels_not_empty(below);
        assert(self.groups_level_below(level));
        lemma_ceil_div(self.count(below), self.node_size);
        let q = p - self.start(level);
        let first = self.first_child(level, p);
        assert(0 <= q * self.node_size < self.count(below));
        assert forall|c: int| first <= c < self.run_end(below, first) implies
            #[trigger] self.in_level(below, c) && self.parent(below, c) == p by {
            let j = c - self.start(below);
            let size = self.node_size;
            assert(j / size == q) by (nonlinear_arith)
                requires
                    size > 0,
                    q * size <= j < q * size + size,
            ;
        }
    }

    /// The parent of a node stands in the level above, with the node among its children.
    pub proof fn lemma_parent(self, level: int, p: int)
        requires
            self.levels_packed(),
            level < self.top(),
            self.in_level(level, p),
        ensures
            self.in_level(level + 1, self.parent(level, p)),
            self.first_child(level + 1, self.parent(level, p)) <= p < self.run_end(
                level,
                self.first_child(level + 1, self.parent(level, p)),
            ),
    {
        self.lemma_levels_not_empty(level);
        assert(self.groups_level_below(level + 1));
        lemma_ceil_div(self.count(level), self.node_size);
        let j = p - self.start(level);
        let size = self.node_size;
        lemma_fundamental_div_mod(j, size);
        assert(0 <= j / size < self.count(level + 1));
        assert(j / size * size <= j < j / size * size + size) by (nonlinear_arith)
            requires
                size > 0,
                j == size * (j / size) + j % size,
                0 <= j % size < size,
        ;
    }

    /// The ancestors of an item stand in their levels.
    pub proof fn lemma_ancestor(self, level: int, p: int)
        requires
            self.levels_packed(),
            0 <= level < self.num_levels(),
            0 <= p < self.num_items,
        ensures
            self.in_level(level, self.ancestor(level, p)),
        decreases level,
    {
        if level > 0 {
            self.lemma_ancestor(level - 1, p);
            self.lemma_parent(level - 1, self.ancestor(level - 1, p));
        }
    }
}

impl<N: IndexableNum> TreeView<N> {
    /// Whether the box of node `p` lies within the box of node `q`.
    pub open spec fn box_within(self, p: int, q: int) -> bool {
        &&& self.boxes[4 * q].rank() <= self.boxes[4 * p].rank()
        &&& self.boxes[4 * q + 1].rank() <= self.boxes[4 * p + 1].rank()
        &&& self.boxes[4 * p + 2].rank() <= self.boxes[4 * q + 2].rank()
        &&& self.boxes[4 * p + 3].rank() <= self.boxes[4 * q + 3].rank()
    }

    /// Whether the box of every node lies within the box of its parent.
    pub open spec fn encloses(self) -> bool {
        forall|l: int, p: int|
            l < self.top() && #[trigger] self.in_level(l, p) ==> self.box_within(
                p,
                self.parent(l, p),
            )
    }

    /// In a tree whose nodes enclose their children, every node encloses the items below it.
    pub proof fn lemma_ancestor_encloses(self, level: int, p: int)
        requires
            self.levels_packed(),
            self.encloses(),
            0 <= level < self.num_levels(),
            0 <= p < self.num_items,
        ensures
            self.box_within(p, self.ancestor(level, p)),
        decreases level,
    {
        if level > 0 {
            self.lemma_ancestor_encloses(level - 1, p);
            self.lemma_ancestor(level - 1, p);
            assert(self.box_within(self.ancestor(level - 1, p), self.ancestor(level, p)));
        }
    }
}

} // verus!
