//! How a tree is stored.

use crate::error::GeoIndexError;
use crate::indices::{Indices, MutableIndices};
use crate::num::IndexableNum;
use crate::rtree::index::{describes, RTreeIndex};
use crate::rtree::layout::TreeView;
use crate::rtree::metadata::RTreeMetadata;
use crate::rtree::tree::{tree_of, IndexBuffer, RTree, RTreeRef};
use vstd::prelude::*;

verus! {

/// Where in the boxes a level starts: where the one below it ends.
pub open spec fn level_from<N>(tree: TreeView<N>, level: int) -> int {
    if level == 0 {
        0
    } else {
        tree.level_bounds[level - 1]
    }
}

/// How many values the boxes of a level have: four for each node.
pub open spec fn level_width<N>(tree: TreeView<N>, level: int) -> int {
    tree.level_bounds[level] - level_from(tree, level)
}

/// Whether node `q` belongs to a level.
pub open spec fn stands_in<N>(tree: TreeView<N>, level: int, q: int) -> bool {
    &&& 0 <= level < tree.level_bounds.len()
    &&& level_from(tree, level) <= 4 * q < tree.level_bounds[level]
}

/// Whether a level has as many nodes as it takes to hold those of the level below it, `node_size`
/// to a node: with one less, some would be left over.
pub open spec fn holds_level_below<N>(tree: TreeView<N>, level: int) -> bool {
    level_width(tree, level - 1) <= level_width(tree, level) * tree.node_size < level_width(
        tree,
        level - 1,
    ) + 4 * tree.node_size
}

/// Whether a tree that is not empty is stored level by level, from its items to a single root, each
/// level holding the one below it, and each node that is not an item storing where its children
/// start: those of the first node of a level at the start of the level below, and those of the next
/// node `node_size` boxes behind.
pub open spec fn is_stored_by_levels<N>(tree: TreeView<N>) -> bool {
    let levels = tree.level_bounds.len() as int;
    &&& levels > 0
    &&& tree.num_items > 0
    &&& tree.node_size > 0
    &&& tree.level_bounds[0] == 4 * tree.num_items
    &&& forall|l: int| 0 <= l < levels ==> #[trigger] tree.level_bounds[l] % 4 == 0
    &&& forall|l: int| 0 < l < levels ==> #[trigger] holds_level_below(tree, l)
    &&& level_width(tree, levels - 1) == 4
    &&& tree.level_bounds[levels - 1] == tree.boxes.len()
    &&& 4 * tree.indices.len() == tree.boxes.len()
    &&& tree.boxes.len() <= isize::MAX
    &&& forall|l: int, q: int|
        0 < l && #[trigger] stands_in(tree, l, q) ==> tree.indices[q] == level_from(tree, l - 1) + (
        4 * q - level_from(tree, l)) * tree.node_size
}

/// Whether box `p` lies in box `q`.
pub open spec fn lies_in<N: IndexableNum>(tree: TreeView<N>, p: int, q: int) -> bool {
    &&& tree.boxes[4 * q].rank() <= tree.boxes[4 * p].rank()
    &&& tree.boxes[4 * q + 1].rank() <= tree.boxes[4 * p + 1].rank()
    &&& tree.boxes[4 * p + 2].rank() <= tree.boxes[4 * q + 2].rank()
    &&& tree.boxes[4 * p + 3].rank() <= tree.boxes[4 * q + 3].rank()
}

/// Whether node `c` of the level below is a child of node `q` of the given level: one of up to
/// `node_size` nodes from where node `q` stores that its children start.
pub open spec fn is_child<N>(tree: TreeView<N>, level: int, q: int, c: int) -> bool {
    &&& 0 < level
    &&& stands_in(tree, level, q)
    &&& stands_in(tree, level - 1, c)
    &&& tree.indices[q] <= 4 * c < tree.indices[q] + 4 * tree.node_size
}

/// Whether item `p` is below node `q` of the given level: it is that node, or below a child of it.
pub open spec fn is_below<N>(tree: TreeView<N>, level: int, p: int, q: int) -> bool
    decreases level,
{
    if level <= 0 {
        level == 0 && p == q && stands_in(tree, 0, p)
    } else {
        exists|c: int| #[trigger] is_child(tree, level, q, c) && is_below(tree, level - 1, p, c)
    }
}

/// Whether each node that is not an item has the boxes of its children in its own.
pub open spec fn nodes_hold_children<N: IndexableNum>(tree: TreeView<N>) -> bool {
    forall|l: int, q: int, c: int| #[trigger] is_child(tree, l, q, c) ==> lies_in(tree, c, q)
}

/// Where nodes have the boxes of their children in their own, they have the boxes of all items below
/// them.
pub proof fn lemma_nodes_hold_items<N: IndexableNum>(tree: TreeView<N>, level: int, p: int, q: int)
    requires
        nodes_hold_children(tree),
        is_below(tree, level, p, q),
    ensures
        lies_in(tree, p, q),
    decreases level,
{
    if level > 0 {
        let c = choose|c: int| #[trigger]
            is_child(tree, level, q, c) && is_below(tree, level - 1, p, c);
        lemma_nodes_hold_items(tree, level - 1, p, c);
    }
}

/// Each item is below its ancestors.
pub(crate) proof fn lemma_items_are_below<N>(tree: TreeView<N>, level: int, p: int)
    requires
        tree.boxes.len() > 0,
        tree.is_packed(),
        0 <= level < tree.num_levels(),
        0 <= p < tree.num_items,
    ensures
        is_below(tree, level, p, tree.ancestor(level, p)),
    decreases level,
{
    lemma_stored_child(tree, 0, p);
    if level > 0 {
        lemma_items_are_below(tree, level - 1, p);
        tree.lemma_ancestor(level - 1, p);
        let c = tree.ancestor(level - 1, p);
        tree.lemma_parent(level - 1, c);
        let q = tree.parent(level - 1, c);
        lemma_stored_child(tree, level - 1, c);
        lemma_stored_child(tree, level, q);
        assert(tree.in_level(level, q));
        assert(is_child(tree, level, q, c));
    }
}

/// The quotient `c` of `a` by `b`, rounded up, is the least with `a <= c * b`.
proof fn lemma_rounded_up(a: int, b: int, c: int)
    requires
        b > 0,
    ensures
        c == (a + b - 1) / b <==> a <= c * b < a + b,
{
    let d = (a + b - 1) / b;
    vstd::arithmetic::div_mod::lemma_fundamental_div_mod(a + b - 1, b);
    assert(a <= d * b < a + b) by (nonlinear_arith)
        requires
            b > 0,
            a + b - 1 == b * d + (a + b - 1) % b,
            0 <= (a + b - 1) % b < b,
    ;
    if a <= c * b < a + b {
        assert(c == d) by (nonlinear_arith)
            requires
                b > 0,
                a <= c * b < a + b,
                a <= d * b < a + b,
        ;
    }
}

/// A level groups the one below it where it has as many nodes as it takes to hold it.
proof fn lemma_holds_level_below<N>(tree: TreeView<N>, l: int)
    requires
        0 < l < tree.level_bounds.len(),
        tree.node_size > 0,
        forall|l: int|
            0 <= l < tree.level_bounds.len() ==> #[trigger] tree.level_bounds[l] % 4 == 0,
    ensures
        tree.groups_level_below(l) <==> holds_level_below(tree, l),
        4 * tree.count(l) == level_width(tree, l),
{
    assert(tree.level_bounds[l] % 4 == 0 && tree.level_bounds[l - 1] % 4 == 0);
    if l > 1 {
        assert(tree.level_bounds[l - 2] % 4 == 0);
    }
    let a = tree.count(l - 1);
    let b = tree.node_size;
    let c = tree.count(l);
    lemma_rounded_up(a, b, c);
    assert(level_width(tree, l - 1) == 4 * a && level_width(tree, l) == 4 * c);
    assert(4 * c * b == 4 * (c * b)) by (nonlinear_arith);
}

/// What an item is below are its ancestors.
pub(crate) proof fn lemma_below_ancestors<N>(tree: TreeView<N>, level: int, p: int, q: int)
    requires
        tree.boxes.len() > 0,
        tree.is_packed(),
        is_below(tree, level, p, q),
    ensures
        0 <= level < tree.num_levels(),
        0 <= p < tree.num_items,
        q == tree.ancestor(level, p),
    decreases level,
{
    if level > 0 {
        let c = choose|c: int| #[trigger]
            is_child(tree, level, q, c) && is_below(tree, level - 1, p, c);
        lemma_below_ancestors(tree, level - 1, p, c);
        lemma_stored_child(tree, level, q);
        lemma_stored_child(tree, level - 1, c);
        tree.lemma_children(level, q);
        assert(tree.in_level(level, q));
        assert(tree.in_level(level - 1, c) && tree.parent(level - 1, c) == q);
    } else {
        lemma_stored_child(tree, 0, p);
    }
}

/// A tree is packed where it is empty or stored level by level.
pub proof fn lemma_packed_trees_are_stored_by_levels<N>(tree: TreeView<N>)
    ensures
        tree.is_packed() <==> tree.boxes.len() == 0 || is_stored_by_levels(tree),
{
    if tree.boxes.len() > 0 {
        if tree.is_packed() {
            assert forall|l: int| 0 < l < tree.level_bounds.len() implies #[trigger]
                holds_level_below(tree, l) by {
                assert(tree.groups_level_below(l));
                lemma_holds_level_below(tree, l);
            }
            let top = tree.level_bounds.len() - 1;
            assert(tree.level_bounds[0] % 4 == 0 && tree.level_bounds[top] % 4 == 0);
            if top > 0 {
                assert(tree.level_bounds[top - 1] % 4 == 0);
            }
            assert forall|l: int, q: int| 0 < l && #[trigger] stands_in(tree, l, q) implies
                tree.indices[q] == level_from(tree, l - 1) + (4 * q - level_from(tree, l))
                * tree.node_size by {
                lemma_stored_child(tree, l, q);
            }
        }
        if is_stored_by_levels(tree) {
            assert forall|l: int| 0 < l < tree.num_levels() implies #[trigger]
                tree.groups_level_below(l) by {
                assert(holds_level_below(tree, l));
                lemma_holds_level_below(tree, l);
            }
            let top = tree.level_bounds.len() - 1;
            assert(tree.level_bounds[0] % 4 == 0 && tree.level_bounds[top] % 4 == 0);
            if top > 0 {
                assert(tree.level_bounds[top - 1] % 4 == 0);
            }
            assert(tree.levels_packed());
            assert forall|l: int, q: int| 0 < l && #[trigger] tree.in_level(l, q) implies
                tree.indices[q] == 4 * tree.first_child(l, q) by {
                lemma_stored_child(tree, l, q);
                assert(stands_in(tree, l, q));
            }
        }
    }
}

/// A node belongs to a level of a packed tree where it stands in it, and where its children start.
proof fn lemma_stored_child<N>(tree: TreeView<N>, l: int, q: int)
    requires
        forall|l: int|
            0 <= l < tree.level_bounds.len() ==> #[trigger] tree.level_bounds[l] % 4 == 0,
    ensures
        stands_in(tree, l, q) == tree.in_level(l, q),
        0 < l && stands_in(tree, l, q) ==> 4 * tree.first_child(l, q) == level_from(tree, l - 1) + (
        4 * q - level_from(tree, l)) * tree.node_size,
{
    if 0 <= l < tree.level_bounds.len() {
        assert(tree.level_bounds[l] % 4 == 0);
        if l > 0 {
            assert(tree.level_bounds[l - 1] % 4 == 0);
        }
        if l > 1 {
            assert(tree.level_bounds[l - 2] % 4 == 0);
        }
        if l > 0 {
            let j = q - tree.start(l);
            let size = tree.node_size;
            assert(4 * (j * size) == (4 * j) * size) by (nonlinear_arith);
        }
    }
}

/// In a packed tree whose nodes have the boxes of their children in their own, nodes enclose their
/// children.
pub proof fn lemma_nodes_enclose_children<N: IndexableNum>(tree: TreeView<N>)
    requires
        tree.boxes.len() > 0,
        is_stored_by_levels(tree),
        nodes_hold_children(tree),
    ensures
        tree.is_packed(),
        tree.encloses(),
{
    lemma_packed_trees_are_stored_by_levels(tree);
    assert forall|l: int, p: int| l < tree.top() && #[trigger] tree.in_level(l, p) implies
        tree.box_within(p, tree.parent(l, p)) by {
        tree.lemma_parent(l, p);
        let q = tree.parent(l, p);
        lemma_stored_child(tree, l, p);
        lemma_stored_child(tree, l + 1, q);
        assert(tree.in_level(l + 1, q));
        assert(is_child(tree, l + 1, q, p));
        assert(lies_in(tree, p, q));
    }
}

/// The number of nodes is a quarter of the number of stored values, and nodes before `num_items` are
/// items.
pub proof fn lemma_nodes_are_stored<N>(tree: TreeView<N>)
    requires
        tree.boxes.len() > 0,
        is_stored_by_levels(tree),
    ensures
        4 * tree.num_nodes() == tree.boxes.len(),
        tree.num_items <= tree.num_nodes(),
        forall|p: int| #[trigger] stands_in(tree, 0, p) <==> 0 <= p < tree.num_items,
        forall|l: int, p: int|
            #[trigger] stands_in(tree, l, p) ==> 0 <= p < tree.num_nodes() && (l > 0 ==> p
                >= tree.num_items),
{
    lemma_packed_trees_are_stored_by_levels(tree);
    tree.lemma_levels_ascend(0, tree.top());
    assert forall|l: int, p: int| #[trigger] stands_in(tree, l, p) implies 0 <= p < tree.num_nodes()
        && (l > 0 ==> p >= tree.num_items) by {
        lemma_stored_child(tree, l, p);
        tree.lemma_levels_not_empty(l);
        tree.lemma_levels_ascend(0, l);
        tree.lemma_levels_ascend(l, tree.top());
    }
}

/// What a tree gives access to: the number of its levels and nodes, the four values of each box of a
/// level, and an error for any other level.
pub proof fn lemma_levels_can_be_read<N: IndexableNum, T: RTreeIndex<N>>(
    index: &T,
    level: usize,
    result: Result<&[N], GeoIndexError>,
)
    requires
        index.tree().boxes.len() > 0,
        is_stored_by_levels(index.tree()),
        call_ensures(T::boxes_at_level, (index, level), result),
    ensures
        call_requires(T::boxes_at_level, (index, level)),
        match result {
            Ok(boxes) => {
                &&& level < index.tree().level_bounds.len()
                &&& boxes@.len() == level_width(index.tree(), level as int)
                &&& forall|i: int|
                    0 <= i < boxes@.len() ==> #[trigger] boxes@[i] == index.tree().boxes[level_from(
                        index.tree(),
                        level as int,
                    ) + i]
            },
            Err(error) => level >= index.tree().level_bounds.len() && error
                is General && error->General_0@ == "Level out of bounds"@,
        },
{
    let tree = index.tree();
    lemma_packed_trees_are_stored_by_levels(tree);
    if level < tree.level_bounds.len() {
        tree.lemma_level_offset(level as int);
    }
}

/// The counts of a tree are those of what it stores: a fourth of its values are nodes, and it has a
/// level for each bound.
pub proof fn lemma_counts_can_be_read<N: IndexableNum, T: RTreeIndex<N>>(
    index: &T,
    num_items: u32,
    num_nodes: usize,
    node_size: u16,
    num_levels: usize,
)
    requires
        is_stored_by_levels(index.tree()),
        call_ensures(T::num_items, (index,), num_items),
        call_ensures(T::num_nodes, (index,), num_nodes),
        call_ensures(T::node_size, (index,), node_size),
        call_ensures(T::num_levels, (index,), num_levels),
    ensures
        num_items == index.tree().num_items,
        4 * num_items == index.tree().level_bounds[0],
        4 * num_nodes == index.tree().boxes.len(),
        node_size == index.tree().node_size,
        num_levels == index.tree().level_bounds.len(),
{
    lemma_packed_trees_are_stored_by_levels(index.tree());
    if index.tree().boxes.len() > 0 {
        lemma_nodes_are_stored(index.tree());
    }
}

/// A tree has no more nodes than its last level ends behind, and without levels it has none.
pub proof fn lemma_nodes_can_be_counted<N: IndexableNum, T: RTreeIndex<N>>(
    index: &T,
    num_nodes: usize,
)
    requires
        call_ensures(T::num_nodes, (index,), num_nodes),
    ensures
        index.tree().level_bounds.len() == 0 ==> num_nodes == 0,
        index.tree().level_bounds.len() > 0 ==> 4 * num_nodes <= index.tree().level_bounds.last() < 4
            * num_nodes + 4,
{
}

/// The parts of a tree can be read as they are stored.
pub proof fn lemma_parts_can_be_read<N: IndexableNum, T: RTreeIndex<N>>(
    index: &T,
    boxes: &[N],
    indices: Indices<'_>,
    level_bounds: &[usize],
    metadata: &RTreeMetadata,
)
    requires
        call_ensures(T::boxes, (index,), boxes),
        call_ensures(T::indices, (index,), indices),
        call_ensures(T::level_bounds, (index,), level_bounds),
        call_ensures(T::metadata, (index,), metadata),
    ensures
        boxes@ == index.tree().boxes,
        indices@ == index.tree().indices,
        indices is U32 == index.tree().wide_indices,
        level_bounds@.len() == index.tree().level_bounds.len(),
        forall|l: int|
            0 <= l < level_bounds@.len() ==> #[trigger] level_bounds@[l]
                == index.tree().level_bounds[l],
        metadata.spec_num_items() == index.tree().num_items,
        metadata.spec_node_size() == index.tree().node_size,
        metadata.spec_level_bounds().len() == index.tree().level_bounds.len(),
        forall|l: int|
            0 <= l < index.tree().level_bounds.len() ==> #[trigger] metadata.spec_level_bounds()[l]
                == index.tree().level_bounds[l],
{
}

/// An index is read as it is stored.
pub proof fn lemma_an_index_can_be_read<'a>(indices: Indices<'a>, i: usize, index: usize, len: usize)
    requires
        call_ensures(Indices::<'a>::len, (&indices,), len),
        i < len,
        call_ensures(Indices::<'a>::get, (&indices, i), index),
    ensures
        match indices {
            Indices::U16(stored) => len == stored@.len() && index == stored@[i as int],
            Indices::U32(stored) => len == stored@.len() && index == stored@[i as int],
        },
{
}

/// A description of a tree gives back what it was made with.
pub proof fn lemma_descriptions_give_back(
    num_items: u32,
    node_size: u16,
    level_bounds: Vec<usize>,
    metadata: RTreeMetadata,
    read_items: u32,
    read_size: u16,
    read_bounds: &[usize],
    read_nodes: usize,
)
    requires
        call_ensures(RTreeMetadata::new, (num_items, node_size, level_bounds), metadata),
        call_ensures(RTreeMetadata::num_items, (&metadata,), read_items),
        call_ensures(RTreeMetadata::node_size, (&metadata,), read_size),
        call_ensures(RTreeMetadata::level_bounds, (&metadata,), read_bounds),
        call_ensures(RTreeMetadata::num_nodes, (&metadata,), read_nodes),
    ensures
        read_items == num_items,
        read_size == node_size,
        read_bounds@ == level_bounds@,
        level_bounds@.len() == 0 ==> read_nodes == 0,
        level_bounds@.len() > 0 ==> 4 * read_nodes <= level_bounds@.last() < 4 * read_nodes + 4,
{
}

/// What a tree says of itself is what its parts say, entry by entry.
pub proof fn lemma_parts_make_the_tree<N>(
    boxes: Seq<N>,
    indices: Seq<int>,
    wide: bool,
    metadata: RTreeMetadata,
)
    ensures
        ({
            let tree = tree_of(boxes, indices, wide, metadata);
            &&& tree.boxes == boxes
            &&& tree.indices == indices
            &&& tree.wide_indices == wide
            &&& tree.num_items == metadata.spec_num_items()
            &&& tree.node_size == metadata.spec_node_size()
            &&& tree.level_bounds.len() == metadata.spec_level_bounds().len()
            &&& forall|l: int|
                0 <= l < tree.level_bounds.len() ==> #[trigger] tree.level_bounds[l]
                    == metadata.spec_level_bounds()[l]
            &&& describes(metadata, tree)
        }),
{
}

/// Parts make a tree where, and only where, they are stored level by level or empty.
pub proof fn lemma_trees_are_made_of_parts<N: IndexableNum>(
    boxes: Vec<N>,
    indices: IndexBuffer,
    metadata: RTreeMetadata,
    result: Result<RTree<N>, GeoIndexError>,
)
    requires
        call_ensures(RTree::<N>::try_new, (boxes, indices, metadata), result),
    ensures
        result is Ok <==> boxes@.len() == 0 || is_stored_by_levels(
            tree_of(boxes@, indices@, indices is U32, metadata),
        ),
        result matches Ok(tree) ==> tree.tree() == tree_of(
            boxes@,
            indices@,
            indices is U32,
            metadata,
        ),
        result matches Err(error) ==> error is General && error->General_0@
            == "Tree is not packed"@,
{
    lemma_packed_trees_are_stored_by_levels(tree_of(boxes@, indices@, indices is U32, metadata));
}

/// Parts that stand elsewhere make a tree where, and only where, they are stored level by level or
/// empty.
pub proof fn lemma_trees_are_made_of_borrowed_parts<'a, N: IndexableNum>(
    boxes: &'a [N],
    indices: Indices<'a>,
    metadata: RTreeMetadata,
    result: Result<RTreeRef<'a, N>, GeoIndexError>,
)
    requires
        call_ensures(RTreeRef::<'a, N>::try_new, (boxes, indices, metadata), result),
    ensures
        result is Ok <==> boxes@.len() == 0 || is_stored_by_levels(
            tree_of(boxes@, indices@, indices is U32, metadata),
        ),
        result matches Ok(tree) ==> tree.tree() == tree_of(
            boxes@,
            indices@,
            indices is U32,
            metadata,
        ),
        result matches Err(error) ==> error is General && error->General_0@
            == "Tree is not packed"@,
{
    lemma_packed_trees_are_stored_by_levels(tree_of(boxes@, indices@, indices is U32, metadata));
}

/// Indices of either width are the numbers that are stored.
pub proof fn lemma_indices_are_stored<'a>(
    narrow: &'a [u16],
    wide: &'a [u32],
    owned_narrow: Vec<u16>,
    owned_wide: Vec<u32>,
)
    ensures
        Indices::U16(narrow)@.len() == narrow@.len(),
        forall|i: int|
            0 <= i < narrow@.len() ==> #[trigger] Indices::U16(narrow)@[i] == narrow@[i],
        Indices::U32(wide)@.len() == wide@.len(),
        forall|i: int| 0 <= i < wide@.len() ==> #[trigger] Indices::U32(wide)@[i] == wide@[i],
        IndexBuffer::U16(owned_narrow)@.len() == owned_narrow@.len(),
        forall|i: int|
            0 <= i < owned_narrow@.len() ==> #[trigger] IndexBuffer::U16(owned_narrow)@[i]
                == owned_narrow@[i],
        IndexBuffer::U32(owned_wide)@.len() == owned_wide@.len(),
        forall|i: int|
            0 <= i < owned_wide@.len() ==> #[trigger] IndexBuffer::U32(owned_wide)@[i]
                == owned_wide@[i],
{
}

/// Mutable indices of either width are the numbers that are stored.
pub proof fn lemma_mutable_indices_are_stored<'a>(indices: MutableIndices<'a>)
    ensures
        match indices {
            MutableIndices::U16(stored) => {
                &&& indices@.len() == stored@.len()
                &&& forall|i: int| 0 <= i < stored@.len() ==> #[trigger] indices@[i] == stored@[i]
            },
            MutableIndices::U32(stored) => {
                &&& indices@.len() == stored@.len()
                &&& forall|i: int| 0 <= i < stored@.len() ==> #[trigger] indices@[i] == stored@[i]
            },
        },
{
}

} // verus!
