//! The trees themselves.

use crate::error::GeoIndexError;
use crate::indices::Indices;
use crate::num::IndexableNum;
use crate::rtree::index::{bounds_are, RTreeIndex};
use crate::rtree::layout::{ceil_div, TreeView};
use crate::rtree::metadata::RTreeMetadata;
use vstd::prelude::*;

verus! {

/// The indices of a tree that owns its data.
pub enum IndexBuffer {
    /// Indices of 16 bits each.
    U16(Vec<u16>),
    /// Indices of 32 bits each.
    U32(Vec<u32>),
}

impl View for IndexBuffer {
    type V = Seq<int>;

    open spec fn view(&self) -> Seq<int> {
        match *self {
            IndexBuffer::U16(indices) => Seq::new(indices@.len(), |i: int| indices@[i] as int),
            IndexBuffer::U32(indices) => Seq::new(indices@.len(), |i: int| indices@[i] as int),
        }
    }
}

impl IndexBuffer {
    /// Whether the indices have 32 bits each.
    pub open spec fn is_wide(self) -> bool {
        self is U32
    }

    /// The indices.
    pub fn as_indices(&self) -> (indices: Indices<'_>)
        ensures
            indices@ == self@,
            indices.is_wide() == self.is_wide(),
    {
        let indices = match self {
            IndexBuffer::U16(indices) => Indices::U16(indices.as_slice()),
            IndexBuffer::U32(indices) => Indices::U32(indices.as_slice()),
        };
        assert(indices@ =~= self@);
        indices
    }
}

/// What a tree with the given parts holds.
pub open spec fn tree_of<N>(
    boxes: Seq<N>,
    indices: Seq<int>,
    wide_indices: bool,
    metadata: RTreeMetadata,
) -> TreeView<N> {
    let bounds = metadata.spec_level_bounds();
    TreeView {
        boxes,
        indices,
        wide_indices,
        num_items: metadata.spec_num_items() as int,
        node_size: metadata.spec_node_size() as int,
        level_bounds: Seq::new(bounds.len(), |i: int| bounds[i] as int),
    }
}

/// Whether the levels are those of a packed tree.
fn levels_are_packed<N>(boxes: &[N], metadata: &RTreeMetadata, Ghost(tree): Ghost<TreeView<N>>) -> (packed:
    bool)
    requires
        tree == tree_of(boxes@, tree.indices, tree.wide_indices, *metadata),
    ensures
        packed == tree.levels_packed(),
{
    let node_size = metadata.node_size() as usize;
    let num_items = metadata.num_items() as usize;
    let bounds = metadata.level_bounds();
    let num_nodes = boxes.len() / 4;
    let num_levels = bounds.len();
    if num_items == 0 || node_size == 0 || num_levels == 0 || boxes.len() % 4 != 0 {
        return false;
    }
    if bounds[0] % 4 != 0 || bounds[0] / 4 != num_items {
        assert(tree.level_bounds[0] == bounds@[0]);
        return false;
    }
    let mut level: usize = 0;
    let mut count = num_items;
    assert(tree.level_bounds[0] == bounds@[0]);
    while level + 1 < num_levels
        invariant
            tree == tree_of(boxes@, tree.indices, tree.wide_indices, *metadata),
            bounds@ == metadata.spec_level_bounds(),
            num_levels == bounds@.len(),
            level < num_levels,
            node_size == tree.node_size,
            0 < node_size <= u16::MAX,
            count == tree.count(level as int),
            count > 0,
            forall|l: int| 0 <= l <= level ==> #[trigger] tree.level_bounds[l] % 4 == 0,
            forall|l: int| 0 < l <= level ==> #[trigger] tree.groups_level_below(l),
        decreases num_levels - level,
    {
        let end = bounds[level + 1];
        let start = bounds[level] / 4;
        assert(tree.level_bounds[level + 1] == end);
        assert(tree.level_bounds[level as int] == bounds@[level as int]);
        if end % 4 != 0 {
            return false;
        }
        let needed: usize = (count + node_size - 1) / node_size;
        assert(needed == ceil_div(count as int, node_size as int));
        if end / 4 < start || end / 4 - start != needed {
            proof {
                assert(!tree.groups_level_below(level + 1));
            }
            return false;
        }
        proof {
            assert(tree.groups_level_below(level + 1));
            assert(needed > 0) by {
                vstd::arithmetic::div_mod::lemma_div_non_zero(
                    count + node_size - 1,
                    node_size as int,
                );
            }
        }
        count = needed;
        level += 1;
    }
    assert(tree.level_bounds[level as int] == bounds@[level as int]);
    count == 1 && bounds[level] / 4 == num_nodes
}

/// Whether the nodes that are not items store where their children start.
fn children_are_stored<N>(
    indices: &Indices<'_>,
    metadata: &RTreeMetadata,
    Ghost(tree): Ghost<TreeView<N>>,
) -> (stored: bool)
    requires
        tree == tree_of(tree.boxes, indices@, indices.is_wide(), *metadata),
        tree.levels_packed(),
        tree.boxes.len() <= isize::MAX,
        tree.indices.len() == tree.num_nodes(),
    ensures
        stored == (forall|l: int, p: int|
            0 < l && #[trigger] tree.in_level(l, p) ==> tree.indices[p] == 4 * tree.first_child(
                l,
                p,
            )),
{
    let node_size = metadata.node_size() as usize;
    let bounds = metadata.level_bounds();
    assert(bounds_are(bounds@, tree.level_bounds));
    let mut level: usize = 1;
    while level < bounds.len()
        invariant
            tree == tree_of(tree.boxes, indices@, indices.is_wide(), *metadata),
            tree.levels_packed(),
            tree.boxes.len() <= isize::MAX,
            tree.indices.len() == tree.num_nodes(),
            bounds_are(bounds@, tree.level_bounds),
            node_size == tree.node_size,
            1 <= level <= bounds@.len(),
            forall|l: int, p: int|
                0 < l < level && #[trigger] tree.in_level(l, p) ==> tree.indices[p] == 4
                    * tree.first_child(l, p),
        decreases bounds@.len() - level,
    {
        let start = bounds[level - 1] / 4;
        let end = bounds[level] / 4;
        let below: usize = if level == 1 {
            0
        } else {
            bounds[level - 2] / 4
        };
        let mut p = start;
        let mut child = below;
        proof {
            assert(start == tree.start(level as int));
            assert(end == tree.end(level as int));
            assert(below == tree.start(level - 1));
            tree.lemma_levels_not_empty(level as int);
            tree.lemma_levels_ascend(level as int, tree.top());
            assert(child == tree.first_child(level as int, p as int)) by (nonlinear_arith)
                requires
                    child == tree.start(level - 1),
                    p == tree.start(level as int),
                    tree.first_child(level as int, p as int) == tree.start(level - 1) + (p
                        - tree.start(level as int)) * tree.node_size,
            ;
        }
        while p < end
            invariant
                tree == tree_of(tree.boxes, indices@, indices.is_wide(), *metadata),
                tree.levels_packed(),
                tree.boxes.len() <= isize::MAX,
                tree.indices.len() == tree.num_nodes(),
                node_size == tree.node_size,
                node_size <= u16::MAX,
                1 <= level < tree.num_levels(),
                start == tree.start(level as int),
                end == tree.end(level as int) <= tree.num_nodes(),
                start <= p <= end,
                child == tree.first_child(level as int, p as int),
                forall|l: int, p: int|
                    0 < l < level && #[trigger] tree.in_level(l, p) ==> tree.indices[p] == 4
                        * tree.first_child(l, p),
                forall|q: int|
                    start <= q < p ==> #[trigger] tree.indices[q] == 4 * tree.first_child(
                        level as int,
                        q,
                    ),
            decreases end - p,
        {
            proof {
                assert(tree.in_level(level as int, p as int));
                tree.lemma_children(level as int, p as int);
                assert(tree.in_level(level - 1, child as int));
                tree.lemma_levels_ascend(level - 1, tree.top());
            }
            if indices.get(p) != child * 4 {
                return false;
            }
            proof {
                let j = p - start;
                assert((j + 1) * tree.node_size == j * tree.node_size + tree.node_size)
                    by (nonlinear_arith);
            }
            child += node_size;
            p += 1;
        }
        level += 1;
    }
    true
}

/// Whether boxes, indices and metadata are those of a packed tree.
fn is_packed<N>(boxes: &[N], indices: &Indices<'_>, metadata: &RTreeMetadata) -> (packed: bool)
    ensures
        packed == tree_of(boxes@, indices@, indices.is_wide(), *metadata).is_packed(),
{
    let ghost tree = tree_of(boxes@, indices@, indices.is_wide(), *metadata);
    boxes.len() == 0 || levels_are_packed(boxes, metadata, Ghost(tree)) && boxes.len()
        <= isize::MAX as usize && indices.len() == boxes.len() / 4 && children_are_stored::<N>(
        indices,
        metadata,
        Ghost(tree),
    )
}

/// An R-tree that owns its data.
pub struct RTree<N: IndexableNum> {
    boxes: Vec<N>,
    indices: IndexBuffer,
    metadata: RTreeMetadata,
}

impl<N: IndexableNum> RTree<N> {
    /// A tree of the given boxes, indices and metadata, or an error where they are not those of a
    /// packed tree.
    pub fn try_new(boxes: Vec<N>, indices: IndexBuffer, metadata: RTreeMetadata) -> (result: Result<
        Self,
        GeoIndexError,
    >)
        ensures
            match result {
                Ok(tree) => {
                    &&& tree.tree() == tree_of(boxes@, indices@, indices.is_wide(), metadata)
                    &&& tree.tree().is_packed()
                },
                Err(error) => {
                    &&& !tree_of(boxes@, indices@, indices.is_wide(), metadata).is_packed()
                    &&& error.message() == "Tree is not packed"@
                },
            },
    {
        if is_packed(boxes.as_slice(), &indices.as_indices(), &metadata) {
            Ok(RTree { boxes, indices, metadata })
        } else {
            Err(GeoIndexError::General("Tree is not packed".to_owned()))
        }
    }
}

impl<N: IndexableNum> RTreeIndex<N> for RTree<N> {
    closed spec fn tree(&self) -> TreeView<N> {
        tree_of(self.boxes@, self.indices@, self.indices.is_wide(), self.metadata)
    }

    fn boxes(&self) -> &[N] {
        self.boxes.as_slice()
    }

    fn indices(&self) -> Indices<'_> {
        self.indices.as_indices()
    }

    fn metadata(&self) -> &RTreeMetadata {
        &self.metadata
    }
}

/// An R-tree over data that stands elsewhere.
pub struct RTreeRef<'a, N: IndexableNum> {
    boxes: &'a [N],
    indices: Indices<'a>,
    metadata: RTreeMetadata,
}

impl<'a, N: IndexableNum> RTreeRef<'a, N> {
    /// A tree over the given boxes, indices and metadata, or an error where they are not those of a
    /// packed tree.
    pub fn try_new(boxes: &'a [N], indices: Indices<'a>, metadata: RTreeMetadata) -> (result: Result<
        Self,
        GeoIndexError,
    >)
        ensures
            match result {
                Ok(tree) => {
                    &&& tree.tree() == tree_of(boxes@, indices@, indices.is_wide(), metadata)
                    &&& tree.tree().is_packed()
                },
                Err(error) => {
                    &&& !tree_of(boxes@, indices@, indices.is_wide(), metadata).is_packed()
                    &&& error.message() == "Tree is not packed"@
                },
            },
    {
        if is_packed(boxes, &indices, &metadata) {
            Ok(RTreeRef { boxes, indices, metadata })
        } else {
            Err(GeoIndexError::General("Tree is not packed".to_owned()))
        }
    }
}

impl<'a, N: IndexableNum> RTreeIndex<N> for RTreeRef<'a, N> {
    closed spec fn tree(&self) -> TreeView<N> {
        tree_of(self.boxes@, self.indices@, self.indices.is_wide(), self.metadata)
    }

    fn boxes(&self) -> &[N] {
        self.boxes
    }

    fn indices(&self) -> Indices<'_> {
        self.indices
    }

    fn metadata(&self) -> &RTreeMetadata {
        &self.metadata
    }
}

} // verus!
