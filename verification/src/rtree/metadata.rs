//! The numbers that describe a tree.

use vstd::prelude::*;

verus! {

/// The numbers that describe a tree.
#[derive(Debug, Clone, PartialEq, Eq)]
pub struct RTreeMetadata {
    node_size: u16,
    num_items: u32,
    level_bounds: Vec<usize>,
}

impl RTreeMetadata {
    /// The maximum number of children of a node.
    pub closed spec fn spec_node_size(self) -> u16 {
        self.node_size
    }

    /// The number of items.
    pub closed spec fn spec_num_items(self) -> u32 {
        self.num_items
    }

    /// Where each level ends.
    pub closed spec fn spec_level_bounds(self) -> Seq<usize> {
        self.level_bounds@
    }

    /// Creates the description of a tree.
    pub fn new(num_items: u32, node_size: u16, level_bounds: Vec<usize>) -> (metadata: Self)
        ensures
            metadata.spec_num_items() == num_items,
            metadata.spec_node_size() == node_size,
            metadata.spec_level_bounds() == level_bounds@,
    {
        RTreeMetadata { node_size, num_items, level_bounds }
    }

    /// The maximum number of children of a node.
    pub fn node_size(&self) -> (node_size: u16)
        ensures
            node_size == self.spec_node_size(),
    {
        self.node_size
    }

    /// The number of items.
    pub fn num_items(&self) -> (num_items: u32)
        ensures
            num_items == self.spec_num_items(),
    {
        self.num_items
    }

    /// The number of nodes, items included.
    pub fn num_nodes(&self) -> (num_nodes: usize)
        ensures
            num_nodes == if self.spec_level_bounds().len() == 0 {
                0
            } else {
                self.spec_level_bounds().last() / 4
            },
    {
        let levels = self.level_bounds.len();
        if levels == 0 {
            0
        } else {
            self.level_bounds[levels - 1] / 4
        }
    }

    /// The offsets at which the levels end.
    pub fn level_bounds(&self) -> (level_bounds: &[usize])
        ensures
            level_bounds@ == self.spec_level_bounds(),
    {
        self.level_bounds.as_slice()
    }
}

} // verus!
