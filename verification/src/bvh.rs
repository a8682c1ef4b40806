//! When a bounding volume hierarchy stops splitting.
use vstd::prelude::*;

verus! {

/// The criteria for stopping the growth of a BVH tree.
#[derive(Clone, Copy, Debug, PartialEq, Eq, Hash, Structural)]
pub enum TreeStopCriteria {
    MaxPrimitivesPerLeaf(usize),
    MaxDepth(u32),
    AlwaysStop,
}

impl Default for TreeStopCriteria {
    /// At most 1024 primitives per leaf.
    fn default() -> (res: TreeStopCriteria)
        ensures
            res == TreeStopCriteria::MaxPrimitivesPerLeaf(1024),
    {
        TreeStopCriteria::MaxPrimitivesPerLeaf(1024)
    }
}

/// Whether a node of `primitive_count` primitives at depth `cur_depth` is a leaf.
pub open spec fn stops(criteria: TreeStopCriteria, primitive_count: usize, cur_depth: u32) -> bool {
    match criteria {
        TreeStopCriteria::AlwaysStop => true,
        TreeStopCriteria::MaxPrimitivesPerLeaf(x) => primitive_count <= x,
        TreeStopCriteria::MaxDepth(x) => cur_depth >= x,
    }
}

impl TreeStopCriteria {
    /// Returns `true` if the tree should stop growing at a node of `primitive_count`
    /// primitives at depth `cur_depth`.
    pub fn should_stop(&self, primitive_count: usize, cur_depth: u32) -> (res: bool)
        ensures
            res == stops(*self, primitive_count, cur_depth),
    {
        match self {
            TreeStopCriteria::AlwaysStop => true,
            TreeStopCriteria::MaxPrimitivesPerLeaf(x) => primitive_count <= *x,
            TreeStopCriteria::MaxDepth(x) => cur_depth >= *x,
        }
    }
}

/// Growing stops for good: a node that stops stays a leaf with fewer primitives or at a
/// greater depth.
pub proof fn lemma_stop_is_monotone(
    criteria: TreeStopCriteria,
    count: usize,
    depth: u32,
    fewer: usize,
    deeper: u32,
)
    requires
        stops(criteria, count, depth),
        fewer <= count,
        deeper >= depth,
    ensures
        stops(criteria, fewer, deeper),
{
}

} // verus!
