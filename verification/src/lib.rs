//! A three-dimensional k-d tree over integer coordinates, with range
//! searches over axis-aligned boxes and a cursor over the reported indices.
pub mod geometry;
pub mod iterator;
pub mod sorting;
pub mod tree;

pub use geometry::{Boundaries, DataPoint, Space};
pub use iterator::{
    KDTREE_END, KdtreeIterator, kdtree_iterator_delete, kdtree_iterator_get_next,
    kdtree_iterator_rewind, kdtree_iterator_sort,
};
pub use tree::{Kdtree, TreeNode, kdtree_build, kdtree_delete, kdtree_search, kdtree_search_space};
