# kdtree

A three-dimensional k-d tree with box and cube range searches, written in
Verus and verified.

- `src/geometry.rs`: points, axis-aligned boxes, the comparisons by axis, the
  box tests used to prune a search, and `select`, the specification of what a
  search reports.
- `src/sorting.rs`: the insertion sorts used to find the median of a group of
  points and to order search results.
- `src/tree.rs`: building the tree (median split, axes in turn, nodes in one
  array) and searching it; the main law `lemma_search_reports_inputs`.
- `src/iterator.rs`: the cursor over the reported indices.
- `app/main.rs`: a program that runs the reference scenario on
  floating-point coordinates, mapping each coordinate to an integer of the
  same order before it reaches the tree.

Coordinates in the library are `i64`. A search over the box
`[x_min, x_max] x [y_min, y_max] x [z_min, z_max]` reports, for a tree built
from points `0..count`, exactly the indices of the points inside the box,
each once.
