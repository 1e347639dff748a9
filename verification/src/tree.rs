use vstd::prelude::*;
use crate::geometry::{
    DataPoint, NDIMS, Space, box_of, completely_enclosed, cube, cube_high, cube_low, full_space,
    ids, in_space, key, lemma_box_membership, lemma_cube_membership, lemma_select_all, lemma_select_concat, lemma_select_members,
    lemma_select_no_duplicates, lemma_select_none, point_in_search_space, search_area_intersects,
    select,
};
use crate::iterator::KdtreeIterator;
use crate::sorting::{lemma_range_items_compose, lemma_sort_by_key, range_items, sort_by_key, sort_points_on_axis};

verus! {

/// A node of the tree. A leaf holds the position of one point in the
/// tree's point array; a branch splits the space of its subtree at `split`
/// on the axis given by its depth, with the points at or below the split on
/// the `left` and those at or above it on the `right`.
#[derive(Clone, Copy, Debug, PartialEq, Eq, Structural)]
pub enum TreeNode {
    Leaf { idx: usize },
    Branch { split: i64, left: usize, right: usize },
}

/// A three-dimensional k-d tree. The nodes live in one array and are
/// numbered in the order in which they were created, so that every child
/// comes after its parent.
pub struct Kdtree {
    count: u64,
    max_nodes: usize,
    points: Vec<DataPoint>,
    node_data: Vec<TreeNode>,
    root: usize,
}

/// The positions in the point array of the leaves below node `c`, from
/// left to right.
pub open spec fn leaves(nodes: Seq<TreeNode>, c: int) -> Seq<int>
    decreases nodes.len() - c,
{
    if 0 <= c < nodes.len() {
        match nodes[c] {
            TreeNode::Leaf { idx } => seq![idx as int],
            TreeNode::Branch { left, right, .. } => {
                if c < left < nodes.len() && c < right < nodes.len() {
                    leaves(nodes, left as int) + leaves(nodes, right as int)
                } else {
                    Seq::empty()
                }
            },
        }
    } else {
        Seq::empty()
    }
}

/// The points at the leaves below node `c`, from left to right.
pub open spec fn leaf_points(nodes: Seq<TreeNode>, points: Seq<DataPoint>, c: int) -> Seq<
    DataPoint,
> {
    leaves(nodes, c).map_values(|j: int| points[j])
}

/// Node `c`, built at `depth`, heads a proper subtree whose points lie in
/// `dom`: every branch has both children after it in the array, its split
/// lies within the domain on its axis (depth modulo 3), the left subtree
/// lies in the domain cut above at the split and the right one in the
/// domain cut below at the split, and every leaf names a point of the
/// domain.
pub open spec fn subtree_ok(
    nodes: Seq<TreeNode>,
    points: Seq<DataPoint>,
    c: int,
    depth: int,
    dom: Space,
) -> bool
    decreases nodes.len() - c,
{
    if 0 <= c < nodes.len() {
        match nodes[c] {
            TreeNode::Leaf { idx } => idx < points.len() && in_space(points[idx as int], dom),
            TreeNode::Branch { split, left, right } => {
                let a = depth % 3;
                if c < left < nodes.len() && c < right < nodes.len() {
                    &&& dom.bound(a).min <= split <= dom.bound(a).max
                    &&& subtree_ok(nodes, points, left as int, depth + 1, dom.with_max(a, split))
                    &&& subtree_ok(nodes, points, right as int, depth + 1, dom.with_min(a, split))
                } else {
                    false
                }
            },
        }
    } else {
        false
    }
}

/// The axis on which a branch at `depth` splits.
pub open spec fn axis_of(depth: int) -> u64 {
    (depth % 3) as u64
}

/// Below node `c`, built at `depth`, every branch with `n` leaves has
/// `(n + 1) / 2` of them on its left, and some point on its left has the
/// split as its coordinate on the branch's axis. With the k-d ordering of
/// `subtree_ok` this makes every split the lower median of its points: at
/// least `(n + 1) / 2` of them lie at or below it and at most `(n - 1) / 2`
/// strictly below.
pub open spec fn splits_ok(nodes: Seq<TreeNode>, points: Seq<DataPoint>, c: int, depth: int) -> bool
    decreases nodes.len() - c,
{
    if 0 <= c < nodes.len() {
        match nodes[c] {
            TreeNode::Leaf { .. } => true,
            TreeNode::Branch { split, left, right } => {
                if c < left < nodes.len() && c < right < nodes.len() {
                    &&& leaves(nodes, left as int).len() == (leaves(nodes, c).len() + 1) / 2
                    &&& exists|k: int|
                        0 <= k < leaves(nodes, left as int).len() && #[trigger] key(
                            points[leaves(nodes, left as int)[k]],
                            axis_of(depth),
                        ) == split
                    &&& splits_ok(nodes, points, left as int, depth + 1)
                    &&& splits_ok(nodes, points, right as int, depth + 1)
                } else {
                    false
                }
            },
        }
    } else {
        false
    }
}

/// The points of a group as the build leaves them when it starts at
/// `depth`: a single point stays; otherwise the group is sorted on the axis
/// of `depth` (keeping the order of equal coordinates), its first
/// `(n + 1) / 2` points are arranged at `depth + 1` and followed by the rest,
/// arranged at `depth + 1`.
pub open spec fn arranged(s: Seq<DataPoint>, depth: int) -> Seq<DataPoint>
    decreases s.len(),
{
    if s.len() <= 1 {
        s
    } else {
        let t = sort_by_key(s, axis_of(depth));
        let m = (s.len() - 1) / 2;
        proof {
            lemma_sort_by_key(s, axis_of(depth));
        }
        arranged(t.subrange(0, m + 1), depth + 1) + arranged(
            t.subrange(m + 1, s.len() as int),
            depth + 1,
        )
    }
}

/// The nodes the build creates, in order, for the group `s` of points that
/// starts at position `from` of the point array, at `depth`, with its first
/// node stored in slot `base`: a leaf naming `from` for a single point;
/// otherwise a branch splitting at the coordinate of the lower median
/// `sort_by_key(s)[(n - 1) / 2]`, followed by the nodes of its left group
/// (the first `(n + 1) / 2` sorted points) and those of its right group.
pub open spec fn tree_nodes(s: Seq<DataPoint>, from: int, depth: int, base: int) -> Seq<TreeNode>
    decreases s.len(),
{
    if s.len() <= 1 {
        seq![TreeNode::Leaf { idx: from as usize }]
    } else {
        let a = axis_of(depth);
        let t = sort_by_key(s, a);
        let m = (s.len() - 1) / 2;
        proof {
            lemma_sort_by_key(s, a);
        }
        let ln = tree_nodes(t.subrange(0, m + 1), from, depth + 1, base + 1);
        let rn = tree_nodes(t.subrange(m + 1, s.len() as int), from + m + 1, depth + 1, base + 1 + ln.len());
        seq![TreeNode::Branch { split: key(t[m], a), left: (base + 1) as usize, right: (base + 1 + ln.len()) as usize }] + ln + rn
    }
}

/// The input points as `kdtree_build` reads them: point `i` has the
/// coordinates `x[i]`, `y[i]`, `z[i]` and the index `i`.
pub open spec fn input_points(x: Seq<i64>, y: Seq<i64>, z: Seq<i64>, n: nat) -> Seq<DataPoint> {
    Seq::new(n, |i: int| DataPoint { x: x[i], y: y[i], z: z[i], idx: i as u64 })
}

impl View for Kdtree {
    type V = Seq<DataPoint>;

    /// The stored points, in the order of the tree's point array.
    closed spec fn view(&self) -> Seq<DataPoint> {
        self.points@
    }
}

impl Kdtree {
    /// The number of points the tree was built from.
    pub closed spec fn point_count(&self) -> u64 {
        self.count
    }

    /// The node array; each child comes after its parent.
    pub closed spec fn nodes(&self) -> Seq<TreeNode> {
        self.node_data@
    }

    /// The slot of the root in the node array.
    pub closed spec fn root_index(&self) -> int {
        self.root as int
    }

    /// The number of node slots the tree was sized for.
    pub closed spec fn node_capacity(&self) -> nat {
        self.max_nodes as nat
    }

    /// The tree is fully built: it holds `count` (at least two) points and
    /// `2 * count - 1` nodes, every slot used, with a branch at the root in
    /// slot 0; its leaves name every point position `0..count` once, from
    /// left to right; below every branch the k-d ordering holds
    /// (`subtree_ok`) and the split is the lower median of its points
    /// (`splits_ok`); and the point indices are below `count`.
    pub open spec fn wf(&self) -> bool {
        &&& self.point_count() > 1
        &&& self@.len() == self.point_count()
        &&& self.node_capacity() == 2 * self.point_count() - 1
        &&& self.nodes().len() == self.node_capacity()
        &&& self.root_index() == 0
        &&& self.nodes()[0] is Branch
        &&& subtree_ok(self.nodes(), self@, 0, 0, full_space())
        &&& splits_ok(self.nodes(), self@, 0, 0)
        &&& leaves(self.nodes(), 0) == Seq::new(self.point_count() as nat, |k: int| k)
        &&& forall|k: int| 0 <= k < self@.len() ==> #[trigger] self@[k].idx < self.point_count()
        &&& forall|a: int, b: int|
            0 <= a < self@.len() && 0 <= b < self@.len() && a != b ==> #[trigger] self@[a].idx
                != #[trigger] self@[b].idx
    }

    /// The number of points the tree was built from.
    pub fn count(&self) -> (n: u64)
        ensures
            n == self.point_count(),
    {
        self.count
    }

    /// The slot of the root.
    pub fn root(&self) -> (r: usize)
        ensures
            r == self.root_index(),
    {
        self.root
    }

    /// The number of node slots the tree was sized for.
    pub fn max_nodes(&self) -> (n: usize)
        ensures
            n == self.node_capacity(),
    {
        self.max_nodes
    }

    /// The number of nodes in use.
    pub fn node_count(&self) -> (n: usize)
        ensures
            n == self.nodes().len(),
    {
        self.node_data.len()
    }

    /// The node in slot `i`.
    pub fn node(&self, i: usize) -> (n: TreeNode)
        requires
            i < self.nodes().len(),
        ensures
            n == self.nodes()[i as int],
    {
        self.node_data[i]
    }

    /// The point at position `i` of the point array.
    pub fn point(&self, i: usize) -> (p: DataPoint)
        requires
            i < self@.len(),
        ensures
            p == self@[i as int],
    {
        self.points[i]
    }
}

/// Every leaf below a proper subtree names a point of its domain.
proof fn lemma_leaves_in_dom(
    nodes: Seq<TreeNode>,
    points: Seq<DataPoint>,
    c: int,
    depth: int,
    dom: Space,
)
    requires
        subtree_ok(nodes, points, c, depth, dom),
    ensures
        forall|k: int|
            0 <= k < leaves(nodes, c).len() ==> {
                &&& 0 <= #[trigger] leaves(nodes, c)[k] < points.len()
                &&& in_space(points[leaves(nodes, c)[k]], dom)
            },
    decreases nodes.len() - c,
{
    match nodes[c] {
        TreeNode::Leaf { idx } => {},
        TreeNode::Branch { split, left, right } => {
            let a = depth % 3;
            let dl = dom.with_max(a, split);
            let dr = dom.with_min(a, split);
            lemma_leaves_in_dom(nodes, points, left as int, depth + 1, dl);
            lemma_leaves_in_dom(nodes, points, right as int, depth + 1, dr);
            let ll = leaves(nodes, left as int);
            let lr = leaves(nodes, right as int);
            assert forall|k: int| 0 <= k < leaves(nodes, c).len() implies {
                &&& 0 <= #[trigger] leaves(nodes, c)[k] < points.len()
                &&& in_space(points[leaves(nodes, c)[k]], dom)
            } by {
                if k < ll.len() {
                    assert(leaves(nodes, c)[k] == ll[k]);
                } else {
                    assert(leaves(nodes, c)[k] == lr[k - ll.len()]);
                }
            }
        },
    }
}

/// A proper subtree stays proper, with the same leaves, when the node array
/// keeps every node from `c` on and may grow, and the point array keeps the
/// points at the subtree's leaves.
proof fn lemma_subtree_frame(
    n1: Seq<TreeNode>,
    p1: Seq<DataPoint>,
    n2: Seq<TreeNode>,
    p2: Seq<DataPoint>,
    c: int,
    depth: int,
    dom: Space,
)
    requires
        subtree_ok(n1, p1, c, depth, dom),
        n1.len() <= n2.len(),
        forall|k: int| c <= k < n1.len() ==> #[trigger] n2[k] == n1[k],
        p1.len() == p2.len(),
        forall|k: int|
            0 <= k < leaves(n1, c).len() ==> p2[#[trigger] leaves(n1, c)[k]] == p1[leaves(
                n1,
                c,
            )[k]],
    ensures
        subtree_ok(n2, p2, c, depth, dom),
        leaves(n2, c) == leaves(n1, c),
        splits_ok(n1, p1, c, depth) ==> splits_ok(n2, p2, c, depth),
    decreases n1.len() - c,
{
    assert(n2[c] == n1[c]);
    match n1[c] {
        TreeNode::Leaf { idx } => {
            assert(leaves(n1, c)[0] == idx as int);
        },
        TreeNode::Branch { split, left, right } => {
            let a = depth % 3;
            let ll = leaves(n1, left as int);
            let lr = leaves(n1, right as int);
            assert forall|k: int| 0 <= k < ll.len() implies p2[#[trigger] ll[k]] == p1[ll[k]] by {
                assert(leaves(n1, c)[k] == ll[k]);
            }
            assert forall|k: int| 0 <= k < lr.len() implies p2[#[trigger] lr[k]] == p1[lr[k]] by {
                assert(leaves(n1, c)[ll.len() + k] == lr[k]);
            }
            lemma_subtree_frame(n1, p1, n2, p2, left as int, depth + 1, dom.with_max(a, split));
            lemma_subtree_frame(n1, p1, n2, p2, right as int, depth + 1, dom.with_min(a, split));
            if splits_ok(n1, p1, c, depth) {
                let k = choose|k: int|
                    0 <= k < ll.len() && #[trigger] key(p1[ll[k]], axis_of(depth)) == split;
                assert(key(p2[leaves(n2, left as int)[k]], axis_of(depth)) == split);
            }
        },
    }
}

/// If a range of points keeps its multiset and every point of it lay in a
/// box before, every point of it lies in that box after.
proof fn lemma_range_keeps_space(
    p1: Seq<DataPoint>,
    p2: Seq<DataPoint>,
    lo: usize,
    hi: usize,
    dom: Space,
)
    requires
        lo <= hi < p1.len(),
        p1.len() == p2.len(),
        range_items(p2, lo, hi) == range_items(p1, lo, hi),
        forall|k: int| lo <= k <= hi ==> in_space(#[trigger] p1[k], dom),
    ensures
        forall|k: int| lo <= k <= hi ==> in_space(#[trigger] p2[k], dom),
{
    let s1 = p1.subrange(lo as int, hi + 1);
    let s2 = p2.subrange(lo as int, hi + 1);
    s1.to_multiset_ensures();
    s2.to_multiset_ensures();
    assert forall|k: int| lo <= k <= hi implies in_space(#[trigger] p2[k], dom) by {
        let v = p2[k];
        assert(s2[k - lo] == v);
        assert(s2.contains(v));
        assert(s2.to_multiset() == range_items(p2, lo, hi));
        assert(s1.to_multiset() == range_items(p1, lo, hi));
        assert(s2.to_multiset().count(v) > 0);
        assert(s1.to_multiset().count(v) > 0);
        assert(s1.contains(v));
        let i = choose|i: int| 0 <= i < s1.len() && s1[i] == v;
        assert(p1[lo + i] == v);
    }
}

/// A range that keeps its multiset still holds, somewhere, each point it held.
proof fn lemma_range_member(p1: Seq<DataPoint>, p2: Seq<DataPoint>, lo: usize, hi: usize, k: int)
    requires
        lo <= k <= hi < p1.len(),
        p1.len() == p2.len(),
        range_items(p2, lo, hi) == range_items(p1, lo, hi),
    ensures
        exists|k2: int| lo <= k2 <= hi && p2[k2] == p1[k],
{
    let s1 = p1.subrange(lo as int, hi + 1);
    let s2 = p2.subrange(lo as int, hi + 1);
    s1.to_multiset_ensures();
    s2.to_multiset_ensures();
    let v = p1[k];
    assert(s1[k - lo] == v);
    assert(s1.contains(v));
    assert(s1.to_multiset().count(v) > 0);
    assert(s2.to_multiset().count(v) > 0);
    assert(s2.contains(v));
    let i = choose|i: int| 0 <= i < s2.len() && s2[i] == v;
    assert(p2[lo + i] == v);
}

/// One branch step of the build: sorting the group, arranging its two halves
/// and appending their nodes after the branch yields `arranged` and
/// `tree_nodes` of the group.
proof fn lemma_build_branch(
    p0: Seq<DataPoint>,
    ps: Seq<DataPoint>,
    pl: Seq<DataPoint>,
    pr: Seq<DataPoint>,
    n0: Seq<TreeNode>,
    nl: Seq<TreeNode>,
    nr: Seq<TreeNode>,
    nf: Seq<TreeNode>,
    from: int,
    to: int,
    mid: int,
    depth: int,
    split: i64,
    left: usize,
    right: usize,
)
    requires
        0 <= from < to < p0.len(),
        p0.len() == ps.len(),
        ps.len() == pl.len(),
        pl.len() == pr.len(),
        mid == from + (to - from) / 2,
        ps.subrange(from, to + 1) == sort_by_key(p0.subrange(from, to + 1), axis_of(depth)),
        split == key(ps[mid], axis_of(depth)),
        pl.subrange(from, mid + 1) == arranged(ps.subrange(from, mid + 1), depth + 1),
        forall|k: int| 0 <= k < ps.len() && !(from <= k <= mid) ==> #[trigger] pl[k] == ps[k],
        pr.subrange(mid + 1, to + 1) == arranged(pl.subrange(mid + 1, to + 1), depth + 1),
        forall|k: int| 0 <= k < pl.len() && !(mid + 1 <= k <= to) ==> #[trigger] pr[k] == pl[k],
        nl == n0.push(TreeNode::Branch { split, left: 0, right: 0 }) + tree_nodes(
            ps.subrange(from, mid + 1),
            from,
            depth + 1,
            n0.len() + 1int,
        ),
        nr == nl + tree_nodes(pl.subrange(mid + 1, to + 1), mid + 1, depth + 1, nl.len() as int),
        left == n0.len() + 1,
        right == nl.len(),
        nf == nr.update(n0.len() as int, TreeNode::Branch { split, left, right }),
    ensures
        pr.subrange(from, to + 1) == arranged(p0.subrange(from, to + 1), depth),
        nf == n0 + tree_nodes(p0.subrange(from, to + 1), from, depth, n0.len() as int),
{
    let sg = p0.subrange(from, to + 1);
    let a = axis_of(depth);
    let t = sort_by_key(sg, a);
    let m = (to - from) / 2;
    lemma_sort_by_key(sg, a);
    assert(ps.subrange(from, mid + 1) =~= t.subrange(0, m + 1));
    assert(pl.subrange(mid + 1, to + 1) =~= ps.subrange(mid + 1, to + 1));
    assert(ps.subrange(mid + 1, to + 1) =~= t.subrange(m + 1, sg.len() as int));
    assert(pr.subrange(from, mid + 1) =~= pl.subrange(from, mid + 1));
    assert(pr.subrange(from, to + 1) =~= pr.subrange(from, mid + 1) + pr.subrange(mid + 1, to + 1));
    assert(t[m] == ps[mid]);
    let ln = tree_nodes(t.subrange(0, m + 1), from, depth + 1, n0.len() + 1int);
    let rn = tree_nodes(t.subrange(m + 1, sg.len() as int), from + m + 1, depth + 1, n0.len() + 1int + ln.len());
    assert(nl.len() == n0.len() + 1 + ln.len());
    assert(tree_nodes(sg, from, depth, n0.len() as int) == seq![
        TreeNode::Branch { split, left, right },
    ] + ln + rn);
    assert(nf =~= n0 + tree_nodes(sg, from, depth, n0.len() as int));
}

/// Takes the next free node of the array and stores `node` there.
fn next_node(tree: &mut Kdtree, node: TreeNode) -> (i: usize)
    requires
        old(tree).node_data.len() < old(tree).max_nodes,
    ensures
        i == old(tree).node_data.len(),
        final(tree).node_data@ == old(tree).node_data@.push(node),
        final(tree).points == old(tree).points,
        final(tree).count == old(tree).count,
        final(tree).max_nodes == old(tree).max_nodes,
        final(tree).root == old(tree).root,
{
    let i = tree.node_data.len();
    tree.node_data.push(node);
    i
}

/// Returns a new leaf for the point at position `offset`.
fn get_leaf_node(tree: &mut Kdtree, offset: usize) -> (i: usize)
    requires
        old(tree).node_data.len() < old(tree).max_nodes,
    ensures
        i == old(tree).node_data.len(),
        final(tree).node_data@ == old(tree).node_data@.push(TreeNode::Leaf { idx: offset }),
        final(tree).points == old(tree).points,
        final(tree).count == old(tree).count,
        final(tree).max_nodes == old(tree).max_nodes,
        final(tree).root == old(tree).root,
{
    next_node(tree, TreeNode::Leaf { idx: offset })
}

/// Returns a new branch splitting at `split`; its children are filled in
/// once they are built.
fn get_branch_node(tree: &mut Kdtree, split: i64) -> (i: usize)
    requires
        old(tree).node_data.len() < old(tree).max_nodes,
    ensures
        i == old(tree).node_data.len(),
        final(tree).node_data@ == old(tree).node_data@.push(
            TreeNode::Branch { split, left: 0, right: 0 },
        ),
        final(tree).points == old(tree).points,
        final(tree).count == old(tree).count,
        final(tree).max_nodes == old(tree).max_nodes,
        final(tree).root == old(tree).root,
{
    next_node(tree, TreeNode::Branch { split, left: 0, right: 0 })
}

/// Builds the subtree for the points at positions `idx_from..=idx_to`,
/// which all lie in `dom`: a leaf for a single point, otherwise a branch
/// that sorts the points on the axis of `depth`, splits at the median
/// point and builds both halves.
#[verifier::rlimit(60)]
#[verifier::spinoff_prover]
fn build_kdtree(
    tree: &mut Kdtree,
    idx_from: usize,
    idx_to: usize,
    depth: u64,
    Ghost(dom): Ghost<Space>,
) -> (node: usize)
    requires
        idx_from <= idx_to < old(tree).points.len(),
        old(tree).node_data.len() + 2 * (idx_to - idx_from) + 1 <= old(tree).max_nodes,
        depth + (idx_to - idx_from) < u64::MAX,
        forall|k: int| idx_from <= k <= idx_to ==> in_space(#[trigger] old(tree).points@[k], dom),
    ensures
        final(tree).count == old(tree).count,
        final(tree).max_nodes == old(tree).max_nodes,
        final(tree).root == old(tree).root,
        final(tree).points.len() == old(tree).points.len(),
        forall|k: int|
            0 <= k < old(tree).points.len() && !(idx_from <= k <= idx_to) ==> #[trigger] final(tree).points@[k] == old(tree).points@[k],
        range_items(final(tree).points@, idx_from, idx_to) == range_items(
            old(tree).points@,
            idx_from,
            idx_to,
        ),
        node == old(tree).node_data.len(),
        final(tree).node_data.len() == old(tree).node_data.len() + 2 * (idx_to - idx_from) + 1,
        forall|k: int|
            0 <= k < old(tree).node_data.len() ==> #[trigger] final(tree).node_data@[k] == old(tree).node_data@[k],
        subtree_ok(final(tree).node_data@, final(tree).points@, node as int, depth as int, dom),
        leaves(final(tree).node_data@, node as int) == Seq::new(
            (idx_to - idx_from + 1) as nat,
            |k: int| idx_from + k,
        ),
        idx_from < idx_to ==> final(tree).node_data@[node as int] is Branch,
        splits_ok(final(tree).node_data@, final(tree).points@, node as int, depth as int),
        final(tree).points@.subrange(idx_from as int, idx_to + 1) == arranged(
            old(tree).points@.subrange(idx_from as int, idx_to + 1),
            depth as int,
        ),
        final(tree).node_data@ == old(tree).node_data@ + tree_nodes(
            old(tree).points@.subrange(idx_from as int, idx_to + 1),
            idx_from as int,
            depth as int,
            old(tree).node_data.len() as int,
        ),
    decreases idx_to - idx_from,
{
    let count = idx_to - idx_from + 1;
    let mid = idx_from + (idx_to - idx_from) / 2;
    let axis = depth % NDIMS;
    if count == 1 {
        let node = get_leaf_node(tree, idx_from);
        proof {
            assert(leaves(tree.node_data@, node as int) =~= Seq::new(1, |k: int| idx_from + k));
            assert(tree.node_data@ =~= old(tree).node_data@ + seq![TreeNode::Leaf { idx: idx_from }]);
        }
        return node;
    }
    let ghost p0 = tree.points@;
    let ghost n0 = tree.node_data@;
    // Sort the points of this group to find the median on the axis.
    sort_points_on_axis(&mut tree.points, idx_from, idx_to, axis);
    let ghost p_sorted = tree.points@;
    proof {
        lemma_range_keeps_space(p0, p_sorted, idx_from, idx_to, dom);
    }
    let split = tree.points[mid].coord_at(axis);
    let ghost a = axis as int;
    let ghost dl = dom.with_max(a, split);
    let ghost dr = dom.with_min(a, split);
    proof {
        assert(in_space(p_sorted[mid as int], dom));
        assert forall|k: int| idx_from <= k <= mid implies in_space(#[trigger] p_sorted[k], dl) by {
            assert(key(p_sorted[k], axis) <= key(p_sorted[mid as int], axis));
            assert(in_space(p_sorted[k], dom));
        }
        assert forall|k: int| mid + 1 <= k <= idx_to implies in_space(#[trigger] p_sorted[k], dr) by {
            assert(key(p_sorted[mid as int], axis) <= key(p_sorted[k], axis));
            assert(in_space(p_sorted[k], dom));
        }
    }
    let node = get_branch_node(tree, split);
    let left = build_kdtree(tree, idx_from, mid, depth + 1, Ghost(dl));
    let ghost p_left = tree.points@;
    let ghost n_left = tree.node_data@;
    let mid_next = mid + 1;
    let right = build_kdtree(tree, mid_next, idx_to, depth + 1, Ghost(dr));
    let ghost p_right = tree.points@;
    let ghost n_right = tree.node_data@;
    tree.node_data.set(node, TreeNode::Branch { split, left, right });
    proof {
        let nf = tree.node_data@;
        // The left subtree survives the right build and the update of `node`.
        assert forall|k: int|
            0 <= k < leaves(n_left, left as int).len() implies p_right[#[trigger] leaves(
            n_left,
            left as int,
        )[k]] == p_left[leaves(n_left, left as int)[k]] by {
            assert(leaves(n_left, left as int)[k] == idx_from + k);
        }
        lemma_subtree_frame(n_left, p_left, nf, p_right, left as int, depth + 1, dl);
        lemma_subtree_frame(n_right, p_right, nf, p_right, right as int, depth + 1, dr);
        assert(leaves(nf, node as int) == leaves(nf, left as int) + leaves(nf, right as int));
        assert(leaves(nf, node as int) =~= Seq::new(count as nat, |k: int| idx_from + k));
        assert(subtree_ok(nf, p_right, node as int, depth as int, dom));
        // The multiset of the whole range is kept by both builds.
        lemma_range_items_compose(p_sorted, p_left, idx_from, idx_to, idx_from, mid);
        lemma_range_items_compose(p_left, p_right, idx_from, idx_to, mid_next, idx_to);
        // The split is the coordinate of a point on the left.
        lemma_range_member(p_sorted, p_left, idx_from, mid, mid as int);
        let k2 = choose|k2: int| idx_from <= k2 <= mid && p_left[k2] == p_sorted[mid as int];
        assert(leaves(nf, left as int)[k2 - idx_from] == k2);
        assert(p_right[k2] == p_sorted[mid as int]);
        assert(key(p_right[leaves(nf, left as int)[k2 - idx_from]], axis_of(depth as int)) == split);
        assert(splits_ok(nf, p_right, node as int, depth as int));
        // The arrangement of the points and the nodes created.
        lemma_build_branch(
            p0,
            p_sorted,
            p_left,
            p_right,
            n0,
            n_left,
            n_right,
            nf,
            idx_from as int,
            idx_to as int,
            mid as int,
            depth as int,
            split,
            left,
            right,
        );
    }
    node
}

/// Releases the tree and leaves `None` in its place.
pub fn kdtree_delete(tree_ptr: &mut Option<Kdtree>)
    ensures
        final(tree_ptr).is_none(),
{
    *tree_ptr = None;
}

/// Builds a tree from the points `(x[i], y[i], z[i])` for `i < count`; point
/// `i` is reported under the index `i`. A tree already in `tree_ptr` that
/// was built for the same number of points is rebuilt in place; any other is
/// released and a new one takes its place. Either way the result depends on
/// the inputs alone: its points are `arranged(input, 0)` and its nodes
/// `tree_nodes(input, 0, 0, 0)`, with the root in slot 0.
pub fn kdtree_build(x: &[i64], y: &[i64], z: &[i64], count: u64, tree_ptr: &mut Option<Kdtree>)
    requires
        count > 1,
        count <= x.len(),
        count <= y.len(),
        count <= z.len(),
        2 * count - 1 <= usize::MAX,
    ensures
        *final(tree_ptr) matches Some(t) && {
            &&& t.wf()
            &&& t.point_count() == count
            &&& t@.len() == count
            &&& t@.to_multiset() == input_points(x@, y@, z@, count as nat).to_multiset()
            &&& t@ == arranged(input_points(x@, y@, z@, count as nat), 0)
            &&& t.nodes() == tree_nodes(input_points(x@, y@, z@, count as nat), 0, 0, 0)
            &&& built_from(t, x@, y@, z@, count)
        },
{
    let reuse = match &*tree_ptr {
        Some(t) => t.count == count,
        None => false,
    };
    if !reuse {
        kdtree_delete(tree_ptr);
    }
    let n = count as usize;
    assert(n == count);
    let max_nodes = n + (n - 1);
    let mut tree = match tree_ptr.take() {
        Some(t) => t,
        None => Kdtree {
            count,
            max_nodes,
            points: Vec::with_capacity(n),
            node_data: Vec::with_capacity(max_nodes),
            root: 0,
        },
    };
    // Reset the control values and copy the points in.
    tree.count = count;
    tree.max_nodes = max_nodes;
    tree.node_data.clear();
    tree.points.clear();
    let mut i: usize = 0;
    while i < n
        invariant
            i <= n,
            n == count,
            n <= x.len(),
            n <= y.len(),
            n <= z.len(),
            tree.count == count,
            tree.max_nodes == max_nodes,
            tree.node_data@ == Seq::<TreeNode>::empty(),
            tree.points@ == input_points(x@, y@, z@, i as nat),
        decreases n - i,
    {
        tree.points.push(DataPoint { x: x[i], y: y[i], z: z[i], idx: i as u64 });
        proof {
            assert(tree.points@ =~= input_points(x@, y@, z@, (i + 1) as nat));
        }
        i = i + 1;
    }
    let ghost input = tree.points@;
    assert(forall|k: int| 0 <= k <= n - 1 ==> in_space(#[trigger] tree.points@[k], full_space()));
    let root = build_kdtree(&mut tree, 0, n - 1, 0, Ghost(full_space()));
    tree.root = root;
    proof {
        let pts = tree.points@;
        assert(pts.subrange(0, n as int) =~= pts);
        assert(input.subrange(0, n as int) =~= input);
        assert(pts.to_multiset() == input.to_multiset());
        assert(Seq::<TreeNode>::empty() + tree_nodes(input, 0, 0, 0) =~= tree_nodes(input, 0, 0, 0));
        assert(leaves(tree.node_data@, root as int) =~= Seq::new(count as nat, |k: int| k));
        pts.to_multiset_ensures();
        input.to_multiset_ensures();
        assert(input =~= input_points(x@, y@, z@, count as nat));
        lemma_permuted_inputs(x@, y@, z@, count as nat, pts);
    }
    *tree_ptr = Some(tree);
}

/// Appends the indices of all points below node `node`, from left to right.
fn report_all_leaves(
    tree: &Kdtree,
    node: usize,
    iter: &mut KdtreeIterator,
    Ghost(depth): Ghost<int>,
    Ghost(dom): Ghost<Space>,
)
    requires
        subtree_ok(tree.node_data@, tree.points@, node as int, depth, dom),
    ensures
        final(iter).items() == old(iter).items() + ids(
            leaf_points(tree.node_data@, tree.points@, node as int),
        ),
        final(iter).position() == old(iter).position(),
    decreases tree.node_data.len() - node,
{
    let n = tree.node_data[node];
    let ghost lp = leaf_points(tree.node_data@, tree.points@, node as int);
    match n {
        TreeNode::Leaf { idx } => {
            iter.iterator_push(tree.points[idx].idx);
            proof {
                assert(ids(lp) =~= seq![tree.points@[idx as int].idx]);
            }
        },
        TreeNode::Branch { split, left, right } => {
            let ghost a = depth % 3;
            report_all_leaves(tree, left, iter, Ghost(depth + 1), Ghost(dom.with_max(a, split)));
            report_all_leaves(tree, right, iter, Ghost(depth + 1), Ghost(dom.with_min(a, split)));
            proof {
                let lpl = leaf_points(tree.node_data@, tree.points@, left as int);
                let lpr = leaf_points(tree.node_data@, tree.points@, right as int);
                assert(lp =~= lpl + lpr);
                assert(ids(lp) =~= ids(lpl) + ids(lpr));
            }
        },
    }
}

/// Visits the child `node` of a branch at `depth` whose domain is
/// `domain`: a leaf is reported when its point lies in the search box; a
/// branch is skipped when its domain misses the box, reported whole when its
/// domain lies inside the box, and searched otherwise.
fn explore_branch(
    tree: &Kdtree,
    node: usize,
    depth: u64,
    search_space: &Space,
    domain: &Space,
    iter: &mut KdtreeIterator,
)
    requires
        subtree_ok(tree.node_data@, tree.points@, node as int, depth + 1, *domain),
        depth + 1 + (tree.node_data.len() - node) <= u64::MAX,
    ensures
        final(iter).items() == old(iter).items() + select(
            leaf_points(tree.node_data@, tree.points@, node as int),
            *search_space,
        ),
        final(iter).position() == old(iter).position(),
    decreases tree.node_data.len() - node, 1nat,
{
    let n = tree.node_data[node];
    let ghost lp = leaf_points(tree.node_data@, tree.points@, node as int);
    proof {
        lemma_leaves_in_dom(tree.node_data@, tree.points@, node as int, depth + 1, *domain);
    }
    match n {
        TreeNode::Leaf { idx } => {
            let p = tree.points[idx];
            proof {
                assert(lp =~= seq![p]);
                assert(lp.drop_last() =~= Seq::<DataPoint>::empty());
                assert(select(lp.drop_last(), *search_space) =~= Seq::<u64>::empty());
            }
            if point_in_search_space(&p, search_space) {
                iter.iterator_push(p.idx);
                proof {
                    assert(select(lp, *search_space) =~= seq![p.idx]);
                }
            } else {
                proof {
                    assert(select(lp, *search_space) =~= Seq::<u64>::empty());
                    assert(old(iter).items() + select(lp, *search_space) =~= old(iter).items());
                }
            }
        },
        TreeNode::Branch { .. } => {
            if search_area_intersects(search_space, domain) {
                if completely_enclosed(search_space, domain) {
                    report_all_leaves(tree, node, iter, Ghost(depth + 1), Ghost(*domain));
                    proof {
                        assert forall|k: int| 0 <= k < lp.len() implies in_space(
                            #[trigger] lp[k],
                            *search_space,
                        ) by {
                            assert(lp[k] == tree.points@[leaves(tree.node_data@, node as int)[k]]);
                        }
                        lemma_select_all(lp, *search_space);
                    }
                } else {
                    search_kdtree(tree, node, depth + 1, search_space, domain, iter);
                }
            } else {
                proof {
                    assert forall|k: int| 0 <= k < lp.len() implies !in_space(
                        #[trigger] lp[k],
                        *search_space,
                    ) by {
                        assert(lp[k] == tree.points@[leaves(tree.node_data@, node as int)[k]]);
                    }
                    lemma_select_none(lp, *search_space);
                    assert(old(iter).items() + select(lp, *search_space) =~= old(iter).items());
                }
            }
        },
    }
}

/// Searches below the branch `node` at `depth`, whose domain is `domain`,
/// for the points in the search box: the left child is explored within the
/// domain cut above at the split, then the right child within the domain
/// cut below at the split.
fn search_kdtree(
    tree: &Kdtree,
    node: usize,
    depth: u64,
    search_space: &Space,
    domain: &Space,
    iter: &mut KdtreeIterator,
)
    requires
        subtree_ok(tree.node_data@, tree.points@, node as int, depth as int, *domain),
        tree.node_data@[node as int] is Branch,
        depth + (tree.node_data.len() - node) <= u64::MAX,
    ensures
        final(iter).items() == old(iter).items() + select(
            leaf_points(tree.node_data@, tree.points@, node as int),
            *search_space,
        ),
        final(iter).position() == old(iter).position(),
    decreases tree.node_data.len() - node, 0nat,
{
    let axis = depth % NDIMS;
    let n = tree.node_data[node];
    match n {
        TreeNode::Branch { split, left, right } => {
            let mut new_domain = *domain;
            // Explore the left branch.
            new_domain.set_max(axis, split);
            explore_branch(tree, left, depth, search_space, &new_domain, iter);
            // Explore the right branch.
            new_domain.set_max(axis, domain.max_at(axis));
            new_domain.set_min(axis, split);
            explore_branch(tree, right, depth, search_space, &new_domain, iter);
            proof {
                let lpl = leaf_points(tree.node_data@, tree.points@, left as int);
                let lpr = leaf_points(tree.node_data@, tree.points@, right as int);
                assert(leaf_points(tree.node_data@, tree.points@, node as int) =~= lpl + lpr);
                lemma_select_concat(lpl, lpr, *search_space);
            }
        },
        TreeNode::Leaf { .. } => {},
    }
}

/// Searches the tree for the points in the box `[x_min, x_max] x
/// [y_min, y_max] x [z_min, z_max]`. The iterator in `iter_ptr`, if any, is
/// emptied and reused; otherwise a new one is put there. It then holds the
/// indices of the matching points, in the order of the tree's point array,
/// with its read position at the start.
pub fn kdtree_search_space(
    tree: &Kdtree,
    iter_ptr: &mut Option<KdtreeIterator>,
    x_min: i64,
    x_max: i64,
    y_min: i64,
    y_max: i64,
    z_min: i64,
    z_max: i64,
)
    requires
        tree.wf(),
    ensures
        *final(iter_ptr) matches Some(it) && {
            &&& it.items() == select(tree@, box_of(x_min, x_max, y_min, y_max, z_min, z_max))
            &&& it.position() == 0
            &&& forall|k: int| 0 <= k < it.items().len() ==> #[trigger] it.items()[k] < tree.point_count()
            &&& it.items().no_duplicates()
            &&& forall|v: u64|
                #[trigger] it.items().contains(v) <==> exists|k: int|
                    0 <= k < tree@.len() && #[trigger] tree@[k].idx == v && x_min <= tree@[k].x
                        <= x_max && y_min <= tree@[k].y <= y_max && z_min <= tree@[k].z <= z_max
        },
{
    let mut iter = match iter_ptr.take() {
        Some(it) => {
            let mut it = it;
            it.iterator_reset();
            it
        },
        None => KdtreeIterator::iterator_new(),
    };
    // Define the search space, and start from the whole space as domain.
    let search_space = Space::from_bounds(x_min, x_max, y_min, y_max, z_min, z_max);
    let domain = Space::full();
    search_kdtree(tree, tree.root, 0, &search_space, &domain, &mut iter);
    proof {
        assert(leaf_points(tree.node_data@, tree.points@, tree.root as int) =~= tree.points@);
        assert(Seq::<u64>::empty() + select(tree@, search_space) =~= select(tree@, search_space));
        lemma_select_members(tree@, search_space);
        lemma_select_no_duplicates(tree@, search_space);
        assert forall|k: int| 0 <= k < iter.items().len() implies #[trigger] iter.items()[k]
            < tree.point_count() by {
            assert(select(tree@, search_space).contains(iter.items()[k]));
        }
        assert forall|k: int| 0 <= k < tree@.len() implies in_space(#[trigger] tree@[k], search_space)
            == (x_min <= tree@[k].x <= x_max && y_min <= tree@[k].y <= y_max && z_min <= tree@[k].z
            <= z_max) by {
            lemma_box_membership(tree@[k], x_min, x_max, y_min, y_max, z_min, z_max);
        }
    }
    *iter_ptr = Some(iter);
}

/// Searches the tree for the points in the cube of half-width `apothem`
/// around `(x, y, z)`; bounds beyond the representable coordinates are cut
/// to them.
pub fn kdtree_search(
    tree: &Kdtree,
    iter_ptr: &mut Option<KdtreeIterator>,
    x: i64,
    y: i64,
    z: i64,
    apothem: i64,
)
    requires
        tree.wf(),
        apothem >= 0,
    ensures
        *final(iter_ptr) matches Some(it) && {
            &&& it.items() == select(tree@, cube(x, y, z, apothem))
            &&& it.position() == 0
            &&& forall|k: int| 0 <= k < it.items().len() ==> #[trigger] it.items()[k] < tree.point_count()
            &&& it.items().no_duplicates()
            &&& forall|v: u64|
                #[trigger] it.items().contains(v) <==> exists|k: int|
                    0 <= k < tree@.len() && #[trigger] tree@[k].idx == v && x - apothem <= tree@[k].x
                        <= x + apothem && y - apothem <= tree@[k].y <= y + apothem && z - apothem
                        <= tree@[k].z <= z + apothem
        },
{
    kdtree_search_space(
        tree,
        iter_ptr,
        cube_low(x, apothem),
        cube_high(x, apothem),
        cube_low(y, apothem),
        cube_high(y, apothem),
        cube_low(z, apothem),
        cube_high(z, apothem),
    );
    proof {
        assert forall|k: int| 0 <= k < tree@.len() implies in_space(
            #[trigger] tree@[k],
            cube(x, y, z, apothem),
        ) == (x - apothem <= tree@[k].x <= x + apothem && y - apothem <= tree@[k].y <= y + apothem
            && z - apothem <= tree@[k].z <= z + apothem) by {
            lemma_cube_membership(tree@[k], x, y, z, apothem);
        }
    }
}

/// What a box search reports of a built tree, in terms of the inputs: for
/// points that are the input points in some order, the indices selected by
/// the box `[x_min, x_max] x [y_min, y_max] x [z_min, z_max]` are exactly the
/// `v < n` with `x_min <= x[v] <= x_max`, `y_min <= y[v] <= y_max` and
/// `z_min <= z[v] <= z_max`, each once.
pub proof fn lemma_box_search_reports_inputs(
    x: Seq<i64>,
    y: Seq<i64>,
    z: Seq<i64>,
    n: nat,
    pts: Seq<DataPoint>,
    x_min: i64,
    x_max: i64,
    y_min: i64,
    y_max: i64,
    z_min: i64,
    z_max: i64,
)
    requires
        n <= u64::MAX,
        n <= x.len(),
        n <= y.len(),
        n <= z.len(),
        pts.to_multiset() == input_points(x, y, z, n).to_multiset(),
    ensures
        forall|v: u64|
            #[trigger] select(pts, box_of(x_min, x_max, y_min, y_max, z_min, z_max)).contains(v) <==> (
            v < n && x_min <= x[v as int] <= x_max && y_min <= y[v as int] <= y_max && z_min <= z[v as int]
                <= z_max),
        select(pts, box_of(x_min, x_max, y_min, y_max, z_min, z_max)).no_duplicates(),
{
    let b = box_of(x_min, x_max, y_min, y_max, z_min, z_max);
    lemma_search_reports_inputs(x, y, z, n, pts, b);
    assert forall|v: u64| #[trigger] select(pts, b).contains(v) <==> (v < n && x_min <= x[v as int]
        <= x_max && y_min <= y[v as int] <= y_max && z_min <= z[v as int] <= z_max) by {
        if v < n {
            let p = input_points(x, y, z, n)[v as int];
            lemma_box_membership(p, x_min, x_max, y_min, y_max, z_min, z_max);
        }
    }
}

/// `t` is the tree that `kdtree_build` makes of the first `count` entries
/// of `x`, `y` and `z`.
pub open spec fn built_from(t: Kdtree, x: Seq<i64>, y: Seq<i64>, z: Seq<i64>, count: u64) -> bool {
    &&& t.wf()
    &&& t.point_count() == count
    &&& t@ == arranged(input_points(x, y, z, count as nat), 0)
    &&& t.nodes() == tree_nodes(input_points(x, y, z, count as nat), 0, 0, 0)
}

/// Building into a reused tree and into a fresh one gives the same tree:
/// two trees built from the same inputs hold the same points in the same
/// order, the same nodes in the same slots, the same root and the same
/// capacity.
pub proof fn lemma_build_depends_on_inputs(
    t1: Kdtree,
    t2: Kdtree,
    x: Seq<i64>,
    y: Seq<i64>,
    z: Seq<i64>,
    count: u64,
)
    requires
        built_from(t1, x, y, z, count),
        built_from(t2, x, y, z, count),
    ensures
        t1@ == t2@,
        t1.nodes() == t2.nodes(),
        t1.root_index() == t2.root_index(),
        t1.node_capacity() == t2.node_capacity(),
        t1.point_count() == t2.point_count(),
{
}

/// Points that are the input points in some order carry indices below `n`,
/// each point being the input point of its index, and no two carry the same
/// index.
pub proof fn lemma_permuted_inputs(x: Seq<i64>, y: Seq<i64>, z: Seq<i64>, n: nat, pts: Seq<DataPoint>)
    requires
        n <= u64::MAX,
        pts.to_multiset() == input_points(x, y, z, n).to_multiset(),
    ensures
        forall|k: int|
            0 <= k < pts.len() ==> #[trigger] pts[k].idx < n && pts[k] == input_points(x, y, z, n)[pts[k].idx as int],
        forall|a: int, b: int|
            0 <= a < pts.len() && 0 <= b < pts.len() && a != b ==> #[trigger] pts[a].idx
                != #[trigger] pts[b].idx,
{
    let input = input_points(x, y, z, n);
    pts.to_multiset_ensures();
    input.to_multiset_ensures();
    assert(input.no_duplicates()) by {
        assert forall|i: int, j: int|
            0 <= i < input.len() && 0 <= j < input.len() && i != j implies input[i]
            != input[j] by {
            assert(input[i].idx == i as u64);
            assert(input[j].idx == j as u64);
        }
    }
    input.lemma_multiset_has_no_duplicates();
    pts.lemma_multiset_has_no_duplicates_conv();
    // Every stored point is the input point of its index.
    assert forall|k: int| 0 <= k < pts.len() implies #[trigger] pts[k].idx < n && pts[k]
        == input[pts[k].idx as int] by {
        assert(pts.contains(pts[k]));
        assert(pts.to_multiset().count(pts[k]) > 0);
        assert(input.to_multiset().count(pts[k]) > 0);
        assert(input.contains(pts[k]));
        let i = choose|i: int| 0 <= i < input.len() && input[i] == pts[k];
        assert(input[i].idx == i as u64);
    }
    assert forall|a: int, b: int|
        0 <= a < pts.len() && 0 <= b < pts.len() && a != b implies #[trigger] pts[a].idx
        != #[trigger] pts[b].idx by {
        if pts[a].idx == pts[b].idx {
            assert(pts[a] == input[pts[a].idx as int]);
            assert(pts[b] == input[pts[b].idx as int]);
        }
    }
}

/// What a search reports of a built tree: for points that are the input
/// points in some order, the selected indices are exactly the indices
/// `v < n` whose input point lies in the box, each once.
pub proof fn lemma_search_reports_inputs(
    x: Seq<i64>,
    y: Seq<i64>,
    z: Seq<i64>,
    n: nat,
    pts: Seq<DataPoint>,
    s: Space,
)
    requires
        n <= u64::MAX,
        pts.to_multiset() == input_points(x, y, z, n).to_multiset(),
    ensures
        forall|v: u64|
            #[trigger] select(pts, s).contains(v) <==> (v < n && in_space(
                input_points(x, y, z, n)[v as int],
                s,
            )),
        select(pts, s).no_duplicates(),
{
    let input = input_points(x, y, z, n);
    pts.to_multiset_ensures();
    input.to_multiset_ensures();
    lemma_permuted_inputs(x, y, z, n, pts);
    lemma_select_no_duplicates(pts, s);
    lemma_select_members(pts, s);
    assert forall|v: u64| #[trigger] select(pts, s).contains(v) <==> (v < n && in_space(
        input[v as int],
        s,
    )) by {
        if v < n && in_space(input[v as int], s) {
            assert(input.contains(input[v as int]));
            assert(input.to_multiset().count(input[v as int]) > 0);
            assert(pts.to_multiset().count(input[v as int]) > 0);
            assert(pts.contains(input[v as int]));
            let k = choose|k: int| 0 <= k < pts.len() && pts[k] == input[v as int];
            assert(in_space(pts[k], s) && pts[k].idx == v);
        }
        if select(pts, s).contains(v) {
            let k = choose|k: int|
                0 <= k < pts.len() && in_space(#[trigger] pts[k], s) && pts[k].idx == v;
            assert(pts[k] == input[pts[k].idx as int]);
        }
    }
}

} // verus!
