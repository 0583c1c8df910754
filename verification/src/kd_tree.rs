use crate::single;
use crate::single::Single;
use crate::vector;
use crate::vector::v_squared_distance;
use vstd::prelude::*;

verus! {

/// One point of a k-d tree: an index into the position table, and the subtrees
/// of the points on either side of it along `split_axis`.
pub struct KdNode {
    pub vertex_index: u32,
    pub split_axis: u8,
    pub left: Option<Box<KdNode>>,
    pub right: Option<Box<KdNode>>,
}

/// A median-split k-d tree over a table of positions, for nearest-neighbour
/// queries.
pub struct KdTree {
    pub root: Box<KdNode>,
}

/// Whether a subtree holds the position with index `i`.
pub open spec fn holds(node: Option<Box<KdNode>>, i: int) -> bool
    decreases node,
{
    match node {
        Some(n) => n.vertex_index == i || holds(n.left, i) || holds(n.right, i),
        None => false,
    }
}

/// Every node splits its subtrees: what lies left is at most, what lies right at
/// least as far along the split axis as the node's own position.
pub open spec fn is_split(node: Option<Box<KdNode>>, positions: Seq<[Single; 3]>) -> bool
    decreases node,
{
    match node {
        Some(n) => {
            let axis = n.split_axis as int;
            &&& n.vertex_index < positions.len()
            &&& axis < 3
            &&& is_split(n.left, positions)
            &&& is_split(n.right, positions)
            &&& forall|i: int| #[trigger]
                holds(n.left, i) ==> positions[i][axis].key() <= positions[n.vertex_index as int][axis].key()
            &&& forall|i: int| #[trigger]
                holds(n.right, i) ==> positions[n.vertex_index as int][axis].key() <= positions[i][axis].key()
        },
        None => true,
    }
}

pub open spec fn all_finite(positions: Seq<[Single; 3]>) -> bool {
    forall|i: int| 0 <= i < positions.len() ==> #[trigger] vector::finite(positions[i])
}

/// `r` is the index of a position closest to `query`, by the squared distances
/// as they are computed.
pub open spec fn is_closest(positions: Seq<[Single; 3]>, query: [Single; 3], r: int) -> bool {
    &&& 0 <= r < positions.len()
    &&& forall|i: int|
        0 <= i < positions.len() ==> vector::squared_distance(positions[r], query).key()
            <= (#[trigger] vector::squared_distance(positions[i], query)).key()
}

/// Along `axis`, position `i` comes before position `j`. Of two that lie equally far along
/// it, the one with the lower index comes first.
pub open spec fn precedes(positions: Seq<[Single; 3]>, axis: int, i: int, j: int) -> bool {
    ||| positions[i][axis].key() < positions[j][axis].key()
    ||| positions[i][axis].key() == positions[j][axis].key() && i < j
}

pub open spec fn lower(
    members: Set<int>,
    positions: Seq<[Single; 3]>,
    axis: int,
    middle: int,
) -> Set<int> {
    members.filter(|i: int| precedes(positions, axis, i, middle))
}

pub open spec fn upper(
    members: Set<int>,
    positions: Seq<[Single; 3]>,
    axis: int,
    middle: int,
) -> Set<int> {
    members.filter(|i: int| precedes(positions, axis, middle, i))
}

/// The axis that the nodes one level farther down split along.
pub open spec fn axis_below(axis: int) -> int {
    if axis == 2 {
        0
    } else {
        axis + 1
    }
}

/// The subtree is the median-split tree of the positions in `members`: at its top stands
/// the one that half of them come before along `axis`, on its left the tree of those, and
/// on its right the tree of the others.
pub open spec fn is_tree_of(
    node: Option<Box<KdNode>>,
    members: Set<int>,
    positions: Seq<[Single; 3]>,
    axis: int,
) -> bool
    decreases node,
{
    match node {
        Some(n) => {
            let middle = n.vertex_index as int;
            &&& members.contains(middle)
            &&& n.split_axis == axis
            &&& lower(members, positions, axis, middle).len() == members.len() / 2
            &&& is_tree_of(
                n.left,
                lower(members, positions, axis, middle),
                positions,
                axis_below(axis),
            )
            &&& is_tree_of(
                n.right,
                upper(members, positions, axis, middle),
                positions,
                axis_below(axis),
            )
        },
        None => members == Set::<int>::empty(),
    }
}

/// The indices of a table of `n` positions.
pub open spec fn first_indices(n: nat) -> Set<int> {
    Set::new(|i: int| 0 <= i < n)
}

/// The tree over a table of positions.
pub open spec fn tree_of(positions: Seq<[Single; 3]>) -> KdTree {
    choose|tree: KdTree| tree.indexes(positions)
}

/// What a search of the subtree makes of the best match so far. A node takes the place of
/// the best match where it is closer. The side of the splitting plane that the query lies
/// on comes first, and the other side only where the plane is closer than the best match.
pub open spec fn found(
    node: Option<Box<KdNode>>,
    positions: Seq<[Single; 3]>,
    query: [Single; 3],
    best: int,
) -> int
    decreases node,
{
    match node {
        Some(n) => {
            let at = positions[n.vertex_index as int];
            let own = if vector::squared_distance(at, query).less(
                vector::squared_distance(positions[best], query),
            ) {
                n.vertex_index as int
            } else {
                best
            };
            let gap = query[n.split_axis as int].difference(at[n.split_axis as int]);
            if gap.less_or_same(Single::positive_zero()) {
                let near = found(n.left, positions, query, own);
                if gap.product(gap).less(vector::squared_distance(positions[near], query)) {
                    found(n.right, positions, query, near)
                } else {
                    near
                }
            } else {
                let near = found(n.right, positions, query, own);
                if gap.product(gap).less(vector::squared_distance(positions[near], query)) {
                    found(n.left, positions, query, near)
                } else {
                    near
                }
            }
        },
        None => best,
    }
}

/// A median-split tree is split, and holds the positions that it is the tree of.
proof fn lemma_tree_is_split(
    node: Option<Box<KdNode>>,
    members: Set<int>,
    positions: Seq<[Single; 3]>,
    axis: int,
)
    requires
        is_tree_of(node, members, positions, axis),
        forall|i: int| #[trigger] members.contains(i) ==> 0 <= i < positions.len(),
        0 <= axis < 3,
    ensures
        is_split(node, positions),
        forall|i: int|
            #![trigger holds(node, i)]
            #![trigger members.contains(i)]
            holds(node, i) <==> members.contains(i),
    decreases node,
{
    match node {
        Some(n) => {
            let middle = n.vertex_index as int;
            let below = lower(members, positions, axis, middle);
            let above = upper(members, positions, axis, middle);
            lemma_tree_is_split(n.left, below, positions, axis_below(axis));
            lemma_tree_is_split(n.right, above, positions, axis_below(axis));
            assert forall|i: int| #[trigger] holds(n.left, i) implies positions[i][axis].key()
                <= positions[middle][axis].key() by {
                assert(below.contains(i));
            }
            assert forall|i: int| #[trigger] holds(n.right, i) implies positions[middle][axis].key()
                <= positions[i][axis].key() by {
                assert(above.contains(i));
            }
            assert forall|i: int|
                #![trigger holds(node, i)]
                #![trigger members.contains(i)]
                holds(node, i) <==> members.contains(i) by {
                if members.contains(i) && i != middle {
                    assert(below.contains(i) || above.contains(i));
                }
                if holds(n.left, i) {
                    assert(below.contains(i));
                }
                if holds(n.right, i) {
                    assert(above.contains(i));
                }
            }
        },
        None => {},
    }
}

/// Positions have one median-split tree.
proof fn lemma_one_tree(
    a: Option<Box<KdNode>>,
    b: Option<Box<KdNode>>,
    members: Set<int>,
    positions: Seq<[Single; 3]>,
    axis: int,
)
    requires
        is_tree_of(a, members, positions, axis),
        is_tree_of(b, members, positions, axis),
        members.finite(),
    ensures
        a == b,
    decreases a,
{
    match (a, b) {
        (Some(m), Some(n)) => {
            let i = m.vertex_index as int;
            let j = n.vertex_index as int;
            if precedes(positions, axis, i, j) {
                lemma_lower_grows(members, positions, axis, i, j);
            } else if precedes(positions, axis, j, i) {
                lemma_lower_grows(members, positions, axis, j, i);
            }
            assert(i == j);
            let below = lower(members, positions, axis, i);
            let above = upper(members, positions, axis, i);
            lemma_one_tree(m.left, n.left, below, positions, axis_below(axis));
            lemma_one_tree(m.right, n.right, above, positions, axis_below(axis));
        },
        _ => {
            if a is Some {
                assert(members.contains(a->0.vertex_index as int));
            }
            if b is Some {
                assert(members.contains(b->0.vertex_index as int));
            }
        },
    }
}

/// More of the members come before a later one of them.
proof fn lemma_lower_grows(
    members: Set<int>,
    positions: Seq<[Single; 3]>,
    axis: int,
    i: int,
    j: int,
)
    requires
        members.finite(),
        members.contains(i),
        precedes(positions, axis, i, j),
    ensures
        lower(members, positions, axis, i).len() < lower(members, positions, axis, j).len(),
{
    let small = lower(members, positions, axis, i);
    let large = lower(members, positions, axis, j);
    assert(small.insert(i).subset_of(large));
    vstd::set_lib::lemma_len_subset(small.insert(i), large);
}

/// A table of positions has one tree, so that whatever is built over the same positions
/// is the same tree.
pub proof fn law_one_tree(tree: KdTree, positions: Seq<[Single; 3]>)
    requires
        tree.indexes(positions),
    ensures
        tree == tree_of(positions),
{
    lemma_first_indices(positions.len());
    lemma_one_tree(
        Some(tree.root),
        Some(tree_of(positions).root),
        first_indices(positions.len()),
        positions,
        0,
    );
}

proof fn lemma_first_indices(n: nat)
    ensures
        first_indices(n).finite(),
        first_indices(n).len() == n,
    decreases n,
{
    if n == 0 {
        assert(first_indices(n) =~= Set::<int>::empty());
    } else {
        lemma_first_indices((n - 1) as nat);
        assert(first_indices(n) =~= first_indices((n - 1) as nat).insert(n - 1));
    }
}

impl KdTree {
    /// The tree is the median-split tree of all positions of the table.
    pub open spec fn indexes(self, positions: Seq<[Single; 3]>) -> bool {
        &&& positions.len() <= u32::MAX
        &&& all_finite(positions)
        &&& is_tree_of(Some(self.root), first_indices(positions.len()), positions, 0)
    }

    /// The index of the position that a search for `query` ends with.
    pub open spec fn nearest_to(self, positions: Seq<[Single; 3]>, query: [Single; 3]) -> int {
        found(Some(self.root), positions, query, self.root.vertex_index as int)
    }

    /// Builds a tree over `positions`, or `None` where there are none. Every
    /// position must be finite: there is no order over the others.
    pub fn build(positions: &[[Single; 3]]) -> (r: Option<KdTree>)
        requires
            positions@.len() <= u32::MAX,
            all_finite(positions@),
        ensures
            r is Some <==> positions@.len() > 0,
            r is Some ==> r->0.indexes(positions@) && r->0 == tree_of(positions@),
    {
        let mut indices: Vec<u32> = Vec::new();
        let mut i: usize = 0;
        while i < positions.len()
            invariant
                i <= positions@.len() <= u32::MAX,
                indices@.len() == i,
                forall|j: int| 0 <= j < i ==> indices@[j] == j,
            decreases positions@.len() - i,
        {
            indices.push(i as u32);
            i = i + 1;
        }
        let count = indices.len();
        proof {
            assert forall|i: int| first_indices(positions@.len()).contains(i) <==> entries(
                indices@,
                0,
                count as int,
            ).contains(i) by {
                if 0 <= i < positions@.len() {
                    assert(indices@[i] == i);
                }
            }
            assert(first_indices(positions@.len()) =~= entries(indices@, 0, count as int));
        }
        match build_recursive(&mut indices, 0, count, positions, 0) {
            Some(root) => {
                let tree = KdTree { root };
                proof {
                    law_one_tree(tree, positions@);
                }
                Some(tree)
            },
            None => None,
        }
    }

    /// The index of a position closest to `query`, in the table that the tree was
    /// built from. Where several are equally close, it is the one that the search meets
    /// first.
    pub fn nearest(&self, positions: &[[Single; 3]], query: [Single; 3]) -> (r: u32)
        requires
            self.indexes(positions@),
            vector::finite(query),
        ensures
            r == self.nearest_to(positions@, query),
            is_closest(positions@, query, r as int),
    {
        proof {
            lemma_tree_is_split(
                Some(self.root),
                first_indices(positions@.len()),
                positions@,
                0,
            );
        }
        let mut best_index: u32 = self.root.vertex_index;
        assert(holds(Some(self.root), best_index as int));
        let mut best_dist_sq = v_squared_distance(positions[best_index as usize], query);
        nearest_recursive(&self.root, positions, query, &mut best_index, &mut best_dist_sq);
        proof {
            law_nearest_is_closest(*self, positions@, query);
        }
        best_index
    }
}

/// A search of a subtree leaves a best match that is no farther than the one before, and
/// no farther than anything in the subtree.
proof fn lemma_found(
    node: Option<Box<KdNode>>,
    positions: Seq<[Single; 3]>,
    query: [Single; 3],
    best: int,
)
    requires
        all_finite(positions),
        vector::finite(query),
        is_split(node, positions),
        forall|i: int| #[trigger] holds(node, i) ==> 0 <= i < positions.len(),
        0 <= best < positions.len(),
    ensures
        0 <= found(node, positions, query, best) < positions.len(),
        vector::squared_distance(positions[found(node, positions, query, best)], query).key()
            <= vector::squared_distance(positions[best], query).key(),
        forall|i: int| #[trigger]
            holds(node, i) ==> vector::squared_distance(
                positions[found(node, positions, query, best)],
                query,
            ).key() <= vector::squared_distance(positions[i], query).key(),
    decreases node,
{
    if node is Some {
        let n = node->0;
        let at = positions[n.vertex_index as int];
        let axis = n.split_axis as int;
        let d_sq = vector::squared_distance(at, query);
        assert(vector::finite(at));
        assert(vector::finite(positions[best]));
        vector::law_squared_distance_is_ordered(at, query);
        vector::law_squared_distance_is_ordered(positions[best], query);
        assert(holds(node, n.vertex_index as int));
        assert forall|i: int| #[trigger] holds(n.left, i) implies 0 <= i < positions.len() by {
            assert(holds(node, i));
        }
        assert forall|i: int| #[trigger] holds(n.right, i) implies 0 <= i < positions.len() by {
            assert(holds(node, i));
        }
        let own = if d_sq.less(vector::squared_distance(positions[best], query)) {
            n.vertex_index as int
        } else {
            best
        };
        let gap = query[axis].difference(at[axis]);
        vector::lemma_finite_component(at, axis);
        vector::lemma_finite_component(query, axis);
        single::law_difference_grows_with_distance(query[axis], at[axis], at[axis]);
        single::law_difference_sign(query[axis], at[axis]);
        let (near, far) = if gap.less_or_same(Single::positive_zero()) {
            (n.left, n.right)
        } else {
            (n.right, n.left)
        };
        lemma_found(near, positions, query, own);
        let closer = found(near, positions, query, own);
        assert(vector::finite(positions[closer]));
        vector::law_squared_distance_is_ordered(positions[closer], query);
        if gap.product(gap).less(vector::squared_distance(positions[closer], query)) {
            lemma_found(far, positions, query, closer);
        } else {
            // A point beyond the splitting plane is at least as far as the plane is.
            single::law_square_grows_with_magnitude(gap, gap);
            assert forall|i: int| #[trigger] holds(far, i) implies vector::squared_distance(
                positions[closer],
                query,
            ).key() <= vector::squared_distance(positions[i], query).key() by {
                assert(vector::finite(positions[i]));
                vector::lemma_squared_distance_at_least(positions[i], query, axis, at[axis]);
            }
        }
        assert(forall|i: int| #[trigger]
            holds(node, i) ==> i == n.vertex_index || holds(near, i) || holds(far, i));
    }
}

/// What a search of the tree ends with is a position that no other one is closer than.
pub proof fn law_nearest_is_closest(
    tree: KdTree,
    positions: Seq<[Single; 3]>,
    query: [Single; 3],
)
    requires
        tree.indexes(positions),
        vector::finite(query),
    ensures
        is_closest(positions, query, tree.nearest_to(positions, query)),
{
    let members = first_indices(positions.len());
    lemma_tree_is_split(Some(tree.root), members, positions, 0);
    assert(members.contains(tree.root.vertex_index as int));
    lemma_found(Some(tree.root), positions, query, tree.root.vertex_index as int);
    let r = tree.nearest_to(positions, query);
    assert forall|i: int| 0 <= i < positions.len() implies vector::squared_distance(
        positions[r],
        query,
    ).key() <= (#[trigger] vector::squared_distance(positions[i], query)).key() by {
        assert(members.contains(i));
        assert(holds(Some(tree.root), i));
    }
}

/// Improves the best match so far by whatever lies in the subtree at `node`.
fn nearest_recursive(
    node: &Box<KdNode>,
    positions: &[[Single; 3]],
    query: [Single; 3],
    best_index: &mut u32,
    best_dist_sq: &mut Single,
)
    requires
        is_split(Some(*node), positions@),
        *old(best_index) < positions@.len(),
        *old(best_dist_sq) == vector::squared_distance(
            positions@[*old(best_index) as int],
            query,
        ),
    ensures
        *final(best_index) == found(Some(*node), positions@, query, *old(best_index) as int),
        *final(best_index) < positions@.len(),
        *final(best_dist_sq) == vector::squared_distance(
            positions@[*final(best_index) as int],
            query,
        ),
    decreases node,
{
    let node_pos = positions[node.vertex_index as usize];
    let d_sq = v_squared_distance(node_pos, query);
    if d_sq.less_than(*best_dist_sq) {
        *best_dist_sq = d_sq;
        *best_index = node.vertex_index;
    }
    let ghost own = *best_index as int;
    let axis = node.split_axis as usize;
    let diff = query[axis].minus(node_pos[axis]);
    let (near, far) = if diff.at_most(Single { bits: 0 }) {
        (&node.left, &node.right)
    } else {
        (&node.right, &node.left)
    };
    match near {
        Some(n) => nearest_recursive(n, positions, query, best_index, best_dist_sq),
        None => {},
    }
    let ghost closer = *best_index as int;
    assert(closer == found(*near, positions@, query, own));
    // Only the far side can be left out: nothing on it is closer than the plane.
    if diff.times(diff).less_than(*best_dist_sq) {
        match far {
            Some(f) => nearest_recursive(f, positions, query, best_index, best_dist_sq),
            None => {},
        }
        assert(*best_index == found(*far, positions@, query, closer));
    }
}

spec fn in_range(s: Seq<u32>, lo: int, hi: int, x: int) -> bool {
    exists|j: int| lo <= j < hi && #[trigger] s[j] == x
}

/// What stands in `lo..hi`.
spec fn entries(s: Seq<u32>, lo: int, hi: int) -> Set<int> {
    Set::new(|x: int| in_range(s, lo, hi, x))
}

/// No two entries of `lo..hi` are the same.
spec fn distinct(s: Seq<u32>, lo: int, hi: int) -> bool {
    forall|i: int, j: int| lo <= i < j < hi ==> #[trigger] s[i] != #[trigger] s[j]
}

/// `t` is `s` with what stands in `lo..hi` moved about, and nothing else.
spec fn rearranged(s: Seq<u32>, t: Seq<u32>, lo: int, hi: int) -> bool {
    &&& t.len() == s.len()
    &&& distinct(s, lo, hi) ==> distinct(t, lo, hi)
    &&& forall|j: int| 0 <= j < s.len() && !(lo <= j < hi) ==> #[trigger] t[j] == s[j]
    &&& forall|x: int|
        #![trigger in_range(s, lo, hi, x)]
        #![trigger in_range(t, lo, hi, x)]
        in_range(s, lo, hi, x) <==> in_range(t, lo, hi, x)
}

proof fn lemma_rearranged_swap(s: Seq<u32>, lo: int, hi: int, i: int, j: int)
    requires
        0 <= lo <= i < hi <= s.len(),
        lo <= j < hi,
    ensures
        rearranged(s, s.update(i, s[j]).update(j, s[i]), lo, hi),
{
    let t = s.update(i, s[j]).update(j, s[i]);
    assert forall|x: int|
        #![trigger in_range(s, lo, hi, x)]
        #![trigger in_range(t, lo, hi, x)]
        in_range(s, lo, hi, x) <==> in_range(t, lo, hi, x) by {
        if in_range(s, lo, hi, x) {
            let w = choose|w: int| lo <= w < hi && #[trigger] s[w] == x;
            let v = if w == i {
                j
            } else if w == j {
                i
            } else {
                w
            };
            assert(t[v] == x);
        }
        if in_range(t, lo, hi, x) {
            let w = choose|w: int| lo <= w < hi && #[trigger] t[w] == x;
            let v = if w == i {
                j
            } else if w == j {
                i
            } else {
                w
            };
            assert(s[v] == x);
        }
    }
}

proof fn lemma_rearranged_inner(s: Seq<u32>, t: Seq<u32>, lo: int, a: int, b: int, hi: int)
    requires
        0 <= lo <= a <= b <= hi <= s.len(),
        rearranged(s, t, a, b),
    ensures
        rearranged(s, t, lo, hi),
{
    if distinct(s, lo, hi) {
        assert forall|i: int, j: int| lo <= i < j < hi implies #[trigger] t[i] != #[trigger] t[j] by {
            if a <= i < b && !(a <= j < b) {
                assert(in_range(t, a, b, t[i] as int));
                assert(in_range(s, a, b, t[i] as int));
            }
            if a <= j < b && !(a <= i < b) {
                assert(in_range(t, a, b, t[j] as int));
                assert(in_range(s, a, b, t[j] as int));
            }
        }
    }
    assert forall|x: int|
        #![trigger in_range(s, lo, hi, x)]
        #![trigger in_range(t, lo, hi, x)]
        in_range(s, lo, hi, x) <==> in_range(t, lo, hi, x) by {
        if in_range(s, lo, hi, x) {
            let w = choose|w: int| lo <= w < hi && #[trigger] s[w] == x;
            if a <= w < b {
                assert(in_range(s, a, b, x));
                let v = choose|v: int| a <= v < b && #[trigger] t[v] == x;
                assert(t[v] == x);
            } else {
                assert(t[w] == x);
            }
        }
        if in_range(t, lo, hi, x) {
            let w = choose|w: int| lo <= w < hi && #[trigger] t[w] == x;
            if a <= w < b {
                assert(in_range(t, a, b, x));
                let v = choose|v: int| a <= v < b && #[trigger] s[v] == x;
                assert(s[v] == x);
            } else {
                assert(s[w] == x);
            }
        }
    }
}

/// Entry `i` comes before entry `j` along `axis`.
spec fn ahead(s: Seq<u32>, positions: Seq<[Single; 3]>, axis: int, i: int, j: int) -> bool {
    precedes(positions, axis, s[i] as int, s[j] as int)
}

spec fn in_bounds(s: Seq<u32>, lo: int, hi: int, positions: Seq<[Single; 3]>) -> bool {
    forall|j: int| lo <= j < hi ==> #[trigger] s[j] < positions.len()
}

proof fn lemma_in_bounds_rearranged(
    s: Seq<u32>,
    t: Seq<u32>,
    lo: int,
    hi: int,
    positions: Seq<[Single; 3]>,
)
    requires
        0 <= lo <= hi <= s.len(),
        in_bounds(s, lo, hi, positions),
        rearranged(s, t, lo, hi),
    ensures
        in_bounds(t, lo, hi, positions),
{
    assert forall|j: int| lo <= j < hi implies #[trigger] t[j] < positions.len() by {
        assert(in_range(t, lo, hi, t[j] as int));
        assert(in_range(s, lo, hi, t[j] as int));
    }
}

fn swap_entries(indices: &mut Vec<u32>, i: usize, j: usize)
    requires
        i < old(indices)@.len(),
        j < old(indices)@.len(),
    ensures
        final(indices)@ == old(indices)@.update(i as int, old(indices)@[j as int]).update(
            j as int,
            old(indices)@[i as int],
        ),
{
    let x: u32 = indices[i];
    let y: u32 = indices[j];
    indices[i] = y;
    indices[j] = x;
}

fn comes_before(positions: &[[Single; 3]], axis: usize, i: u32, j: u32) -> (r: bool)
    requires
        all_finite(positions@),
        axis < 3,
        i < positions@.len(),
        j < positions@.len(),
    ensures
        r == precedes(positions@, axis as int, i as int, j as int),
{
    let x = positions[i as usize][axis];
    let y = positions[j as usize][axis];
    proof {
        assert(vector::finite(positions@[i as int]));
        assert(vector::finite(positions@[j as int]));
        vector::lemma_finite_component(positions@[i as int], axis as int);
        vector::lemma_finite_component(positions@[j as int], axis as int);
    }
    if x.less_than(y) {
        true
    } else if y.less_than(x) {
        false
    } else {
        i < j
    }
}

/// Parts `lo..hi` into the entries before, at and behind the pivot along `axis`.
/// Returns where the middle part starts and ends.
fn partition(
    indices: &mut Vec<u32>,
    positions: &[[Single; 3]],
    axis: usize,
    lo: usize,
    hi: usize,
    pivot: u32,
) -> (r: (usize, usize))
    requires
        all_finite(positions@),
        axis < 3,
        lo < hi <= old(indices)@.len(),
        in_bounds(old(indices)@, lo as int, hi as int, positions@),
        pivot < positions@.len(),
        in_range(old(indices)@, lo as int, hi as int, pivot as int),
    ensures
        rearranged(old(indices)@, final(indices)@, lo as int, hi as int),
        in_bounds(final(indices)@, lo as int, hi as int, positions@),
        lo <= r.0 < r.1 <= hi,
        forall|j: int|
            lo <= j < r.0 ==> precedes(
                positions@,
                axis as int,
                #[trigger] final(indices)@[j] as int,
                pivot as int,
            ),
        forall|j: int| r.0 <= j < r.1 ==> #[trigger] final(indices)@[j] == pivot,
        forall|j: int|
            r.1 <= j < hi ==> precedes(
                positions@,
                axis as int,
                pivot as int,
                #[trigger] final(indices)@[j] as int,
            ),
{
    let ghost start = indices@;
    let mut low: usize = lo;
    let mut next: usize = lo;
    let mut high: usize = hi;
    while next < high
        invariant
            all_finite(positions@),
            axis < 3,
            pivot < positions@.len(),
            lo <= low <= next <= high <= hi <= indices@.len(),
            rearranged(start, indices@, lo as int, hi as int),
            in_bounds(start, lo as int, hi as int, positions@),
            in_bounds(indices@, lo as int, hi as int, positions@),
            forall|j: int|
                lo <= j < low ==> precedes(
                    positions@,
                    axis as int,
                    #[trigger] indices@[j] as int,
                    pivot as int,
                ),
            forall|j: int| low <= j < next ==> #[trigger] indices@[j] == pivot,
            forall|j: int|
                high <= j < hi ==> precedes(
                    positions@,
                    axis as int,
                    pivot as int,
                    #[trigger] indices@[j] as int,
                ),
        decreases high - next,
    {
        let ghost before = indices@;
        let here: u32 = indices[next];
        if here == pivot {
            next = next + 1;
        } else if comes_before(positions, axis, here, pivot) {
            swap_entries(indices, low, next);
            proof {
                lemma_rearranged_swap(before, lo as int, hi as int, low as int, next as int);
                lemma_rearranged_chain(start, before, indices@, lo as int, hi as int);
                lemma_in_bounds_rearranged(start, indices@, lo as int, hi as int, positions@);
            }
            low = low + 1;
            next = next + 1;
        } else {
            high = high - 1;
            swap_entries(indices, next, high);
            proof {
                lemma_rearranged_swap(before, lo as int, hi as int, next as int, high as int);
                lemma_rearranged_chain(start, before, indices@, lo as int, hi as int);
                lemma_in_bounds_rearranged(start, indices@, lo as int, hi as int, positions@);
            }
        }
    }
    proof {
        assert(in_range(indices@, lo as int, hi as int, pivot as int));
        let w = choose|w: int| lo <= w < hi && #[trigger] indices@[w] == pivot as int;
        assert(low <= w < high);
    }
    (low, high)
}

proof fn lemma_rearranged_chain(s: Seq<u32>, t: Seq<u32>, u: Seq<u32>, lo: int, hi: int)
    requires
        rearranged(s, t, lo, hi),
        rearranged(t, u, lo, hi),
    ensures
        rearranged(s, u, lo, hi),
{
    assert forall|x: int|
        #![trigger in_range(s, lo, hi, x)]
        #![trigger in_range(u, lo, hi, x)]
        in_range(s, lo, hi, x) <==> in_range(u, lo, hi, x) by {
        assert(in_range(s, lo, hi, x) <==> in_range(t, lo, hi, x));
        assert(in_range(t, lo, hi, x) <==> in_range(u, lo, hi, x));
    }
}

/// Moves the entries of `lo..hi` about until entry `n` is the one that sorting
/// along `axis` would put there: those in front of it come before it, and those behind it
/// after it.
fn select_nth(
    indices: &mut Vec<u32>,
    positions: &[[Single; 3]],
    axis: usize,
    lo: usize,
    hi: usize,
    n: usize,
)
    requires
        all_finite(positions@),
        axis < 3,
        lo <= n < hi <= old(indices)@.len(),
        in_bounds(old(indices)@, lo as int, hi as int, positions@),
        distinct(old(indices)@, lo as int, hi as int),
    ensures
        rearranged(old(indices)@, final(indices)@, lo as int, hi as int),
        in_bounds(final(indices)@, lo as int, hi as int, positions@),
        distinct(final(indices)@, lo as int, hi as int),
        forall|j: int|
            lo <= j < n ==> #[trigger] ahead(final(indices)@, positions@, axis as int, j, n as int),
        forall|j: int|
            n < j < hi ==> #[trigger] ahead(final(indices)@, positions@, axis as int, n as int, j),
{
    let ghost start = indices@;
    let mut a: usize = lo;
    let mut b: usize = hi;
    while b - a > 1
        invariant
            all_finite(positions@),
            axis < 3,
            lo <= a <= n < b <= hi <= indices@.len(),
            start == old(indices)@,
            in_bounds(start, lo as int, hi as int, positions@),
            in_bounds(indices@, lo as int, hi as int, positions@),
            distinct(start, lo as int, hi as int),
            rearranged(start, indices@, lo as int, hi as int),
            forall|i: int, j: int|
                lo <= i < a <= j < b ==> #[trigger] ahead(indices@, positions@, axis as int, i, j),
            forall|i: int, j: int|
                a <= i < b <= j < hi ==> #[trigger] ahead(indices@, positions@, axis as int, i, j),
        decreases b - a,
    {
        let middle: usize = a + (b - a) / 2;
        let pivot: u32 = indices[middle];
        let ghost before = indices@;
        assert(in_range(before, a as int, b as int, pivot as int));
        let (low, high) = partition(indices, positions, axis, a, b, pivot);
        proof {
            lemma_rearranged_inner(before, indices@, lo as int, a as int, b as int, hi as int);
            lemma_rearranged_chain(start, before, indices@, lo as int, hi as int);
            lemma_in_bounds_rearranged(start, indices@, lo as int, hi as int, positions@);
            lemma_ahead_kept(
                before,
                indices@,
                positions@,
                axis as int,
                lo as int,
                a as int,
                b as int,
                hi as int,
            );
            assert(high == low + 1) by {
                if high > low + 1 {
                    assert(indices@[low as int] == indices@[low + 1]);
                }
            }
        }
        if n < low {
            b = low;
        } else if n < high {
            return;
        } else {
            a = high;
        }
    }
}

/// Moving entries about inside `a..b` keeps how they relate to those outside.
proof fn lemma_ahead_kept(
    s: Seq<u32>,
    t: Seq<u32>,
    positions: Seq<[Single; 3]>,
    axis: int,
    lo: int,
    a: int,
    b: int,
    hi: int,
)
    requires
        0 <= lo <= a <= b <= hi <= s.len(),
        rearranged(s, t, a, b),
        forall|i: int, j: int|
            lo <= i < a <= j < b ==> #[trigger] ahead(s, positions, axis, i, j),
        forall|i: int, j: int|
            a <= i < b <= j < hi ==> #[trigger] ahead(s, positions, axis, i, j),
    ensures
        forall|i: int, j: int|
            lo <= i < a <= j < b ==> #[trigger] ahead(t, positions, axis, i, j),
        forall|i: int, j: int|
            a <= i < b <= j < hi ==> #[trigger] ahead(t, positions, axis, i, j),
{
    assert forall|i: int, j: int| lo <= i < a <= j < b implies #[trigger] ahead(
        t,
        positions,
        axis,
        i,
        j,
    ) by {
        assert(in_range(t, a, b, t[j] as int));
        assert(in_range(s, a, b, t[j] as int));
        let w = choose|w: int| a <= w < b && #[trigger] s[w] == t[j] as int;
        assert(ahead(s, positions, axis, i, w));
        assert(t[i] == s[i]);
    }
    assert forall|i: int, j: int| a <= i < b <= j < hi implies #[trigger] ahead(
        t,
        positions,
        axis,
        i,
        j,
    ) by {
        assert(in_range(t, a, b, t[i] as int));
        assert(in_range(s, a, b, t[i] as int));
        let w = choose|w: int| a <= w < b && #[trigger] s[w] == t[i] as int;
        assert(ahead(s, positions, axis, w, j));
        assert(t[j] == s[j]);
    }
}

/// There are as many distinct entries in `lo..hi` as there are places.
proof fn lemma_entries_len(s: Seq<u32>, lo: int, hi: int)
    requires
        0 <= lo <= hi <= s.len(),
        distinct(s, lo, hi),
    ensures
        entries(s, lo, hi).finite(),
        entries(s, lo, hi).len() == hi - lo,
    decreases hi - lo,
{
    if lo == hi {
        assert(entries(s, lo, hi) =~= Set::<int>::empty());
    } else {
        lemma_entries_len(s, lo, hi - 1);
        let rest = entries(s, lo, hi - 1);
        let last = s[hi - 1] as int;
        assert(!rest.contains(last));
        assert forall|x: int| entries(s, lo, hi).contains(x) <==> rest.insert(last).contains(x) by {
            if rest.contains(x) {
                let w = choose|w: int| lo <= w < hi - 1 && #[trigger] s[w] == x;
                assert(s[w] == x);
            }
            if entries(s, lo, hi).contains(x) && x != last {
                let w = choose|w: int| lo <= w < hi && #[trigger] s[w] == x;
                assert(w < hi - 1);
            }
        }
        assert(entries(s, lo, hi) =~= rest.insert(last));
    }
}

/// Around a selected entry stand the entries that come before it and those that come
/// after it.
proof fn lemma_halves(
    s: Seq<u32>,
    positions: Seq<[Single; 3]>,
    axis: int,
    lo: int,
    median: int,
    hi: int,
)
    requires
        0 <= lo <= median < hi <= s.len(),
        forall|j: int| lo <= j < median ==> #[trigger] ahead(s, positions, axis, j, median),
        forall|j: int| median < j < hi ==> #[trigger] ahead(s, positions, axis, median, j),
    ensures
        lower(entries(s, lo, hi), positions, axis, s[median] as int) == entries(s, lo, median),
        upper(entries(s, lo, hi), positions, axis, s[median] as int) == entries(s, median + 1, hi),
        entries(s, lo, hi).contains(s[median] as int),
{
    let all = entries(s, lo, hi);
    let top = s[median] as int;
    assert(in_range(s, lo, hi, top));
    assert forall|x: int| lower(all, positions, axis, top).contains(x) <==> entries(
        s,
        lo,
        median,
    ).contains(x) by {
        if entries(s, lo, median).contains(x) {
            let w = choose|w: int| lo <= w < median && #[trigger] s[w] == x;
            assert(ahead(s, positions, axis, w, median));
            assert(in_range(s, lo, hi, x));
        }
        if lower(all, positions, axis, top).contains(x) {
            let w = choose|w: int| lo <= w < hi && #[trigger] s[w] == x;
            if w > median {
                assert(ahead(s, positions, axis, median, w));
            }
            assert(w < median);
        }
    }
    assert forall|x: int| upper(all, positions, axis, top).contains(x) <==> entries(
        s,
        median + 1,
        hi,
    ).contains(x) by {
        if entries(s, median + 1, hi).contains(x) {
            let w = choose|w: int| median + 1 <= w < hi && #[trigger] s[w] == x;
            assert(ahead(s, positions, axis, median, w));
            assert(in_range(s, lo, hi, x));
        }
        if upper(all, positions, axis, top).contains(x) {
            let w = choose|w: int| lo <= w < hi && #[trigger] s[w] == x;
            if w < median {
                assert(ahead(s, positions, axis, w, median));
            }
            assert(w > median);
        }
    }
    assert(lower(all, positions, axis, top) =~= entries(s, lo, median));
    assert(upper(all, positions, axis, top) =~= entries(s, median + 1, hi));
}

/// Builds the subtree of the positions that entries `lo..hi` stand for.
fn build_recursive(
    indices: &mut Vec<u32>,
    lo: usize,
    hi: usize,
    positions: &[[Single; 3]],
    depth: usize,
) -> (r: Option<Box<KdNode>>)
    requires
        all_finite(positions@),
        lo <= hi <= old(indices)@.len(),
        in_bounds(old(indices)@, lo as int, hi as int, positions@),
        distinct(old(indices)@, lo as int, hi as int),
        depth < 3,
    ensures
        rearranged(old(indices)@, final(indices)@, lo as int, hi as int),
        r is Some <==> lo < hi,
        is_tree_of(r, entries(old(indices)@, lo as int, hi as int), positions@, depth as int),
    decreases hi - lo,
{
    if lo == hi {
        assert(entries(indices@, lo as int, hi as int) =~= Set::<int>::empty());
        return None;
    }
    let axis = depth;
    let median: usize = lo + (hi - lo) / 2;
    let ghost start = indices@;
    select_nth(indices, positions, axis, lo, hi, median);
    let ghost selected = indices@;
    let vertex_index: u32 = indices[median];
    let deeper: usize = if depth == 2 {
        0
    } else {
        depth + 1
    };
    let left = build_recursive(indices, lo, median, positions, deeper);
    let ghost half = indices@;
    proof {
        assert forall|j: int| median < j < hi implies #[trigger] half[j] < positions@.len() by {
            assert(half[j] == selected[j]);
        }
        assert forall|i: int, j: int| median < i < j < hi implies #[trigger] half[i]
            != #[trigger] half[j] by {
            assert(half[i] == selected[i] && half[j] == selected[j]);
        }
    }
    let right = build_recursive(indices, median + 1, hi, positions, deeper);
    let node = Box::new(KdNode { vertex_index, split_axis: axis as u8, left, right });
    proof {
        lemma_rearranged_inner(selected, half, lo as int, lo as int, median as int, hi as int);
        lemma_rearranged_inner(half, indices@, lo as int, median + 1, hi as int, hi as int);
        lemma_rearranged_chain(start, selected, half, lo as int, hi as int);
        lemma_rearranged_chain(start, half, indices@, lo as int, hi as int);
        assert(entries(start, lo as int, hi as int) =~= entries(selected, lo as int, hi as int));
        let from = median + 1;
        assert forall|x: int|
            #![trigger in_range(selected, from, hi as int, x)]
            in_range(selected, from, hi as int, x) <==> in_range(half, from, hi as int, x) by {
            if in_range(selected, median + 1, hi as int, x) {
                let w = choose|w: int| median + 1 <= w < hi && #[trigger] selected[w] == x;
                assert(half[w] == x);
            }
            if in_range(half, median + 1, hi as int, x) {
                let w = choose|w: int| median + 1 <= w < hi && #[trigger] half[w] == x;
                assert(selected[w] == x);
            }
        }
        assert(entries(selected, median + 1, hi as int) =~= entries(half, median + 1, hi as int));
        lemma_halves(selected, positions@, axis as int, lo as int, median as int, hi as int);
        lemma_entries_len(selected, lo as int, hi as int);
        lemma_entries_len(selected, lo as int, median as int);
    }
    Some(node)
}

} // verus!
