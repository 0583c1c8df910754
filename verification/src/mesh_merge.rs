use crate::text;
use crate::text::append_decimal;
use crate::vertex::SkinnedVertex;
use vstd::prelude::*;
use vstd::string::StringExecFns;

verus! {

#[derive(Clone, Copy, Debug, PartialEq, Eq)]
pub enum MeshMergeError {
    /// The indices of a part do not make whole triangles.
    IndexCountNotMultipleOfThree { part_index: usize, index_count: usize },
    /// The vertices up to and with this part cannot be counted in a `u32`, or one of
    /// its indices cannot be counted on from the parts before.
    VertexOffsetOverflow { part_index: usize },
}

impl MeshMergeError {
    /// The text that [`MeshMergeError::message`] returns.
    pub open spec fn text(self) -> Seq<char> {
        match self {
            MeshMergeError::IndexCountNotMultipleOfThree { part_index, index_count } => "part["@
                + text::decimal(part_index as nat) + "] has "@ + text::decimal(index_count as nat)
                + " indices, which is not a multiple of 3 (this crate's loaders only ever emit triangle lists)"@,
            MeshMergeError::VertexOffsetOverflow { part_index } =>
                "cumulative vertex offset overflowed u32::MAX before part["@ + text::decimal(
                part_index as nat,
            )
                + "]; too many/too-large parts to merge into a single u32-indexed buffer"@,
        }
    }

    /// What went wrong, in words.
    pub fn message(&self) -> (r: String)
        ensures
            r@ == self.text(),
    {
        match self {
            MeshMergeError::IndexCountNotMultipleOfThree { part_index, index_count } => {
                let mut m = String::from_str("part[");
                append_decimal(&mut m, *part_index as u64);
                m.append("] has ");
                append_decimal(&mut m, *index_count as u64);
                m.append(
                    " indices, which is not a multiple of 3 (this crate's loaders only ever emit triangle lists)",
                );
                m
            },
            MeshMergeError::VertexOffsetOverflow { part_index } => {
                let mut m = String::from_str(
                    "cumulative vertex offset overflowed u32::MAX before part[",
                );
                append_decimal(&mut m, *part_index as u64);
                m.append("]; too many/too-large parts to merge into a single u32-indexed buffer");
                m
            },
        }
    }
}

/// How many vertices the first `n` parts have.
pub open spec fn vertex_offset(parts: Seq<(&[SkinnedVertex], &[u32])>, n: int) -> nat
    decreases n,
{
    if n <= 0 {
        0
    } else {
        vertex_offset(parts, n - 1) + parts[n - 1].0@.len()
    }
}

/// The vertices of the first `n` parts, one part behind the other.
pub open spec fn merged_vertices(parts: Seq<(&[SkinnedVertex], &[u32])>, n: int) -> Seq<SkinnedVertex>
    decreases n,
{
    if n <= 0 {
        Seq::empty()
    } else {
        merged_vertices(parts, n - 1) + parts[n - 1].0@
    }
}

/// The indices of the first `n` parts, each counted on from the vertices of the
/// parts before.
pub open spec fn merged_indices(parts: Seq<(&[SkinnedVertex], &[u32])>, n: int) -> Seq<u32>
    decreases n,
{
    if n <= 0 {
        Seq::empty()
    } else {
        merged_indices(parts, n - 1) + counted_on(parts[n - 1].1@, vertex_offset(parts, n - 1))
    }
}

pub open spec fn counted_on(indices: Seq<u32>, offset: nat) -> Seq<u32> {
    indices.map_values(|index: u32| (index + offset) as u32)
}

/// Every index can be counted on from `offset`.
pub open spec fn can_count_on(indices: Seq<u32>, offset: nat) -> bool {
    forall|i: int| 0 <= i < indices.len() ==> (#[trigger] indices[i]) + offset <= u32::MAX
}

/// Why part `i` cannot be merged.
pub open spec fn part_error(parts: Seq<(&[SkinnedVertex], &[u32])>, i: int) -> Option<MeshMergeError> {
    let indices = parts[i].1@;
    if indices.len() % 3 != 0 {
        Some(
            MeshMergeError::IndexCountNotMultipleOfThree {
                part_index: i as usize,
                index_count: indices.len() as usize,
            },
        )
    } else if !can_count_on(indices, vertex_offset(parts, i)) || vertex_offset(parts, i + 1)
        > u32::MAX {
        Some(MeshMergeError::VertexOffsetOverflow { part_index: i as usize })
    } else {
        None
    }
}

/// Why the first of the first `n` parts that cannot be merged cannot be.
pub open spec fn merge_error(parts: Seq<(&[SkinnedVertex], &[u32])>, n: int) -> Option<MeshMergeError>
    decreases n,
{
    if n <= 0 {
        None
    } else {
        match merge_error(parts, n - 1) {
            Some(e) => Some(e),
            None => part_error(parts, n - 1),
        }
    }
}

proof fn lemma_merge_error_stays(parts: Seq<(&[SkinnedVertex], &[u32])>, i: int, n: int)
    requires
        0 <= i <= n,
        merge_error(parts, i) is Some,
    ensures
        merge_error(parts, n) == merge_error(parts, i),
    decreases n - i,
{
    if i < n {
        lemma_merge_error_stays(parts, i, n - 1);
    }
}

/// Concatenates the vertex and index buffers of several parts into one pair of
/// buffers, in the order given. No parts make empty buffers.
pub fn merge_parts(parts: &[(&[SkinnedVertex], &[u32])]) -> (r: Result<
    (Vec<SkinnedVertex>, Vec<u32>),
    MeshMergeError,
>)
    ensures
        match merge_error(parts@, parts@.len() as int) {
            Some(e) => r == Err::<(Vec<SkinnedVertex>, Vec<u32>), MeshMergeError>(e),
            None => {
                &&& r is Ok
                &&& r->Ok_0.0@ == merged_vertices(parts@, parts@.len() as int)
                &&& r->Ok_0.1@ == merged_indices(parts@, parts@.len() as int)
            },
        },
{
    let mut combined_vertices: Vec<SkinnedVertex> = Vec::new();
    let mut combined_indices: Vec<u32> = Vec::new();
    let mut cumulative_offset: u32 = 0;
    let count: usize = parts.len();
    let mut k: usize = 0;
    while k < count
        invariant
            k <= count == parts@.len(),
            merge_error(parts@, k as int) is None,
            cumulative_offset == vertex_offset(parts@, k as int),
            combined_vertices@ == merged_vertices(parts@, k as int),
            combined_indices@ == merged_indices(parts@, k as int),
        decreases count - k,
    {
        let (vertices, indices) = parts[k];
        if indices.len() % 3 != 0 {
            proof {
                lemma_merge_error_stays(parts@, k + 1, count as int);
            }
            return Err(
                MeshMergeError::IndexCountNotMultipleOfThree {
                    part_index: k,
                    index_count: indices.len(),
                },
            );
        }
        combined_vertices.extend_from_slice(vertices);
        assert(combined_vertices@ =~= merged_vertices(parts@, k + 1));
        let ghost before = combined_indices@;
        let mut i: usize = 0;
        assert(before + counted_on(indices@.take(0), cumulative_offset as nat) =~= before);
        while i < indices.len()
            invariant
                k < count == parts@.len(),
                parts@[k as int] == (vertices, indices),
                indices@.len() % 3 == 0,
                merge_error(parts@, k as int) is None,
                cumulative_offset == vertex_offset(parts@, k as int),
                i <= indices@.len(),
                forall|j: int|
                    0 <= j < i ==> (#[trigger] indices@[j]) + cumulative_offset <= u32::MAX,
                combined_indices@ == before + counted_on(
                    indices@.take(i as int),
                    cumulative_offset as nat,
                ),
            decreases indices@.len() - i,
        {
            match indices[i].checked_add(cumulative_offset) {
                Some(index) => {
                    combined_indices.push(index);
                },
                None => {
                    proof {
                        assert(!can_count_on(indices@, cumulative_offset as nat));
                        lemma_merge_error_stays(parts@, k + 1, count as int);
                    }
                    return Err(MeshMergeError::VertexOffsetOverflow { part_index: k });
                },
            }
            i = i + 1;
            assert(combined_indices@ =~= before + counted_on(
                indices@.take(i as int),
                cumulative_offset as nat,
            ));
        }
        assert(indices@.take(i as int) =~= indices@);
        if vertices.len() as u64 > (u32::MAX - cumulative_offset) as u64 {
            proof {
                lemma_merge_error_stays(parts@, k + 1, count as int);
            }
            return Err(MeshMergeError::VertexOffsetOverflow { part_index: k });
        }
        cumulative_offset = cumulative_offset + vertices.len() as u32;
        k = k + 1;
    }
    Ok((combined_vertices, combined_indices))
}

/// A single part without errors is merged into itself.
pub proof fn law_single_part_is_identity(parts: Seq<(&[SkinnedVertex], &[u32])>)
    requires
        parts.len() == 1,
        merge_error(parts, 1) is None,
    ensures
        merged_vertices(parts, 1) == parts[0].0@,
        merged_indices(parts, 1) == parts[0].1@,
{
    reveal_with_fuel(merged_vertices, 2);
    reveal_with_fuel(merged_indices, 2);
    assert(vertex_offset(parts, 0) == 0);
    assert(counted_on(parts[0].1@, 0) =~= parts[0].1@);
    assert(merged_vertices(parts, 1) =~= parts[0].0@);
    assert(merged_indices(parts, 1) =~= parts[0].1@);
}

/// No parts at all are no error.
pub proof fn law_no_parts_make_empty_buffers(parts: Seq<(&[SkinnedVertex], &[u32])>)
    requires
        parts.len() == 0,
    ensures
        merge_error(parts, parts.len() as int) is None,
        merged_vertices(parts, parts.len() as int).len() == 0,
        merged_indices(parts, parts.len() as int).len() == 0,
{
}

proof fn lemma_merged_len(parts: Seq<(&[SkinnedVertex], &[u32])>, n: int)
    requires
        0 <= n,
    ensures
        merged_vertices(parts, n).len() == vertex_offset(parts, n),
    decreases n,
{
    if n > 0 {
        lemma_merged_len(parts, n - 1);
    }
}

/// The parts of a merge keep their own vertices: where every part's indices lie
/// among its vertices, every merged index leads to a merged vertex.
pub proof fn law_merged_indices_in_range(parts: Seq<(&[SkinnedVertex], &[u32])>, n: int, i: int)
    requires
        0 <= n <= parts.len(),
        merge_error(parts, n) is None,
        forall|k: int, j: int|
            0 <= k < n && 0 <= j < parts[k].1@.len() ==> (#[trigger] parts[k].1@[j])
                < parts[k].0@.len(),
        0 <= i < merged_indices(parts, n).len(),
    ensures
        merged_indices(parts, n)[i] < merged_vertices(parts, n).len(),
    decreases n,
{
    lemma_merged_len(parts, n);
    lemma_merged_len(parts, n - 1);
    let before = merged_indices(parts, n - 1);
    if i < before.len() {
        law_merged_indices_in_range(parts, n - 1, i);
    } else {
        let own = parts[n - 1].1@;
        let j = i - before.len();
        assert(own[j] < parts[n - 1].0@.len());
        assert(part_error(parts, n - 1) is None);
        assert(own[j] + vertex_offset(parts, n - 1) <= u32::MAX);
    }
}

/// Index `j` of part `k` leads, in the merged buffers, to the very vertex that it led
/// to in the part.
pub proof fn law_merged_index_leads_to_own_vertex(
    parts: Seq<(&[SkinnedVertex], &[u32])>,
    n: int,
    k: int,
    j: int,
)
    requires
        0 <= k < n <= parts.len(),
        merge_error(parts, n) is None,
        0 <= j < parts[k].1@.len(),
        parts[k].1@[j] < parts[k].0@.len(),
    ensures
        ({
            let at = merged_indices(parts, k).len() + j;
            let index = merged_indices(parts, n)[at];
            &&& 0 <= at < merged_indices(parts, n).len()
            &&& index < merged_vertices(parts, n).len()
            &&& merged_vertices(parts, n)[index as int] == parts[k].0@[parts[k].1@[j] as int]
        }),
    decreases n,
{
    lemma_merged_len(parts, n);
    lemma_merged_len(parts, n - 1);
    if k < n - 1 {
        law_merged_index_leads_to_own_vertex(parts, n - 1, k, j);
    } else {
        let own = parts[k].1@;
        assert(part_error(parts, k) is None);
        assert(own[j] + vertex_offset(parts, k) <= u32::MAX);
    }
}

/// What merges without error has whole triangles, and vertices that a `u32` can count.
proof fn lemma_merged_whole(parts: Seq<(&[SkinnedVertex], &[u32])>, n: int)
    requires
        0 <= n,
        merge_error(parts, n) is None,
    ensures
        merged_indices(parts, n).len() % 3 == 0,
        merged_vertices(parts, n).len() <= u32::MAX,
    decreases n,
{
    if n > 0 {
        lemma_merged_whole(parts, n - 1);
        lemma_merged_len(parts, n);
        assert(part_error(parts, n - 1) is None);
    }
}

/// The first parts merge as they do with no others behind them.
proof fn lemma_merge_prefix(
    a: Seq<(&[SkinnedVertex], &[u32])>,
    b: Seq<(&[SkinnedVertex], &[u32])>,
    n: int,
)
    requires
        0 <= n <= a.len(),
    ensures
        vertex_offset(a + b, n) == vertex_offset(a, n),
        merged_vertices(a + b, n) == merged_vertices(a, n),
        merged_indices(a + b, n) == merged_indices(a, n),
        merge_error(a + b, n) == merge_error(a, n),
    decreases n,
{
    if n > 0 {
        lemma_merge_prefix(a, b, n - 1);
        assert((a + b)[n - 1] == a[n - 1]);
    }
}

/// Counting on by two offsets is counting on by their sum.
proof fn lemma_counted_on_twice(indices: Seq<u32>, first: nat, second: nat)
    requires
        can_count_on(indices, first),
    ensures
        can_count_on(counted_on(indices, first), second) <==> can_count_on(indices, first + second),
        can_count_on(indices, first + second) ==> counted_on(counted_on(indices, first), second)
            == counted_on(indices, first + second),
{
    let once = counted_on(indices, first);
    assert forall|i: int| 0 <= i < indices.len() implies #[trigger] once[i] == indices[i] + first by {}
    if can_count_on(once, second) {
        assert forall|i: int| 0 <= i < indices.len() implies (#[trigger] indices[i]) + (first
            + second) <= u32::MAX by {
            assert(once[i] + second <= u32::MAX);
        }
    }
    if can_count_on(indices, first + second) {
        assert(counted_on(once, second) =~= counted_on(indices, first + second));
    }
}

/// The second parts merge behind the first as they do on their own, with their indices
/// counted on from the vertices of the first.
proof fn lemma_merge_suffix(
    a: Seq<(&[SkinnedVertex], &[u32])>,
    b: Seq<(&[SkinnedVertex], &[u32])>,
    m: int,
)
    requires
        0 <= m <= b.len(),
        merge_error(a, a.len() as int) is None,
        merge_error(b, m) is None,
    ensures
        ({
            let n = a.len() + m;
            let base = vertex_offset(a, a.len() as int);
            let fits = base + vertex_offset(b, m) <= u32::MAX && can_count_on(
                merged_indices(b, m),
                base,
            );
            &&& vertex_offset(a + b, n) == base + vertex_offset(b, m)
            &&& merged_vertices(a + b, n) == merged_vertices(a, a.len() as int) + merged_vertices(
                b,
                m,
            )
            &&& merge_error(a + b, n) is None <==> fits
            &&& fits ==> merged_indices(a + b, n) == merged_indices(a, a.len() as int) + counted_on(
                merged_indices(b, m),
                base,
            )
        }),
    decreases m,
{
    let n = a.len() + m;
    let base = vertex_offset(a, a.len() as int);
    lemma_merge_prefix(a, b, a.len() as int);
    lemma_merged_len(a, a.len() as int);
    lemma_merged_whole(a, a.len() as int);
    if m == 0 {
        assert(merged_vertices(a + b, n) =~= merged_vertices(a, n) + merged_vertices(b, m));
        assert(merged_indices(a + b, n) =~= merged_indices(a, n) + counted_on(
            merged_indices(b, m),
            base,
        ));
    } else {
        lemma_merge_suffix(a, b, m - 1);
        assert((a + b)[n - 1] == b[m - 1]);
        assert(part_error(b, m - 1) is None);
        let own = b[m - 1].1@;
        let offset = vertex_offset(b, m - 1);
        let before = merged_indices(b, m - 1);
        let moved = counted_on(own, offset);
        lemma_counted_on_twice(own, offset, base);
        assert(merged_indices(b, m) == before + moved);
        assert(merged_vertices(a + b, n) =~= merged_vertices(a, a.len() as int) + merged_vertices(
            b,
            m,
        ));
        if can_count_on(before + moved, base) {
            assert forall|i: int| 0 <= i < before.len() implies (#[trigger] before[i]) + base
                <= u32::MAX by {
                assert((before + moved)[i] == before[i]);
            }
            assert forall|i: int| 0 <= i < moved.len() implies (#[trigger] moved[i]) + base
                <= u32::MAX by {
                assert((before + moved)[before.len() + i] == moved[i]);
            }
        }
        assert(can_count_on(before + moved, base) <==> can_count_on(before, base) && can_count_on(
            moved,
            base,
        ));
        assert(counted_on(before + moved, base) =~= counted_on(before, base) + counted_on(
            moved,
            base,
        ));
        assert(offset + base == vertex_offset(a + b, n - 1));
        if base + vertex_offset(b, m) <= u32::MAX && can_count_on(merged_indices(b, m), base) {
            assert(merged_indices(a + b, n) =~= merged_indices(a, a.len() as int) + counted_on(
                merged_indices(b, m),
                base,
            ));
        }
    }
}

/// Merging in groups is merging at once. Where `a` and `b` merge, and `groups` are the two
/// results, then `a` and `b` behind it merge if and only if the groups do, and that is if
/// and only if the vertices of both can be counted and no index of the second outgrows a
/// `u32`. The buffers are then the same: those of `a`, and behind them those of `b` with
/// its indices counted on.
pub proof fn law_merging_in_groups(
    a: Seq<(&[SkinnedVertex], &[u32])>,
    b: Seq<(&[SkinnedVertex], &[u32])>,
    groups: Seq<(&[SkinnedVertex], &[u32])>,
)
    requires
        merge_error(a, a.len() as int) is None,
        merge_error(b, b.len() as int) is None,
        groups.len() == 2,
        groups[0].0@ == merged_vertices(a, a.len() as int),
        groups[0].1@ == merged_indices(a, a.len() as int),
        groups[1].0@ == merged_vertices(b, b.len() as int),
        groups[1].1@ == merged_indices(b, b.len() as int),
    ensures
        ({
            let both = a + b;
            let n = both.len() as int;
            let base = groups[0].0@.len();
            let fits = base + groups[1].0@.len() <= u32::MAX && can_count_on(groups[1].1@, base);
            &&& merge_error(both, n) is None <==> fits
            &&& merge_error(groups, 2) is None <==> fits
            &&& merged_vertices(both, n) == groups[0].0@ + groups[1].0@
            &&& merged_vertices(groups, 2) == merged_vertices(both, n)
            &&& fits ==> merged_indices(both, n) == groups[0].1@ + counted_on(groups[1].1@, base)
            &&& fits ==> merged_indices(groups, 2) == merged_indices(both, n)
        }),
{
    lemma_merge_suffix(a, b, b.len() as int);
    lemma_merged_len(a, a.len() as int);
    lemma_merged_len(b, b.len() as int);
    lemma_merged_whole(a, a.len() as int);
    lemma_merged_whole(b, b.len() as int);
    reveal_with_fuel(merge_error, 3);
    reveal_with_fuel(vertex_offset, 3);
    reveal_with_fuel(merged_vertices, 3);
    reveal_with_fuel(merged_indices, 3);
    assert(counted_on(groups[0].1@, 0) =~= groups[0].1@);
    assert(merged_vertices(groups, 1) =~= groups[0].0@);
    assert(merged_indices(groups, 1) =~= groups[0].1@);
    assert(part_error(groups, 0) is None);
}

/// Vertex `j` of part `k` stands in the merged buffer behind all vertices of the parts
/// before.
pub proof fn law_merged_vertices_keep_their_order(
    parts: Seq<(&[SkinnedVertex], &[u32])>,
    n: int,
    k: int,
    j: int,
)
    requires
        0 <= k < n <= parts.len(),
        0 <= j < parts[k].0@.len(),
    ensures
        merged_vertices(parts, k).len() + j < merged_vertices(parts, n).len(),
        merged_vertices(parts, n)[merged_vertices(parts, k).len() + j] == parts[k].0@[j],
    decreases n,
{
    if k < n - 1 {
        law_merged_vertices_keep_their_order(parts, n - 1, k, j);
    }
}

/// Index `j` of part `k` stands in the merged buffer behind all indices of the parts
/// before, larger by the number of their vertices.
pub proof fn law_merged_indices_keep_their_order(
    parts: Seq<(&[SkinnedVertex], &[u32])>,
    n: int,
    k: int,
    j: int,
)
    requires
        0 <= k < n <= parts.len(),
        merge_error(parts, n) is None,
        0 <= j < parts[k].1@.len(),
    ensures
        merged_indices(parts, k).len() + j < merged_indices(parts, n).len(),
        merged_indices(parts, n)[merged_indices(parts, k).len() + j] == parts[k].1@[j]
            + merged_vertices(parts, k).len(),
    decreases n,
{
    lemma_merged_len(parts, k);
    if k < n - 1 {
        law_merged_indices_keep_their_order(parts, n - 1, k, j);
    } else {
        assert(part_error(parts, k) is None);
        assert(parts[k].1@[j] + vertex_offset(parts, k) <= u32::MAX);
    }
}

/// The merged buffers hold what the parts hold, and no more.
pub proof fn law_merged_buffers_grow_by_each_part(
    parts: Seq<(&[SkinnedVertex], &[u32])>,
    k: int,
)
    requires
        0 <= k < parts.len(),
    ensures
        merged_vertices(parts, 0).len() == 0,
        merged_indices(parts, 0).len() == 0,
        merged_vertices(parts, k + 1).len() == merged_vertices(parts, k).len() + parts[k].0@.len(),
        merged_indices(parts, k + 1).len() == merged_indices(parts, k).len() + parts[k].1@.len(),
{
}

/// Parts can be merged if and only if each has whole triangles, all vertices together can
/// be counted in a `u32`, and no index outgrows one. What is reported otherwise is the
/// first part that cannot be merged.
pub proof fn law_mergeable_parts(parts: Seq<(&[SkinnedVertex], &[u32])>, n: int)
    requires
        0 <= n <= parts.len(),
        parts.len() <= usize::MAX,
    ensures
        merge_error(parts, n) is None <==> {
            &&& merged_vertices(parts, n).len() <= u32::MAX
            &&& forall|k: int| 0 <= k < n ==> (#[trigger] parts[k]).1@.len() % 3 == 0
            &&& forall|k: int, j: int|
                0 <= k < n && 0 <= j < parts[k].1@.len() ==> (#[trigger] parts[k].1@[j])
                    + merged_vertices(parts, k).len() <= u32::MAX
        },
        merge_error(parts, n) matches Some(e) ==> {
            let at = match e {
                MeshMergeError::IndexCountNotMultipleOfThree { part_index, .. } => part_index,
                MeshMergeError::VertexOffsetOverflow { part_index } => part_index,
            };
            &&& at < n
            &&& merge_error(parts, at as int) is None
            &&& e is IndexCountNotMultipleOfThree <==> parts[at as int].1@.len() % 3 != 0
            &&& e matches MeshMergeError::IndexCountNotMultipleOfThree { index_count, .. }
                ==> index_count == parts[at as int].1@.len()
        },
    decreases n,
{
    lemma_merged_len(parts, n);
    if n > 0 {
        law_mergeable_parts(parts, n - 1);
        lemma_merged_len(parts, n - 1);
        assert(parts[n - 1].1.len() == parts[n - 1].1@.len());
        assert(can_count_on(parts[n - 1].1@, vertex_offset(parts, n - 1)) <==> forall|j: int|
            0 <= j < parts[n - 1].1@.len() ==> (#[trigger] parts[n - 1].1@[j]) + merged_vertices(
                parts,
                n - 1,
            ).len() <= u32::MAX);
    }
}

} // verus!
