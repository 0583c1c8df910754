use crate::accuracy;
use crate::error::{clear_last_error, LastError};
use crate::fit_accuracy;
use crate::kd_tree;
use crate::kd_tree::KdTree;
use crate::parallel::map_in_parallel;
use crate::single;
use crate::single::Single;
use crate::text;
use crate::text::append_decimal;
use crate::vector;
use crate::vector::{
    v_add, v_dot, v_is_finite, v_length, v_mul_components, v_normalize, v_scale, v_sub,
};
use crate::vertex::{CharacterDNA, SkinnedVertex};
use vstd::prelude::*;
use vstd::string::StringExecFns;

verus! {

/// One clothing vertex's binding to the default skin mesh, computed once by
/// [`build_cloth_anchors`] and used for every character that wears the item.
#[derive(Clone, Copy, Debug, PartialEq, Eq)]
pub struct ClothAnchor {
    /// Index into the skin vertex buffer: the default one at build time, the
    /// mutated one when fitting. Mutation moves vertices, it does not reorder
    /// them.
    pub target_skin_vertex_index: u32,
    /// Clothing position minus skin position in the bind pose.
    pub local_offset: [Single; 3],
    /// Least signed distance, along the skin normal, that the clothing vertex
    /// keeps from the skin.
    pub thickness_clearance: Single,
}

#[derive(Clone, Copy, Debug, PartialEq, Eq)]
pub enum ClothingDeformerError {
    EmptySkinMesh,
    EmptyClothMesh,
    /// A position had a component that is infinite or not a number.
    NonFiniteVertexPosition { mesh: &'static str, vertex_index: usize },
    /// The search found no match in a tree that holds every skin vertex. No
    /// function of this module returns it.
    NearestNeighborSearchFailed { cloth_vertex_index: usize },
    /// Anchors are positional, so there must be one for each clothing vertex.
    AnchorCountMismatch { cloth_vertex_count: usize, anchor_count: usize },
    /// An anchor points past the end of the skin buffer.
    AnchorSkinIndexOutOfRange {
        cloth_vertex_index: usize,
        target_skin_vertex_index: u32,
        skin_vertex_count: usize,
    },
    NonFiniteClearanceEpsilon,
}

impl ClothingDeformerError {
    /// The text that [`ClothingDeformerError::message`] returns.
    pub open spec fn text(self) -> Seq<char> {
        match self {
            ClothingDeformerError::EmptySkinMesh =>
                "default skin vertex buffer was empty; nothing to anchor clothing vertices to"@,
            ClothingDeformerError::EmptyClothMesh =>
                "clothing vertex buffer was empty; nothing to build anchors for"@,
            ClothingDeformerError::NonFiniteVertexPosition { mesh, vertex_index } => mesh@
                + " vertex["@ + text::decimal(vertex_index as nat)
                + "] has a non-finite position component (NaN or infinite)"@,
            ClothingDeformerError::NearestNeighborSearchFailed { cloth_vertex_index } =>
                "1-NN search against the skin mesh returned no match for cloth vertex["@
                + text::decimal(cloth_vertex_index as nat)
                + "] (internal invariant failure — the skin k-d tree should be non-empty and total)"@,
            ClothingDeformerError::AnchorCountMismatch { cloth_vertex_count, anchor_count } =>
                "anchor count ("@ + text::decimal(anchor_count as nat)
                + ") does not match cloth vertex count ("@ + text::decimal(cloth_vertex_count as nat)
                + "); anchors are positional and must have been built for this exact clothing buffer"@,
            ClothingDeformerError::AnchorSkinIndexOutOfRange {
                cloth_vertex_index,
                target_skin_vertex_index,
                skin_vertex_count,
            } => "anchor for cloth vertex["@ + text::decimal(cloth_vertex_index as nat)
                + "] targets skin vertex index "@ + text::decimal(target_skin_vertex_index as nat)
                + ", but the skin buffer only has "@ + text::decimal(skin_vertex_count as nat)
                + " vertices (anchors were likely built against a different skin mesh)"@,
            ClothingDeformerError::NonFiniteClearanceEpsilon =>
                "clearance_epsilon was NaN or infinite"@,
        }
    }

    /// What went wrong, in words.
    pub fn message(&self) -> (r: String)
        ensures
            r@ == self.text(),
    {
        match self {
            ClothingDeformerError::EmptySkinMesh => String::from_str(
                "default skin vertex buffer was empty; nothing to anchor clothing vertices to",
            ),
            ClothingDeformerError::EmptyClothMesh => String::from_str(
                "clothing vertex buffer was empty; nothing to build anchors for",
            ),
            ClothingDeformerError::NonFiniteVertexPosition { mesh, vertex_index } => {
                let mut m = String::from_str(mesh);
                m.append(" vertex[");
                append_decimal(&mut m, *vertex_index as u64);
                m.append("] has a non-finite position component (NaN or infinite)");
                m
            },
            ClothingDeformerError::NearestNeighborSearchFailed { cloth_vertex_index } => {
                let mut m = String::from_str(
                    "1-NN search against the skin mesh returned no match for cloth vertex[",
                );
                append_decimal(&mut m, *cloth_vertex_index as u64);
                m.append(
                    "] (internal invariant failure — the skin k-d tree should be non-empty and total)",
                );
                m
            },
            ClothingDeformerError::AnchorCountMismatch { cloth_vertex_count, anchor_count } => {
                let mut m = String::from_str("anchor count (");
                append_decimal(&mut m, *anchor_count as u64);
                m.append(") does not match cloth vertex count (");
                append_decimal(&mut m, *cloth_vertex_count as u64);
                m.append(
                    "); anchors are positional and must have been built for this exact clothing buffer",
                );
                m
            },
            ClothingDeformerError::AnchorSkinIndexOutOfRange {
                cloth_vertex_index,
                target_skin_vertex_index,
                skin_vertex_count,
            } => {
                let mut m = String::from_str("anchor for cloth vertex[");
                append_decimal(&mut m, *cloth_vertex_index as u64);
                m.append("] targets skin vertex index ");
                append_decimal(&mut m, *target_skin_vertex_index as u64);
                m.append(", but the skin buffer only has ");
                append_decimal(&mut m, *skin_vertex_count as u64);
                m.append(" vertices (anchors were likely built against a different skin mesh)");
                m
            },
            ClothingDeformerError::NonFiniteClearanceEpsilon => String::from_str(
                "clearance_epsilon was NaN or infinite",
            ),
        }
    }
}

/// A k-d tree over every `stride`-th vertex of one body's bind-pose skin, for use
/// with every clothing item that is fitted to that body.
/// `sample_to_full_index` leads from the tree's own indices back to those of the
/// full skin buffer.
pub struct SkinKdTree {
    pub tree: KdTree,
    pub sample_positions: Vec<[Single; 3]>,
    pub sample_to_full_index: Vec<u32>,
}

impl SkinKdTree {
    /// The tree is over positions taken from `skin`.
    pub open spec fn samples(self, skin: Seq<SkinnedVertex>) -> bool {
        &&& self.tree.indexes(self.sample_positions@)
        &&& self.sample_to_full_index@.len() == self.sample_positions@.len()
        &&& self.sample_positions@.len() > 0
        &&& forall|j: int|
            0 <= j < self.sample_to_full_index@.len() ==> {
                &&& (#[trigger] self.sample_to_full_index@[j]) < skin.len()
                &&& self.sample_positions@[j]
                    == skin[self.sample_to_full_index@[j] as int].position
            }
    }

    /// The samples are the vertices `0`, `stride`, `2 * stride` and so on.
    pub open spec fn has_stride(self, skin: Seq<SkinnedVertex>, stride: int) -> bool {
        let n = self.sample_to_full_index@.len();
        &&& (n - 1) * stride < skin.len() <= n * stride
        &&& forall|j: int| 0 <= j < n ==> #[trigger] self.sample_to_full_index@[j] == j * stride
    }
}

pub open spec fn all_positions_finite(vertices: Seq<SkinnedVertex>) -> bool {
    forall|i: int| 0 <= i < vertices.len() ==> vector::finite((#[trigger] vertices[i]).position)
}

/// Vertex `i` is the first one whose position is not finite.
pub open spec fn first_not_finite(vertices: Seq<SkinnedVertex>, i: int) -> bool {
    &&& 0 <= i < vertices.len()
    &&& !vector::finite(vertices[i].position)
    &&& all_positions_finite(vertices.take(i))
}

/// The index of the first vertex whose position is not finite.
fn find_not_finite(vertices: &[SkinnedVertex]) -> (r: Option<usize>)
    ensures
        match r {
            Some(i) => first_not_finite(vertices@, i as int),
            None => all_positions_finite(vertices@),
        },
{
    let mut i: usize = 0;
    while i < vertices.len()
        invariant
            i <= vertices@.len(),
            all_positions_finite(vertices@.take(i as int)),
        decreases vertices@.len() - i,
    {
        if !v_is_finite(vertices[i].position) {
            return Some(i);
        }
        proof {
            assert forall|j: int| 0 <= j < i + 1 implies vector::finite(
                (#[trigger] vertices@.take(i + 1)[j]).position,
            ) by {
                if j < i {
                    assert(vertices@.take(i as int)[j] == vertices@[j]);
                }
            }
        }
        i = i + 1;
    }
    assert(vertices@.take(i as int) =~= vertices@);
    None
}

/// Why positions cannot be ordered: the first vertex of the mesh that is not
/// finite, if there is one.
pub open spec fn position_error(
    mesh: &'static str,
    vertices: Seq<SkinnedVertex>,
) -> Option<ClothingDeformerError> {
    if all_positions_finite(vertices) {
        None
    } else {
        let first = choose|i: int| first_not_finite(vertices, i);
        Some(ClothingDeformerError::NonFiniteVertexPosition { mesh, vertex_index: first as usize })
    }
}

/// Why a skin cannot be anchored to.
pub open spec fn skin_error(skin: Seq<SkinnedVertex>) -> Option<ClothingDeformerError> {
    if skin.len() == 0 {
        Some(ClothingDeformerError::EmptySkinMesh)
    } else {
        position_error("skin", skin)
    }
}

/// Why a clothing mesh cannot be anchored.
pub open spec fn cloth_error(cloth: Seq<SkinnedVertex>) -> Option<ClothingDeformerError> {
    if cloth.len() == 0 {
        Some(ClothingDeformerError::EmptyClothMesh)
    } else {
        position_error("cloth", cloth)
    }
}

/// There is one first vertex that is not finite, and none where all are finite.
proof fn lemma_first_not_finite(vertices: Seq<SkinnedVertex>, i: int)
    requires
        first_not_finite(vertices, i),
    ensures
        !all_positions_finite(vertices),
        (choose|j: int| first_not_finite(vertices, j)) == i,
{
    let j = choose|j: int| first_not_finite(vertices, j);
    if j < i {
        assert(vertices.take(i)[j] == vertices[j]);
    }
    if i < j {
        assert(vertices.take(j)[i] == vertices[i]);
    }
}

/// The positions of the skin, or why it cannot be anchored to.
fn validate_skin_positions(skin: &[SkinnedVertex]) -> (r: Result<
    Vec<[Single; 3]>,
    ClothingDeformerError,
>)
    ensures
        match skin_error(skin@) {
            Some(e) => r == Err::<Vec<[Single; 3]>, ClothingDeformerError>(e),
            None => {
                &&& r is Ok
                &&& r->Ok_0@.len() == skin@.len()
                &&& forall|i: int| 0 <= i < skin@.len() ==> #[trigger] r->Ok_0@[i] == skin@[i].position
            },
        },
{
    if skin.len() == 0 {
        return Err(ClothingDeformerError::EmptySkinMesh);
    }
    match find_not_finite(skin) {
        Some(i) => {
            proof {
                lemma_first_not_finite(skin@, i as int);
            }
            return Err(
                ClothingDeformerError::NonFiniteVertexPosition { mesh: "skin", vertex_index: i },
            );
        },
        None => {},
    }
    let mut positions: Vec<[Single; 3]> = Vec::new();
    let mut i: usize = 0;
    while i < skin.len()
        invariant
            i <= skin@.len(),
            positions@.len() == i,
            forall|j: int| 0 <= j < i ==> #[trigger] positions@[j] == skin@[j].position,
        decreases skin@.len() - i,
    {
        positions.push(skin[i].position);
        i = i + 1;
    }
    Ok(positions)
}

/// Builds a tree over every `stride`-th vertex of the skin, starting with the
/// first; a stride of 0 counts as 1.
///
/// A larger stride makes a smaller tree, at the cost of matching against the
/// sampled vertices only. It does not touch the push-out of
/// [`fit_clothing_to_skin`].
pub fn build_skin_kdtree(default_skin_vertices: &[SkinnedVertex], stride: usize) -> (r: Result<
    SkinKdTree,
    ClothingDeformerError,
>)
    requires
        default_skin_vertices@.len() <= u32::MAX,
    ensures
        match skin_error(default_skin_vertices@) {
            Some(e) => r == Err::<SkinKdTree, ClothingDeformerError>(e),
            None => {
                &&& r is Ok
                &&& r->Ok_0.samples(default_skin_vertices@)
                &&& r->Ok_0.has_stride(
                    default_skin_vertices@,
                    if stride == 0 {
                        1
                    } else {
                        stride as int
                    },
                )
            },
        },
{
    let step: usize = if stride == 0 {
        1
    } else {
        stride
    };
    let skin_positions = match validate_skin_positions(default_skin_vertices) {
        Ok(positions) => positions,
        Err(e) => {
            return Err(e);
        },
    };
    let count: usize = skin_positions.len();
    assert(skin_error(default_skin_vertices@) is None);
    let mut sample_positions: Vec<[Single; 3]> = Vec::new();
    let mut sample_to_full_index: Vec<u32> = Vec::new();
    let mut full_index: usize = 0;
    let mut done: bool = false;
    while !done
        invariant
            step >= 1,
            count == skin_positions@.len() == default_skin_vertices@.len() <= u32::MAX,
            all_positions_finite(default_skin_vertices@),
            forall|i: int|
                0 <= i < count ==> #[trigger] skin_positions@[i]
                    == default_skin_vertices@[i].position,
            sample_positions@.len() == sample_to_full_index@.len(),
            forall|j: int|
                0 <= j < sample_positions@.len() ==> {
                    &&& (#[trigger] sample_to_full_index@[j]) == j * step
                    &&& sample_to_full_index@[j] < count
                    &&& sample_positions@[j]
                        == default_skin_vertices@[sample_to_full_index@[j] as int].position
                },
            !done ==> full_index < count && full_index == sample_positions@.len() * step,
            done ==> sample_positions@.len() > 0,
            done ==> (sample_positions@.len() - 1) * step < count <= sample_positions@.len() * step,
        decreases count - full_index + if done { 0int } else { 1 },
    {
        sample_positions.push(skin_positions[full_index]);
        sample_to_full_index.push(full_index as u32);
        proof {
            let n = sample_positions@.len();
            assert(n * step == (n - 1) * step + step) by (nonlinear_arith);
        }
        if step < count - full_index {
            full_index = full_index + step;
        } else {
            done = true;
        }
    }
    proof {
        assert forall|j: int| 0 <= j < sample_positions@.len() implies #[trigger] vector::finite(
            sample_positions@[j],
        ) by {
            let full = sample_to_full_index@[j] as int;
            assert(vector::finite(default_skin_vertices@[full].position));
        }
        assert(sample_positions@.len() <= count) by {
            let n = sample_positions@.len();
            assert(n - 1 <= (n - 1) * step) by (nonlinear_arith)
                requires
                    n >= 1,
                    step >= 1,
            ;
        }
    }
    match KdTree::build(&sample_positions) {
        Some(tree) => Ok(SkinKdTree { tree, sample_positions, sample_to_full_index }),
        None => Err(ClothingDeformerError::NearestNeighborSearchFailed { cloth_vertex_index: 0 }),
    }
}

/// `x` where it is above zero, and zero otherwise (also where it is not a
/// number).
pub open spec fn at_least_zero(x: Single) -> Single {
    if Single::positive_zero().less(x) {
        x
    } else {
        Single::positive_zero()
    }
}

/// `offset` leads from the skin's coordinate to the clothing's, up to rounding and unless
/// that overflows.
pub open spec fn is_offset(cloth: Single, skin: Single, offset: Single) -> bool {
    let exact = cloth.value() - skin.value();
    cloth.finite() && skin.finite() ==> {
        &&& accuracy::size(exact) <= accuracy::limit() ==> offset.finite()
        &&& offset.finite() ==> accuracy::apart(offset.value(), exact) <= accuracy::slack(exact)
    }
}

/// Every anchor has a skin vertex to be bound to, and an offset that leads from there to its
/// clothing vertex.
pub open spec fn lead_to_clothing(
    anchors: Seq<ClothAnchor>,
    cloth: Seq<SkinnedVertex>,
    skin: Seq<SkinnedVertex>,
) -> bool {
    &&& anchors.len() == cloth.len()
    &&& forall|i: int|
        0 <= i < cloth.len() ==> (#[trigger] anchors[i]).target_skin_vertex_index < skin.len()
    &&& forall|i: int, axis: int|
        0 <= i < cloth.len() && 0 <= axis < 3 ==> is_offset(
            cloth[i].position[axis],
            skin[anchors[i].target_skin_vertex_index as int].position[axis],
            #[trigger] anchors[i].local_offset[axis],
        )
}

proof fn lemma_leads_to_clothing(
    cloth: SkinnedVertex,
    skin: Seq<SkinnedVertex>,
    target: u32,
    axis: int,
)
    requires
        0 <= axis < 3,
    ensures
        is_offset(
            cloth.position[axis],
            skin[target as int].position[axis],
            anchor_to(cloth, skin, target).local_offset[axis],
        ),
{
    if cloth.position[axis].finite() && skin[target as int].position[axis].finite() {
        fit_accuracy::law_anchor_offset_leads_to_the_clothing(cloth, skin, target, axis);
    }
}

/// The anchor that binds a clothing vertex to skin vertex `target`: the offset
/// between them, and how far that offset goes along the skin normal. Where the
/// normal has no direction, the whole length of the offset counts.
pub open spec fn anchor_to(cloth: SkinnedVertex, skin: Seq<SkinnedVertex>, target: u32) -> ClothAnchor {
    let vertex = skin[target as int];
    let offset = vector::difference(cloth.position, vertex.position);
    ClothAnchor {
        target_skin_vertex_index: target,
        local_offset: offset,
        thickness_clearance: if vector::has_direction(vertex.normal) {
            at_least_zero(vector::dot(offset, vector::direction(vertex.normal)))
        } else {
            vector::length(offset)
        },
    }
}

/// No anchor asks for a negative clearance, so none demands that a vertex be pulled in
/// towards the skin.
pub proof fn law_clearance_is_never_negative(
    cloth: SkinnedVertex,
    skin: Seq<SkinnedVertex>,
    target: u32,
)
    ensures
        !anchor_to(cloth, skin, target).thickness_clearance.less(Single::positive_zero()),
{
    let offset = vector::difference(cloth.position, skin[target as int].position);
    single::law_square_root_is_not_negative(vector::dot(offset, offset));
}

/// `anchor` binds the clothing vertex to a sample that no other sample is closer
/// than.
pub open spec fn binds_to_closest(
    anchor: ClothAnchor,
    cloth: SkinnedVertex,
    skin: Seq<SkinnedVertex>,
    tree: SkinKdTree,
) -> bool {
    exists|j: int|
        {
            &&& #[trigger] kd_tree::is_closest(tree.sample_positions@, cloth.position, j)
            &&& anchor == anchor_to(cloth, skin, tree.sample_to_full_index@[j])
        }
}

/// The anchor that a tree gives a clothing vertex: to the skin vertex behind the sample
/// that a search of the tree ends with.
pub open spec fn tree_anchor(
    cloth: SkinnedVertex,
    skin: Seq<SkinnedVertex>,
    tree: SkinKdTree,
) -> ClothAnchor {
    let sample = tree.tree.nearest_to(tree.sample_positions@, cloth.position);
    anchor_to(cloth, skin, tree.sample_to_full_index@[sample])
}

pub open spec fn tree_anchors(
    cloth: Seq<SkinnedVertex>,
    skin: Seq<SkinnedVertex>,
    tree: SkinKdTree,
) -> Seq<ClothAnchor> {
    Seq::new(cloth.len(), |i: int| tree_anchor(cloth[i], skin, tree))
}

/// The anchor that a tree gives binds the clothing vertex to a sample that no other sample
/// is closer than.
pub proof fn law_tree_anchor_binds_to_closest(
    cloth: SkinnedVertex,
    skin: Seq<SkinnedVertex>,
    tree: SkinKdTree,
)
    requires
        tree.samples(skin),
        vector::finite(cloth.position),
    ensures
        binds_to_closest(tree_anchor(cloth, skin, tree), cloth, skin, tree),
{
    kd_tree::law_nearest_is_closest(tree.tree, tree.sample_positions@, cloth.position);
}

pub open spec fn positions_of(skin: Seq<SkinnedVertex>) -> Seq<[Single; 3]> {
    Seq::new(skin.len(), |i: int| skin[i].position)
}

/// The anchor that binds a clothing vertex to the vertex that a search of the tree over
/// the whole skin ends with.
pub open spec fn skin_anchor(cloth: SkinnedVertex, skin: Seq<SkinnedVertex>) -> ClothAnchor {
    let positions = positions_of(skin);
    anchor_to(
        cloth,
        skin,
        kd_tree::tree_of(positions).nearest_to(positions, cloth.position) as u32,
    )
}

pub open spec fn skin_anchors(
    cloth: Seq<SkinnedVertex>,
    skin: Seq<SkinnedVertex>,
) -> Seq<ClothAnchor> {
    Seq::new(cloth.len(), |i: int| skin_anchor(cloth[i], skin))
}

/// The anchors that a tree of stride 1 gives are those that binding to the whole skin
/// gives, also where several skin vertices are equally close.
pub proof fn law_stride_one_tree_gives_the_skin_anchors(
    cloth: Seq<SkinnedVertex>,
    skin: Seq<SkinnedVertex>,
    tree: SkinKdTree,
)
    requires
        tree.samples(skin),
        tree.has_stride(skin, 1),
        all_positions_finite(cloth),
    ensures
        tree_anchors(cloth, skin, tree) == skin_anchors(cloth, skin),
{
    let positions = tree.sample_positions@;
    assert(positions.len() == skin.len());
    assert forall|j: int| 0 <= j < positions.len() implies #[trigger] positions[j]
        == skin[j].position by {
        assert(tree.sample_to_full_index@[j] == j * 1);
    }
    assert(positions =~= positions_of(skin));
    kd_tree::law_one_tree(tree.tree, positions);
    assert forall|i: int| 0 <= i < cloth.len() implies tree_anchor(cloth[i], skin, tree)
        == #[trigger] skin_anchor(cloth[i], skin) by {
        kd_tree::law_nearest_is_closest(tree.tree, positions, cloth[i].position);
        let j = tree.tree.nearest_to(positions, cloth[i].position);
        assert(tree.sample_to_full_index@[j] == j * 1);
    }
    assert(tree_anchors(cloth, skin, tree) =~= skin_anchors(cloth, skin));
}

/// The anchor of one clothing vertex.
fn anchor_vertex(
    cloth_vertex: &SkinnedVertex,
    default_skin_vertices: &[SkinnedVertex],
    skin_tree: &SkinKdTree,
) -> (r: ClothAnchor)
    requires
        skin_tree.samples(default_skin_vertices@),
        vector::finite(cloth_vertex.position),
    ensures
        r == tree_anchor(*cloth_vertex, default_skin_vertices@, *skin_tree),
{
    let sample_index = skin_tree.tree.nearest(&skin_tree.sample_positions, cloth_vertex.position);
    let full_index: u32 = skin_tree.sample_to_full_index[sample_index as usize];
    let skin_vertex = &default_skin_vertices[full_index as usize];
    let local_offset = v_sub(cloth_vertex.position, skin_vertex.position);
    let thickness_clearance = match v_normalize(skin_vertex.normal) {
        Some(normal) => {
            let along = v_dot(local_offset, normal);
            if (Single { bits: 0 }).less_than(along) {
                along
            } else {
                Single { bits: 0 }
            }
        },
        None => v_length(local_offset),
    };
    ClothAnchor { target_skin_vertex_index: full_index, local_offset, thickness_clearance }
}

/// One anchor for each clothing vertex, by way of a tree that may be shared
/// between clothing items. `default_skin_vertices` is the buffer that the tree was
/// built from.
pub fn build_cloth_anchors_with_tree(
    cloth_vertices: &[SkinnedVertex],
    default_skin_vertices: &[SkinnedVertex],
    skin_tree: &SkinKdTree,
) -> (r: Result<Vec<ClothAnchor>, ClothingDeformerError>)
    requires
        skin_tree.samples(default_skin_vertices@),
    ensures
        match cloth_error(cloth_vertices@) {
            Some(e) => r == Err::<Vec<ClothAnchor>, ClothingDeformerError>(e),
            None => {
                &&& r is Ok
                &&& r->Ok_0@ == tree_anchors(cloth_vertices@, default_skin_vertices@, *skin_tree)
            },
        },
        r is Ok ==> lead_to_clothing(r->Ok_0@, cloth_vertices@, default_skin_vertices@),
{
    if cloth_vertices.len() == 0 {
        return Err(ClothingDeformerError::EmptyClothMesh);
    }
    match find_not_finite(cloth_vertices) {
        Some(i) => {
            proof {
                lemma_first_not_finite(cloth_vertices@, i as int);
            }
            return Err(
                ClothingDeformerError::NonFiniteVertexPosition { mesh: "cloth", vertex_index: i },
            );
        },
        None => {},
    }
    let anchor_one = |cloth_vertex: &SkinnedVertex| -> (anchor: ClothAnchor)
        requires
            vector::finite(cloth_vertex.position),
        ensures
            anchor == tree_anchor(*cloth_vertex, default_skin_vertices@, *skin_tree),
        { anchor_vertex(cloth_vertex, default_skin_vertices, skin_tree) };
    let anchors = map_in_parallel(cloth_vertices, anchor_one);
    assert(anchors@ =~= tree_anchors(cloth_vertices@, default_skin_vertices@, *skin_tree));
    proof {
        assert forall|i: int| 0 <= i < cloth_vertices@.len() implies (
        #[trigger] anchors@[i]).target_skin_vertex_index < default_skin_vertices@.len() by {
            law_tree_anchor_binds_to_closest(
                cloth_vertices@[i],
                default_skin_vertices@,
                *skin_tree,
            );
            law_anchor_target_exists(
                anchors@[i],
                cloth_vertices@[i],
                default_skin_vertices@,
                *skin_tree,
            );
        }
        assert forall|i: int, axis: int| 0 <= i < cloth_vertices@.len() && 0 <= axis
            < 3 implies is_offset(
            cloth_vertices@[i].position[axis],
            default_skin_vertices@[anchors@[i].target_skin_vertex_index as int].position[axis],
            #[trigger] anchors@[i].local_offset[axis],
        ) by {
            lemma_leads_to_clothing(
                cloth_vertices@[i],
                default_skin_vertices@,
                anchors@[i].target_skin_vertex_index,
                axis,
            );
        }
    }
    Ok(anchors)
}

/// `anchor` binds the clothing vertex to a skin vertex that no other one is closer
/// than.
pub open spec fn binds_to_closest_skin(
    anchor: ClothAnchor,
    cloth: SkinnedVertex,
    skin: Seq<SkinnedVertex>,
) -> bool {
    let target = anchor.target_skin_vertex_index as int;
    &&& target < skin.len()
    &&& anchor == anchor_to(cloth, skin, anchor.target_skin_vertex_index)
    &&& forall|i: int|
        0 <= i < skin.len() ==> vector::squared_distance(
            skin[target].position,
            cloth.position,
        ).key() <= vector::squared_distance((#[trigger] skin[i]).position, cloth.position).key()
}

/// Binding through a tree of stride 1 is binding to the closest vertex of the
/// whole skin.
pub proof fn law_stride_one_binds_to_closest_skin(
    anchor: ClothAnchor,
    cloth: SkinnedVertex,
    skin: Seq<SkinnedVertex>,
    tree: SkinKdTree,
)
    requires
        tree.samples(skin),
        tree.has_stride(skin, 1),
        binds_to_closest(anchor, cloth, skin, tree),
    ensures
        binds_to_closest_skin(anchor, cloth, skin),
{
    let j = choose|j: int|
        {
            &&& #[trigger] kd_tree::is_closest(tree.sample_positions@, cloth.position, j)
            &&& anchor == anchor_to(cloth, skin, tree.sample_to_full_index@[j])
        };
    assert(tree.sample_to_full_index@[j] == j * 1);
    assert forall|i: int| 0 <= i < skin.len() implies vector::squared_distance(
        skin[j].position,
        cloth.position,
    ).key() <= vector::squared_distance((#[trigger] skin[i]).position, cloth.position).key() by {
        assert(tree.sample_to_full_index@[i] == i * 1);
        assert(vector::squared_distance(tree.sample_positions@[i], cloth.position).key()
            >= vector::squared_distance(tree.sample_positions@[j], cloth.position).key());
    }
}

/// However few vertices a tree samples, an anchor made with it leads to a vertex of
/// the full skin.
pub proof fn law_anchor_target_exists(
    anchor: ClothAnchor,
    cloth: SkinnedVertex,
    skin: Seq<SkinnedVertex>,
    tree: SkinKdTree,
)
    requires
        tree.samples(skin),
        binds_to_closest(anchor, cloth, skin, tree),
    ensures
        anchor.target_skin_vertex_index < skin.len(),
{
    let j = choose|j: int|
        {
            &&& #[trigger] kd_tree::is_closest(tree.sample_positions@, cloth.position, j)
            &&& anchor == anchor_to(cloth, skin, tree.sample_to_full_index@[j])
        };
    assert(tree.sample_to_full_index@[j] < skin.len());
}

/// Builds one [`ClothAnchor`] for each clothing vertex, binding it to the closest
/// skin vertex, as a tree of stride 1 does. To be called once for a clothing item, when it is loaded.
pub fn build_cloth_anchors(
    cloth_vertices: &[SkinnedVertex],
    default_skin_vertices: &[SkinnedVertex],
) -> (r: Result<Vec<ClothAnchor>, ClothingDeformerError>)
    requires
        default_skin_vertices@.len() <= u32::MAX,
    ensures
        match anchoring_error(cloth_vertices@, default_skin_vertices@) {
            Some(e) => r == Err::<Vec<ClothAnchor>, ClothingDeformerError>(e),
            None => {
                &&& r is Ok
                &&& r->Ok_0@ == skin_anchors(cloth_vertices@, default_skin_vertices@)
                &&& all_bound(r->Ok_0@, cloth_vertices@, default_skin_vertices@)
            },
        },
        r is Ok ==> lead_to_clothing(r->Ok_0@, cloth_vertices@, default_skin_vertices@),
{
    let skin_tree = match build_skin_kdtree(default_skin_vertices, 1) {
        Ok(tree) => tree,
        Err(e) => {
            return Err(e);
        },
    };
    let r = build_cloth_anchors_with_tree(cloth_vertices, default_skin_vertices, &skin_tree);
    proof {
        if r is Ok {
            law_stride_one_tree_gives_the_skin_anchors(
                cloth_vertices@,
                default_skin_vertices@,
                skin_tree,
            );
            assert forall|i: int| 0 <= i < cloth_vertices@.len() implies binds_to_closest_skin(
                #[trigger] r->Ok_0@[i],
                cloth_vertices@[i],
                default_skin_vertices@,
            ) by {
                law_tree_anchor_binds_to_closest(
                    cloth_vertices@[i],
                    default_skin_vertices@,
                    skin_tree,
                );
                law_stride_one_binds_to_closest_skin(
                    r->Ok_0@[i],
                    cloth_vertices@[i],
                    default_skin_vertices@,
                    skin_tree,
                );
            }
        }
    }
    r
}

/// Why a clothing mesh cannot be anchored to a skin. What is wrong with the skin
/// comes first.
pub open spec fn anchoring_error(
    cloth: Seq<SkinnedVertex>,
    skin: Seq<SkinnedVertex>,
) -> Option<ClothingDeformerError> {
    match skin_error(skin) {
        Some(e) => Some(e),
        None => cloth_error(cloth),
    }
}

/// There is one anchor for each clothing vertex, and it binds the vertex to the
/// closest skin vertex.
pub open spec fn all_bound(
    anchors: Seq<ClothAnchor>,
    cloth: Seq<SkinnedVertex>,
    skin: Seq<SkinnedVertex>,
) -> bool {
    &&& anchors.len() == cloth.len()
    &&& forall|i: int|
        0 <= i < cloth.len() ==> binds_to_closest_skin(#[trigger] anchors[i], cloth[i], skin)
}

/// The skin position plus the anchor's offset, scaled along each axis.
pub open spec fn rough_fit(skin: SkinnedVertex, anchor: ClothAnchor, dna_scale: [Single; 3]) -> [Single; 3] {
    vector::sum(skin.position, vector::componentwise_product(anchor.local_offset, dna_scale))
}

/// The signed distance of a position from the tangent plane through `base`.
pub open spec fn signed_distance(
    position: [Single; 3],
    base: [Single; 3],
    normal: [Single; 3],
) -> Single {
    vector::dot(vector::difference(position, base), normal)
}

/// A position moved out along the normal where it is closer to the tangent plane
/// than `safe`.
pub open spec fn pushed_out(
    position: [Single; 3],
    base: [Single; 3],
    normal: [Single; 3],
    safe: Single,
) -> [Single; 3] {
    let distance = signed_distance(position, base, normal);
    if distance.less(safe) {
        vector::sum(position, vector::scaled(normal, safe.difference(distance)))
    } else {
        position
    }
}

/// The clothing vertex after fitting: moved to the rough fit, pushed out where the
/// skin normal has a direction, and skinned as the skin vertex is.
pub open spec fn fitted(
    cloth: SkinnedVertex,
    skin: SkinnedVertex,
    anchor: ClothAnchor,
    dna_scale: [Single; 3],
    clearance_epsilon: Single,
) -> SkinnedVertex {
    let rough = rough_fit(skin, anchor, dna_scale);
    SkinnedVertex {
        position: if vector::has_direction(skin.normal) {
            pushed_out(
                rough,
                skin.position,
                vector::direction(skin.normal),
                anchor.thickness_clearance.sum(clearance_epsilon),
            )
        } else {
            rough
        },
        bone_indices: skin.bone_indices,
        bone_weights: skin.bone_weights,
        ..cloth
    }
}

/// A fitted vertex is skinned exactly as the skin vertex under it, and keeps its own
/// normal and texture coordinates.
pub proof fn law_fitted_vertex_is_skinned_as_the_skin(
    cloth: SkinnedVertex,
    skin: SkinnedVertex,
    anchor: ClothAnchor,
    dna_scale: [Single; 3],
    clearance_epsilon: Single,
)
    ensures
        ({
            let r = fitted(cloth, skin, anchor, dna_scale, clearance_epsilon);
            &&& r.bone_indices == skin.bone_indices
            &&& r.bone_weights == skin.bone_weights
            &&& r.normal == cloth.normal
            &&& r.uv == cloth.uv
        }),
{
}

/// What fitting clothing vertex `i` fails with where its anchor is out of range.
pub open spec fn out_of_range_error(
    anchors: Seq<ClothAnchor>,
    i: int,
    skin_vertex_count: nat,
) -> ClothingDeformerError {
    ClothingDeformerError::AnchorSkinIndexOutOfRange {
        cloth_vertex_index: i as usize,
        target_skin_vertex_index: anchors[i].target_skin_vertex_index,
        skin_vertex_count: skin_vertex_count as usize,
    }
}

pub open spec fn in_range(anchors: Seq<ClothAnchor>, i: int, skin_vertex_count: nat) -> bool {
    anchors[i].target_skin_vertex_index < skin_vertex_count
}

/// What fitting clothing vertex `i` comes to.
pub open spec fn fitted_at(
    skin: Seq<SkinnedVertex>,
    cloth: Seq<SkinnedVertex>,
    anchors: Seq<ClothAnchor>,
    dna_scale: [Single; 3],
    clearance_epsilon: Single,
    i: int,
) -> Result<SkinnedVertex, ClothingDeformerError> {
    if in_range(anchors, i, skin.len()) {
        Ok(
            fitted(
                cloth[i],
                skin[anchors[i].target_skin_vertex_index as int],
                anchors[i],
                dna_scale,
                clearance_epsilon,
            ),
        )
    } else {
        Err(out_of_range_error(anchors, i, skin.len()))
    }
}

/// Fits one clothing vertex.
fn fit_vertex(
    cloth_vertices: &[SkinnedVertex],
    anchors: &[ClothAnchor],
    cloth_index: usize,
    skin_vertices: &[SkinnedVertex],
    dna_scale: [Single; 3],
    clearance_epsilon: Single,
) -> (r: Result<SkinnedVertex, ClothingDeformerError>)
    requires
        cloth_index < cloth_vertices@.len(),
        cloth_index < anchors@.len(),
    ensures
        r == fitted_at(
            skin_vertices@,
            cloth_vertices@,
            anchors@,
            dna_scale,
            clearance_epsilon,
            cloth_index as int,
        ),
{
    let anchor = &anchors[cloth_index];
    let skin_index = anchor.target_skin_vertex_index;
    if skin_index as u64 >= skin_vertices.len() as u64 {
        return Err(
            ClothingDeformerError::AnchorSkinIndexOutOfRange {
                cloth_vertex_index: cloth_index,
                target_skin_vertex_index: skin_index,
                skin_vertex_count: skin_vertices.len(),
            },
        );
    }
    let skin_vertex = &skin_vertices[skin_index as usize];
    let scaled_offset = v_mul_components(anchor.local_offset, dna_scale);
    let mut position = v_add(skin_vertex.position, scaled_offset);
    match v_normalize(skin_vertex.normal) {
        Some(normal) => {
            let distance = v_dot(v_sub(position, skin_vertex.position), normal);
            let min_safe_distance = anchor.thickness_clearance.plus(clearance_epsilon);
            if distance.less_than(min_safe_distance) {
                let correction = min_safe_distance.minus(distance);
                position = v_add(position, v_scale(normal, correction));
            }
        },
        None => {},
    }
    let mut vertex = cloth_vertices[cloth_index];
    vertex.position = position;
    vertex.bone_indices = skin_vertex.bone_indices;
    vertex.bone_weights = skin_vertex.bone_weights;
    Ok(vertex)
}

/// The first of the first `n` anchors that is out of range.
pub open spec fn first_stray_anchor(
    anchors: Seq<ClothAnchor>,
    skin_vertex_count: nat,
    n: int,
) -> Option<int>
    decreases n,
{
    if n <= 0 {
        None
    } else {
        match first_stray_anchor(anchors, skin_vertex_count, n - 1) {
            Some(i) => Some(i),
            None => if in_range(anchors, n - 1, skin_vertex_count) {
                None
            } else {
                Some(n - 1)
            },
        }
    }
}

proof fn lemma_first_stray_stays(
    anchors: Seq<ClothAnchor>,
    skin_vertex_count: nat,
    i: int,
    n: int,
)
    requires
        0 <= i <= n,
        first_stray_anchor(anchors, skin_vertex_count, i) is Some,
    ensures
        first_stray_anchor(anchors, skin_vertex_count, n) == first_stray_anchor(
            anchors,
            skin_vertex_count,
            i,
        ),
    decreases n - i,
{
    if i < n {
        lemma_first_stray_stays(anchors, skin_vertex_count, i, n - 1);
    }
}

proof fn lemma_no_stray(anchors: Seq<ClothAnchor>, skin_vertex_count: nat, n: int)
    ensures
        first_stray_anchor(anchors, skin_vertex_count, n) is None <==> forall|i: int|
            0 <= i < n ==> #[trigger] in_range(anchors, i, skin_vertex_count),
    decreases n,
{
    if n > 0 {
        lemma_no_stray(anchors, skin_vertex_count, n - 1);
        match first_stray_anchor(anchors, skin_vertex_count, n - 1) {
            Some(_) => {
                let i = choose|i: int|
                    0 <= i < n - 1 && !#[trigger] in_range(anchors, i, skin_vertex_count);
                assert(!in_range(anchors, i, skin_vertex_count));
            },
            None => {
                assert(first_stray_anchor(anchors, skin_vertex_count, n) is None <==> in_range(
                    anchors,
                    n - 1,
                    skin_vertex_count,
                ));
            },
        }
    }
}

/// Why a garment cannot be fitted: the first thing that is wrong with it.
pub open spec fn fit_error(
    skin: Seq<SkinnedVertex>,
    cloth: Seq<SkinnedVertex>,
    anchors: Seq<ClothAnchor>,
    clearance_epsilon: Single,
) -> Option<ClothingDeformerError> {
    if anchors.len() != cloth.len() {
        Some(
            ClothingDeformerError::AnchorCountMismatch {
                cloth_vertex_count: cloth.len() as usize,
                anchor_count: anchors.len() as usize,
            },
        )
    } else if !clearance_epsilon.finite() {
        Some(ClothingDeformerError::NonFiniteClearanceEpsilon)
    } else {
        match first_stray_anchor(anchors, skin.len(), anchors.len() as int) {
            Some(i) => Some(out_of_range_error(anchors, i, skin.len())),
            None => None,
        }
    }
}

/// What fitting a whole garment comes to: the error, with the garment as it was, or
/// that every vertex was fitted.
pub open spec fn fit_outcome(
    skin: Seq<SkinnedVertex>,
    before: Seq<SkinnedVertex>,
    after: Seq<SkinnedVertex>,
    anchors: Seq<ClothAnchor>,
    dna_scale: [Single; 3],
    clearance_epsilon: Single,
    r: Result<(), ClothingDeformerError>,
) -> bool {
    match fit_error(skin, before, anchors, clearance_epsilon) {
        Some(e) => {
            &&& r == Err::<(), ClothingDeformerError>(e)
            &&& after == before
        },
        None => {
            &&& r is Ok
            &&& after.len() == before.len()
            &&& forall|i: int|
                0 <= i < before.len() ==> #[trigger] after[i] == fitted(
                    before[i],
                    skin[anchors[i].target_skin_vertex_index as int],
                    anchors[i],
                    dna_scale,
                    clearance_epsilon,
                )
        },
    }
}

/// The outcome of each clothing vertex, worked out on rayon's thread pool.
fn fit_each(
    cloth_vertices: &[SkinnedVertex],
    anchors: &[ClothAnchor],
    skin_vertices: &[SkinnedVertex],
    dna_scale: [Single; 3],
    clearance_epsilon: Single,
) -> (r: Vec<Result<SkinnedVertex, ClothingDeformerError>>)
    requires
        cloth_vertices@.len() == anchors@.len(),
    ensures
        r@.len() == cloth_vertices@.len(),
        forall|i: int|
            0 <= i < r@.len() ==> #[trigger] r@[i] == fitted_at(
                skin_vertices@,
                cloth_vertices@,
                anchors@,
                dna_scale,
                clearance_epsilon,
                i,
            ),
{
    let count: usize = cloth_vertices.len();
    let mut places: Vec<usize> = Vec::new();
    let mut i: usize = 0;
    while i < count
        invariant
            i <= count,
            places@.len() == i,
            forall|j: int| 0 <= j < i ==> #[trigger] places@[j] == j,
        decreases count - i,
    {
        places.push(i);
        i = i + 1;
    }
    let fit_one = |place: &usize| -> (vertex: Result<SkinnedVertex, ClothingDeformerError>)
        requires
            *place < cloth_vertices@.len(),
            *place < anchors@.len(),
        ensures
            vertex == fitted_at(
                skin_vertices@,
                cloth_vertices@,
                anchors@,
                dna_scale,
                clearance_epsilon,
                *place as int,
            ),
        {
            fit_vertex(
                cloth_vertices,
                anchors,
                *place,
                skin_vertices,
                dna_scale,
                clearance_epsilon,
            )
        };
    map_in_parallel(places.as_slice(), fit_one)
}

/// Fits the clothing vertices, in place, to the mutated skin, with the anchors that
/// [`build_cloth_anchors`] made in the bind pose. Where that fails, the garment is left
/// as it was.
pub fn fit_clothing_to_skin(
    skin_vertices: &[SkinnedVertex],
    cloth_vertices: &mut [SkinnedVertex],
    anchors: &[ClothAnchor],
    dna_scale: [Single; 3],
    clearance_epsilon: Single,
) -> (r: Result<(), ClothingDeformerError>)
    ensures
        fit_outcome(
            skin_vertices@,
            old(cloth_vertices)@,
            final(cloth_vertices)@,
            anchors@,
            dna_scale,
            clearance_epsilon,
            r,
        ),
{
    if anchors.len() != cloth_vertices.len() {
        return Err(
            ClothingDeformerError::AnchorCountMismatch {
                cloth_vertex_count: cloth_vertices.len(),
                anchor_count: anchors.len(),
            },
        );
    }
    if !clearance_epsilon.is_finite() {
        return Err(ClothingDeformerError::NonFiniteClearanceEpsilon);
    }
    let count: usize = cloth_vertices.len();
    let outcomes = fit_each(cloth_vertices, anchors, skin_vertices, dna_scale, clearance_epsilon);
    let ghost before = cloth_vertices@;
    let mut fitted_vertices: Vec<SkinnedVertex> = Vec::new();
    let mut i: usize = 0;
    while i < count
        invariant
            i <= count == before.len() == anchors@.len() == outcomes@.len(),
            before == old(cloth_vertices)@,
            cloth_vertices@ == before,
            clearance_epsilon.finite(),
            first_stray_anchor(anchors@, skin_vertices@.len(), i as int) is None,
            forall|j: int|
                0 <= j < count ==> #[trigger] outcomes@[j] == fitted_at(
                    skin_vertices@,
                    before,
                    anchors@,
                    dna_scale,
                    clearance_epsilon,
                    j,
                ),
            fitted_vertices@.len() == i,
            forall|j: int|
                0 <= j < i ==> #[trigger] fitted_vertices@[j] == fitted(
                    before[j],
                    skin_vertices@[anchors@[j].target_skin_vertex_index as int],
                    anchors@[j],
                    dna_scale,
                    clearance_epsilon,
                ),
        decreases count - i,
    {
        match outcomes[i] {
            Ok(vertex) => {
                fitted_vertices.push(vertex);
            },
            Err(e) => {
                proof {
                    lemma_first_stray_stays(
                        anchors@,
                        skin_vertices@.len(),
                        i + 1,
                        count as int,
                    );
                }
                return Err(e);
            },
        }
        i = i + 1;
    }
    let mut k: usize = 0;
    while k < count
        invariant
            k <= count == before.len() == fitted_vertices@.len(),
            cloth_vertices@.len() == count,
            forall|j: int| 0 <= j < k ==> #[trigger] cloth_vertices@[j] == fitted_vertices@[j],
        decreases count - k,
    {
        cloth_vertices[k] = fitted_vertices[k];
        k = k + 1;
    }
    Ok(())
}

/// Anchors that were built for a garment and a skin fit that garment to any body with
/// as many skin vertices: fitting succeeds, and fits every vertex.
pub proof fn law_built_anchors_always_fit(
    default_skin: Seq<SkinnedVertex>,
    skin: Seq<SkinnedVertex>,
    before: Seq<SkinnedVertex>,
    after: Seq<SkinnedVertex>,
    anchors: Seq<ClothAnchor>,
    dna_scale: [Single; 3],
    clearance_epsilon: Single,
    r: Result<(), ClothingDeformerError>,
)
    requires
        all_bound(anchors, before, default_skin),
        skin.len() == default_skin.len(),
        clearance_epsilon.finite(),
        fit_outcome(skin, before, after, anchors, dna_scale, clearance_epsilon, r),
    ensures
        r is Ok,
        after.len() == before.len(),
        forall|i: int|
            0 <= i < before.len() ==> #[trigger] after[i] == fitted(
                before[i],
                skin[anchors[i].target_skin_vertex_index as int],
                anchors[i],
                dna_scale,
                clearance_epsilon,
            ),
{
    assert forall|i: int| 0 <= i < anchors.len() implies #[trigger] in_range(
        anchors,
        i,
        skin.len(),
    ) by {
        assert(binds_to_closest_skin(anchors[i], before[i], default_skin));
    }
    lemma_no_stray(anchors, skin.len(), anchors.len() as int);
}

/// A per-axis body scale: height along Y, girth along X and Z.
pub open spec fn body_scale(dna: CharacterDNA) -> [Single; 3] {
    [dna.weight_modifier, dna.height_modifier, dna.weight_modifier]
}

/// The scale that `dna` gives a body along each axis.
pub fn dna_scale_from_character_dna(dna: &CharacterDNA) -> (r: [Single; 3])
    ensures
        r == body_scale(*dna),
{
    let girth = dna.weight_modifier;
    let height = dna.height_modifier;
    [girth, height, girth]
}

/// What a pointer with a count stands for: a slice, where it is not null, and
/// nothing, where it is null with a count of 0. A null pointer with any other
/// count is an error that names the parameter.
pub fn raw_parts_to_slice<'a, T>(ptr: Option<&'a [T]>, count: u32, param_name: &str) -> (r: Result<
    &'a [T],
    String,
>)
    requires
        ptr matches Some(s) ==> s@.len() == count,
    ensures
        r is Ok <==> ptr is Some || count == 0,
        r matches Ok(s) ==> s@ == pointed_to(ptr),
        r matches Err(m) ==> m@ == null_pointer_text(param_name@, count as nat),
{
    match ptr {
        Some(s) => Ok(s),
        None => {
            if count == 0 {
                return Ok(&[]);
            }
            let mut m = String::from_str(param_name);
            m.append(" was null with nonzero count ");
            append_decimal(&mut m, count as u64);
            Err(m)
        },
    }
}

pub open spec fn pointed_to<T>(ptr: Option<&[T]>) -> Seq<T> {
    match ptr {
        Some(s) => s@,
        None => Seq::empty(),
    }
}

pub open spec fn null_pointer_text(param_name: Seq<char>, count: nat) -> Seq<char> {
    param_name + " was null with nonzero count "@ + text::decimal(count)
}

/// Why the buffers of one part cannot be anchored, in words: a null pointer first,
/// in the order of the parameters.
pub open spec fn part_error(
    cloth: Option<&[SkinnedVertex]>,
    cloth_vertex_count: u32,
    skin: Option<&[SkinnedVertex]>,
    skin_vertex_count: u32,
) -> Option<Seq<char>> {
    if cloth is None && cloth_vertex_count != 0 {
        Some(null_pointer_text("cloth_vertices_ptr"@, cloth_vertex_count as nat))
    } else if skin is None && skin_vertex_count != 0 {
        Some(null_pointer_text("default_skin_vertices_ptr"@, skin_vertex_count as nat))
    } else {
        match anchoring_error(pointed_to(cloth), pointed_to(skin)) {
            Some(e) => Some(e.text()),
            None => None,
        }
    }
}

/// [`build_cloth_anchors`] for buffers that came as pointers with counts, which may
/// be null where the count is 0. The last error is forgotten, whatever comes of it.
pub fn build_cloth_anchors_for_part(
    last_error: &mut LastError,
    cloth_vertices_ptr: Option<&[SkinnedVertex]>,
    cloth_vertex_count: u32,
    default_skin_vertices_ptr: Option<&[SkinnedVertex]>,
    default_skin_vertex_count: u32,
) -> (r: Result<Vec<ClothAnchor>, String>)
    requires
        cloth_vertices_ptr matches Some(s) ==> s@.len() == cloth_vertex_count,
        default_skin_vertices_ptr matches Some(s) ==> s@.len() == default_skin_vertex_count,
    ensures
        final(last_error).message is None,
        final(last_error).well_formed(),
        match part_error(
            cloth_vertices_ptr,
            cloth_vertex_count,
            default_skin_vertices_ptr,
            default_skin_vertex_count,
        ) {
            Some(m) => r is Err && r->Err_0@ == m,
            None => {
                &&& r is Ok
                &&& r->Ok_0@ == skin_anchors(
                    pointed_to(cloth_vertices_ptr),
                    pointed_to(default_skin_vertices_ptr),
                )
                &&& all_bound(
                    r->Ok_0@,
                    pointed_to(cloth_vertices_ptr),
                    pointed_to(default_skin_vertices_ptr),
                )
            },
        },
        r is Ok ==> lead_to_clothing(
            r->Ok_0@,
            pointed_to(cloth_vertices_ptr),
            pointed_to(default_skin_vertices_ptr),
        ),
{
    clear_last_error(last_error);
    let cloth_vertices = match raw_parts_to_slice(
        cloth_vertices_ptr,
        cloth_vertex_count,
        "cloth_vertices_ptr",
    ) {
        Ok(s) => s,
        Err(m) => {
            return Err(m);
        },
    };
    let default_skin_vertices = match raw_parts_to_slice(
        default_skin_vertices_ptr,
        default_skin_vertex_count,
        "default_skin_vertices_ptr",
    ) {
        Ok(s) => s,
        Err(m) => {
            return Err(m);
        },
    };
    match build_cloth_anchors(cloth_vertices, default_skin_vertices) {
        Ok(anchors) => Ok(anchors),
        Err(e) => Err(e.message()),
    }
}

/// What is wrong with the pointers that a garment came with, in words.
pub open spec fn pointer_error(
    skin_vertices_ptr: Option<&[SkinnedVertex]>,
    skin_vertex_count: u32,
    cloth_vertices_is_null: bool,
    cloth_vertex_count: u32,
    anchors_ptr: Option<&[ClothAnchor]>,
    anchor_count: u32,
    dna: Option<&CharacterDNA>,
) -> Option<Seq<char>> {
    if dna is None {
        Some("dna pointer was null"@)
    } else if skin_vertices_ptr is None && skin_vertex_count != 0 {
        Some(null_pointer_text("skin_vertices_ptr"@, skin_vertex_count as nat))
    } else if anchors_ptr is None && anchor_count != 0 {
        Some(null_pointer_text("anchors_ptr"@, anchor_count as nat))
    } else if cloth_vertices_is_null && cloth_vertex_count != 0 {
        Some("cloth_vertices_ptr was null with nonzero cloth_vertex_count"@)
    } else {
        None
    }
}

/// [`fit_clothing_to_skin`] with the scale of `dna`, for buffers that came as
/// pointers with counts. `cloth_vertices` is empty where its pointer was null. The last
/// error is forgotten, whatever comes of it.
pub fn fit_clothing_to_character(
    last_error: &mut LastError,
    skin_vertices_ptr: Option<&[SkinnedVertex]>,
    skin_vertex_count: u32,
    cloth_vertices_is_null: bool,
    cloth_vertices: &mut [SkinnedVertex],
    cloth_vertex_count: u32,
    anchors_ptr: Option<&[ClothAnchor]>,
    anchor_count: u32,
    dna: Option<&CharacterDNA>,
    clearance_epsilon: Single,
) -> (r: Result<(), String>)
    requires
        skin_vertices_ptr matches Some(s) ==> s@.len() == skin_vertex_count,
        anchors_ptr matches Some(s) ==> s@.len() == anchor_count,
        !cloth_vertices_is_null ==> old(cloth_vertices)@.len() == cloth_vertex_count,
    ensures
        final(last_error).message is None,
        final(last_error).well_formed(),
        final(cloth_vertices)@.len() == old(cloth_vertices)@.len(),
        match pointer_error(
            skin_vertices_ptr,
            skin_vertex_count,
            cloth_vertices_is_null,
            cloth_vertex_count,
            anchors_ptr,
            anchor_count,
            dna,
        ) {
            Some(m) => r is Err && r->Err_0@ == m && final(cloth_vertices)@ == old(cloth_vertices)@,
            None => if cloth_vertices_is_null {
                r is Ok && final(cloth_vertices)@ == old(cloth_vertices)@
            } else {
                let skin = pointed_to(skin_vertices_ptr);
                let anchors = pointed_to(anchors_ptr);
                let before = old(cloth_vertices)@;
                let error = fit_error(skin, before, anchors, clearance_epsilon);
                &&& r is Ok <==> error is None
                &&& r is Err ==> r->Err_0@ == error->0.text()
                &&& fit_outcome(
                    skin,
                    before,
                    final(cloth_vertices)@,
                    anchors,
                    body_scale(*dna->0),
                    clearance_epsilon,
                    match error {
                        Some(e) => Err(e),
                        None => Ok(()),
                    },
                )
            },
        },
{
    clear_last_error(last_error);
    let dna_scale = match dna {
        None => {
            return Err(String::from_str("dna pointer was null"));
        },
        Some(d) => dna_scale_from_character_dna(d),
    };
    let skin_vertices = match raw_parts_to_slice(
        skin_vertices_ptr,
        skin_vertex_count,
        "skin_vertices_ptr",
    ) {
        Ok(s) => s,
        Err(m) => {
            return Err(m);
        },
    };
    let anchors = match raw_parts_to_slice(anchors_ptr, anchor_count, "anchors_ptr") {
        Ok(s) => s,
        Err(m) => {
            return Err(m);
        },
    };
    if cloth_vertices_is_null {
        if cloth_vertex_count != 0 {
            return Err(
                String::from_str("cloth_vertices_ptr was null with nonzero cloth_vertex_count"),
            );
        }
        return Ok(());
    }
    let inner = fit_clothing_to_skin(
        skin_vertices,
        cloth_vertices,
        anchors,
        dna_scale,
        clearance_epsilon,
    );
    match inner {
        Ok(()) => Ok(()),
        Err(e) => Err(e.message()),
    }
}


/// A garment is fitted if and only if there is one anchor for each of its vertices, the
/// epsilon is finite, and every anchor leads to a skin vertex.
pub proof fn law_when_a_garment_is_fitted(
    skin: Seq<SkinnedVertex>,
    cloth: Seq<SkinnedVertex>,
    anchors: Seq<ClothAnchor>,
    clearance_epsilon: Single,
)
    ensures
        fit_error(skin, cloth, anchors, clearance_epsilon) is None <==> {
            &&& anchors.len() == cloth.len()
            &&& clearance_epsilon.finite()
            &&& forall|i: int|
                0 <= i < anchors.len() ==> (#[trigger] anchors[i]).target_skin_vertex_index
                    < skin.len()
        },
{
    lemma_no_stray(anchors, skin.len(), anchors.len() as int);
    if forall|i: int|
        0 <= i < anchors.len() ==> #[trigger] in_range(anchors, i, skin.len()) {
        assert forall|i: int| 0 <= i < anchors.len() implies (
        #[trigger] anchors[i]).target_skin_vertex_index < skin.len() by {
            assert(in_range(anchors, i, skin.len()));
        }
    }
}

/// Clothing is anchored if and only if neither mesh is empty and every position of both is
/// finite.
pub proof fn law_when_clothing_is_anchored(cloth: Seq<SkinnedVertex>, skin: Seq<SkinnedVertex>)
    ensures
        anchoring_error(cloth, skin) is None <==> {
            &&& skin.len() > 0 && cloth.len() > 0
            &&& forall|i: int, axis: int|
                0 <= i < skin.len() && 0 <= axis < 3 ==> (#[trigger] skin[i].position[axis]).finite()
            &&& forall|i: int, axis: int|
                0 <= i < cloth.len() && 0 <= axis < 3 ==> (
                #[trigger] cloth[i].position[axis]).finite()
        },
{
    lemma_all_finite(skin);
    lemma_all_finite(cloth);
}

proof fn lemma_all_finite(vertices: Seq<SkinnedVertex>)
    ensures
        all_positions_finite(vertices) <==> forall|i: int, axis: int|
            0 <= i < vertices.len() && 0 <= axis < 3 ==> (
            #[trigger] vertices[i].position[axis]).finite(),
{
    if all_positions_finite(vertices) {
        assert forall|i: int, axis: int| 0 <= i < vertices.len() && 0 <= axis < 3 implies (
        #[trigger] vertices[i].position[axis]).finite() by {
            vector::lemma_finite_component(vertices[i].position, axis);
        }
    }
    if forall|i: int, axis: int|
        0 <= i < vertices.len() && 0 <= axis < 3 ==> (
        #[trigger] vertices[i].position[axis]).finite() {
        assert forall|i: int| 0 <= i < vertices.len() implies vector::finite(
            (#[trigger] vertices[i]).position,
        ) by {
            assert(vertices[i].position[0].finite());
            assert(vertices[i].position[1].finite());
            assert(vertices[i].position[2].finite());
        }
    }
}

/// A tree samples every vertex whose index is a multiple of the stride, and no others, each
/// at its own position.
pub proof fn law_tree_samples_every_stride(
    tree: SkinKdTree,
    skin: Seq<SkinnedVertex>,
    stride: int,
    k: int,
)
    requires
        stride >= 1,
        tree.samples(skin),
        tree.has_stride(skin, stride),
        0 <= k,
    ensures
        k * stride < skin.len() <==> k < tree.sample_to_full_index@.len(),
        k * stride < skin.len() ==> {
            &&& tree.sample_to_full_index@[k] == k * stride
            &&& tree.sample_positions@[k] == skin[k * stride].position
        },
{
    let n = tree.sample_to_full_index@.len();
    if k < n {
        assert(tree.sample_to_full_index@[k] == k * stride);
        assert(tree.sample_to_full_index@[k] < skin.len());
    } else {
        assert(k * stride >= n * stride) by (nonlinear_arith)
            requires
                k >= n,
                stride >= 1,
        ;
    }
}

/// The error of a fit says which anchor is at fault: the first one that leads past the skin.
pub proof fn law_first_stray_anchor(anchors: Seq<ClothAnchor>, skin_vertex_count: nat, n: int)
    requires
        0 <= n <= anchors.len(),
    ensures
        first_stray_anchor(anchors, skin_vertex_count, n) matches Some(at) ==> {
            &&& 0 <= at < n
            &&& anchors[at].target_skin_vertex_index >= skin_vertex_count
            &&& forall|i: int|
                0 <= i < at ==> (#[trigger] anchors[i]).target_skin_vertex_index < skin_vertex_count
        },
    decreases n,
{
    if n > 0 {
        law_first_stray_anchor(anchors, skin_vertex_count, n - 1);
        lemma_no_stray(anchors, skin_vertex_count, n - 1);
        if first_stray_anchor(anchors, skin_vertex_count, n - 1) is None {
            assert forall|i: int| 0 <= i < n - 1 implies (
            #[trigger] anchors[i]).target_skin_vertex_index < skin_vertex_count by {
                assert(in_range(anchors, i, skin_vertex_count));
            }
        }
    }
}

/// What is wrong with the skin is reported before what is wrong with the clothing, an empty
/// mesh before a position that is not finite, and of those the first.
pub proof fn law_first_fault_of_the_meshes(
    cloth: Seq<SkinnedVertex>,
    skin: Seq<SkinnedVertex>,
    at: int,
)
    requires
        cloth.len() <= usize::MAX,
        skin.len() <= usize::MAX,
    ensures
        skin.len() == 0 ==> anchoring_error(cloth, skin) == Some(
            ClothingDeformerError::EmptySkinMesh,
        ),
        0 <= at < skin.len() && !vector::finite(skin[at].position) && (forall|i: int|
            0 <= i < at ==> vector::finite((#[trigger] skin[i]).position)) ==> anchoring_error(
            cloth,
            skin,
        ) == Some(
            ClothingDeformerError::NonFiniteVertexPosition {
                mesh: "skin",
                vertex_index: at as usize,
            },
        ),
        skin_error(skin) is None && cloth.len() == 0 ==> anchoring_error(cloth, skin) == Some(
            ClothingDeformerError::EmptyClothMesh,
        ),
        skin_error(skin) is None && 0 <= at < cloth.len() && !vector::finite(cloth[at].position) && (
        forall|i: int| 0 <= i < at ==> vector::finite((#[trigger] cloth[i]).position))
            ==> anchoring_error(cloth, skin) == Some(
            ClothingDeformerError::NonFiniteVertexPosition {
                mesh: "cloth",
                vertex_index: at as usize,
            },
        ),
{
    lemma_first_fault(skin, at);
    lemma_first_fault(cloth, at);
}

proof fn lemma_first_fault(vertices: Seq<SkinnedVertex>, at: int)
    ensures
        0 <= at < vertices.len() && !vector::finite(vertices[at].position) && (forall|i: int|
            0 <= i < at ==> vector::finite((#[trigger] vertices[i]).position)) ==> {
            &&& !all_positions_finite(vertices)
            &&& (choose|j: int| first_not_finite(vertices, j)) == at
        },
{
    if 0 <= at < vertices.len() && !vector::finite(vertices[at].position) && (forall|i: int|
        0 <= i < at ==> vector::finite((#[trigger] vertices[i]).position)) {
        assert forall|i: int| 0 <= i < at implies vector::finite(
            (#[trigger] vertices.take(at)[i]).position,
        ) by {
            assert(vertices.take(at)[i] == vertices[i]);
        }
        lemma_first_not_finite(vertices, at);
    }
}

/// What a garment is refused for when an anchor leads past the skin: the first such anchor,
/// where it leads, and how many vertices the skin has.
pub proof fn law_stray_anchor_is_told(
    skin: Seq<SkinnedVertex>,
    cloth: Seq<SkinnedVertex>,
    anchors: Seq<ClothAnchor>,
    clearance_epsilon: Single,
    at: int,
)
    requires
        anchors.len() == cloth.len(),
        anchors.len() <= usize::MAX,
        skin.len() <= usize::MAX,
        clearance_epsilon.finite(),
        0 <= at < anchors.len(),
        anchors[at].target_skin_vertex_index >= skin.len(),
        forall|i: int|
            0 <= i < at ==> (#[trigger] anchors[i]).target_skin_vertex_index < skin.len(),
    ensures
        ({
            let e = fit_error(skin, cloth, anchors, clearance_epsilon);
            &&& e matches Some(
                ClothingDeformerError::AnchorSkinIndexOutOfRange {
                    cloth_vertex_index,
                    target_skin_vertex_index,
                    skin_vertex_count,
                },
            )
            &&& cloth_vertex_index == at
            &&& target_skin_vertex_index == anchors[at].target_skin_vertex_index
            &&& skin_vertex_count == skin.len()
        }),
{
    let n = anchors.len() as int;
    law_first_stray_anchor(anchors, skin.len(), n);
    lemma_no_stray(anchors, skin.len(), n);
    if first_stray_anchor(anchors, skin.len(), n) is None {
        assert(in_range(anchors, at, skin.len()));
    }
}

} // verus!
