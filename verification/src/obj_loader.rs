use crate::obj_references;
use crate::obj_references::bound_references;
use crate::single;
use crate::single::{Single, EPSILON_BITS, ONE_BITS, ZERO_BITS};
use crate::text;
use crate::text::append_decimal;
use crate::vector;
use crate::vector::{cross, v_add, v_length, v_sub};
use crate::vector_accuracy;
use crate::vertex::SkinnedVertex;
use vstd::prelude::*;
use vstd::string::StringExecFns;

verus! {

/// The bone of the master skeleton that every OBJ part is bound to, at full weight,
/// in bone slot 0.
pub const OBJ_BIND_BONE_NAME: &'static str = "root";

/// The geometry of one model of an OBJ file: three numbers for each position and
/// normal, two for each texture coordinate, three indices for each triangle. The
/// normals and the texture coordinates may be missing.
#[derive(Debug)]
pub struct ObjModel {
    pub positions: Vec<Single>,
    pub normals: Vec<Single>,
    pub texcoords: Vec<Single>,
    pub indices: Vec<u32>,
}

/// A model as sequences of numbers.
pub struct ModelParts {
    pub positions: Seq<Single>,
    pub normals: Seq<Single>,
    pub texcoords: Seq<Single>,
    pub indices: Seq<u32>,
}

impl View for ObjModel {
    type V = ModelParts;

    open spec fn view(&self) -> ModelParts {
        ModelParts {
            positions: self.positions@,
            normals: self.normals@,
            texcoords: self.texcoords@,
            indices: self.indices@,
        }
    }
}

pub open spec fn views(models: Seq<ObjModel>) -> Seq<ModelParts> {
    models.map_values(|model: ObjModel| model@)
}

/// The contents of one OBJ part.
#[derive(Debug)]
pub struct LoadedObjMesh {
    /// Every vertex is bound to local joint 0 with weight 1, which is still to be
    /// led to [`OBJ_BIND_BONE_NAME`] in the master skeleton.
    pub vertices: Vec<SkinnedVertex>,
    /// Triangles, as indices into `vertices`.
    pub indices: Vec<u32>,
}

// ------------------------------------------------------------------------
// Smooth normals
// ------------------------------------------------------------------------

/// The normal of triangle `t`, as long as its area is large.
pub open spec fn face_normal(vertices: Seq<SkinnedVertex>, indices: Seq<u32>, t: int) -> [Single; 3] {
    let a = vertices[indices[3 * t] as int].position;
    let b = vertices[indices[3 * t + 1] as int].position;
    let c = vertices[indices[3 * t + 2] as int].position;
    vector::cross_product(vector::difference(b, a), vector::difference(c, a))
}

/// Triangle `t` has its three corners among the vertices.
pub open spec fn has_corners(vertex_count: nat, indices: Seq<u32>, t: int) -> bool {
    &&& indices[3 * t] < vertex_count
    &&& indices[3 * t + 1] < vertex_count
    &&& indices[3 * t + 2] < vertex_count
}

/// What is gathered at vertex `v` from one corner of a triangle.
pub open spec fn gathered(so_far: [Single; 3], corner: u32, v: int, normal: [Single; 3]) -> [Single; 3] {
    if corner == v {
        vector::sum(so_far, normal)
    } else {
        so_far
    }
}

/// The sum, from zero on, of the face normals of the first `n` triangles at
/// vertex `v`.
pub open spec fn normal_sum(vertices: Seq<SkinnedVertex>, indices: Seq<u32>, n: int, v: int) -> [Single; 3]
    decreases n,
{
    if n <= 0 {
        [Single::positive_zero(), Single::positive_zero(), Single::positive_zero()]
    } else {
        let before = normal_sum(vertices, indices, n - 1, v);
        if has_corners(vertices.len(), indices, n - 1) {
            let normal = face_normal(vertices, indices, n - 1);
            let t = 3 * (n - 1);
            gathered(
                gathered(gathered(before, indices[t], v, normal), indices[t + 1], v, normal),
                indices[t + 2],
                v,
                normal,
            )
        } else {
            before
        }
    }
}

/// A gathered sum brought to length 1, or straight up where it is too short.
pub open spec fn settled_normal(sum: [Single; 3]) -> [Single; 3] {
    let length = vector::length(sum);
    if (Single { bits: EPSILON_BITS }).less(length) {
        [sum[0].quotient(length), sum[1].quotient(length), sum[2].quotient(length)]
    } else {
        [Single::positive_zero(), Single::one(), Single::positive_zero()]
    }
}

pub open spec fn smooth_normal(vertices: Seq<SkinnedVertex>, indices: Seq<u32>, v: int) -> [Single; 3] {
    settled_normal(normal_sum(vertices, indices, indices.len() as int / 3, v))
}

/// A smooth normal is a unit vector, unless the sum that it comes from is so long that
/// its length overflows.
pub proof fn law_smooth_normal_is_unit(vertices: Seq<SkinnedVertex>, indices: Seq<u32>, v: int)
    requires
        !vector::length(
            normal_sum(vertices, indices, indices.len() as int / 3, v),
        ).infinite(),
    ensures
        vector_accuracy::is_unit(smooth_normal(vertices, indices, v)),
{
    let sum = normal_sum(vertices, indices, indices.len() as int / 3, v);
    if (Single { bits: EPSILON_BITS }).less(vector::length(sum)) {
        vector_accuracy::law_vector_over_length_is_unit(sum);
    } else {
        vector_accuracy::lemma_up_is_unit();
    }
}

/// A vertex that is no corner of any triangle points straight up.
pub proof fn law_vertex_without_triangles_points_up(
    vertices: Seq<SkinnedVertex>,
    indices: Seq<u32>,
    v: int,
)
    requires
        forall|i: int| 0 <= i < indices.len() ==> #[trigger] indices[i] != v,
    ensures
        ({
            let normal = smooth_normal(vertices, indices, v);
            &&& normal[0] == Single { bits: 0 }
            &&& normal[1] == Single { bits: 0x3f80_0000 }
            &&& normal[2] == Single { bits: 0 }
        }),
{
    lemma_nothing_gathered(vertices, indices, indices.len() as int / 3, v);
    let zero = Single::positive_zero();
    let square = zero.product(zero);
    single::law_product_with_zero(zero, zero);
    single::law_sum_with_zero(square, square);
    single::law_sum_with_zero(square.sum(square), square);
    reveal(Single::square_root);
    assert(vector::length([zero, zero, zero]).key() == 0);
}

proof fn lemma_nothing_gathered(
    vertices: Seq<SkinnedVertex>,
    indices: Seq<u32>,
    n: int,
    v: int,
)
    requires
        0 <= 3 * n <= indices.len(),
        forall|i: int| 0 <= i < indices.len() ==> #[trigger] indices[i] != v,
    ensures
        normal_sum(vertices, indices, n, v) == [
            Single::positive_zero(),
            Single::positive_zero(),
            Single::positive_zero(),
        ],
    decreases n,
{
    if n > 0 {
        lemma_nothing_gathered(vertices, indices, n - 1, v);
        let t = 3 * (n - 1);
        assert(indices[t] != v && indices[t + 1] != v && indices[t + 2] != v);
    }
}

/// Gives every vertex the normalised sum of the normals of its triangles, each
/// weighted by its area. A triangle with a corner that is not there is left out,
/// and so are one or two indices left over at the end.
pub fn compute_smooth_normals(vertices: &mut [SkinnedVertex], local_indices: &[u32])
    ensures
        final(vertices)@.len() == old(vertices)@.len(),
        forall|v: int|
            0 <= v < old(vertices)@.len() ==> #[trigger] final(vertices)@[v] == (SkinnedVertex {
                normal: smooth_normal(old(vertices)@, local_indices@, v),
                ..old(vertices)@[v]
            }),
{
    let zero = Single { bits: ZERO_BITS };
    let count: usize = vertices.len();
    let ghost start = vertices@;
    let mut accumulated: Vec<[Single; 3]> = Vec::new();
    let mut i: usize = 0;
    while i < count
        invariant
            i <= count,
            count == start.len(),
            accumulated@.len() == i,
            zero == Single::positive_zero(),
            forall|v: int|
                0 <= v < i ==> #[trigger] accumulated@[v] == normal_sum(start, local_indices@, 0, v),
        decreases count - i,
    {
        accumulated.push([zero, zero, zero]);
        i = i + 1;
    }
    let triangles: usize = local_indices.len() / 3;
    let mut t: usize = 0;
    while t < triangles
        invariant
            t <= triangles == local_indices@.len() / 3,
            local_indices@.len() <= usize::MAX,
            count == start.len(),
            vertices@ == start,
            accumulated@.len() == count,
            forall|v: int|
                0 <= v < count ==> #[trigger] accumulated@[v] == normal_sum(
                    start,
                    local_indices@,
                    t as int,
                    v,
                ),
        decreases triangles - t,
    {
        let a: u32 = local_indices[3 * t];
        let b: u32 = local_indices[3 * t + 1];
        let c: u32 = local_indices[3 * t + 2];
        let there: bool = (a as u64) < count as u64 && (b as u64) < count as u64 && (c as u64)
            < count as u64;
        if there {
            let pa = vertices[a as usize].position;
            let pb = vertices[b as usize].position;
            let pc = vertices[c as usize].position;
            let normal = cross(v_sub(pb, pa), v_sub(pc, pa));
            accumulated[a as usize] = v_add(accumulated[a as usize], normal);
            accumulated[b as usize] = v_add(accumulated[b as usize], normal);
            accumulated[c as usize] = v_add(accumulated[c as usize], normal);
            assert(normal == face_normal(start, local_indices@, t as int));
        }
        assert(there == has_corners(start.len(), local_indices@, t as int));
        t = t + 1;
    }
    let mut k: usize = 0;
    while k < count
        invariant
            k <= count,
            count == start.len(),
            triangles == local_indices@.len() / 3,
            vertices@.len() == count,
            accumulated@.len() == count,
            zero == Single::positive_zero(),
            forall|v: int|
                0 <= v < count ==> #[trigger] accumulated@[v] == normal_sum(
                    start,
                    local_indices@,
                    triangles as int,
                    v,
                ),
            forall|v: int|
                0 <= v < k ==> #[trigger] vertices@[v] == (SkinnedVertex {
                    normal: smooth_normal(start, local_indices@, v),
                    ..start[v]
                }),
            forall|v: int| k <= v < count ==> #[trigger] vertices@[v] == start[v],
        decreases count - k,
    {
        let sum = accumulated[k];
        let length = v_length(sum);
        let normal = if (Single { bits: EPSILON_BITS }).less_than(length) {
            [sum[0].divided_by(length), sum[1].divided_by(length), sum[2].divided_by(length)]
        } else {
            [zero, Single { bits: ONE_BITS }, zero]
        };
        let mut vertex = vertices[k];
        vertex.normal = normal;
        vertices[k] = vertex;
        k = k + 1;
    }
}

// ------------------------------------------------------------------------
// From models to one mesh
// ------------------------------------------------------------------------

/// `tobj::LoadError`: why tobj could not make sense of OBJ data.
#[verifier::external_type_specification]
#[verifier::external_body]
pub struct ExLoadError(tobj::LoadError);

/// All the ways in which loading an OBJ part can fail. `path` tells where the data
/// came from.
#[derive(Debug)]
pub enum ObjLoadError {
    /// The data is not OBJ.
    Parse { path: String, source: tobj::LoadError },
    NoModels { path: String },
    /// No model had a vertex.
    EmptyGeometry { path: String },
    /// The numbers of an attribute do not make whole vertices.
    MalformedAttributeArray {
        path: String,
        model_index: usize,
        attribute: &'static str,
        len: usize,
    },
    /// An optional attribute is there, but not for every vertex.
    AttributeLengthMismatch {
        path: String,
        model_index: usize,
        attribute: &'static str,
        expected: usize,
        found: usize,
    },
    /// A triangle has a corner past the end of its model's vertices.
    IndexOutOfRange { path: String, model_index: usize, index: u32, vertex_count: usize },
}

/// What is wrong, apart from where the data came from.
pub enum ObjFault {
    Parse { source: tobj::LoadError },
    NoModels,
    EmptyGeometry,
    MalformedAttributeArray { model_index: nat, attribute: &'static str, len: nat },
    AttributeLengthMismatch {
        model_index: nat,
        attribute: &'static str,
        expected: nat,
        found: nat,
    },
    IndexOutOfRange { model_index: nat, index: u32, vertex_count: nat },
}

impl ObjLoadError {
    pub open spec fn fault(self) -> ObjFault {
        match self {
            ObjLoadError::Parse { path, source } => ObjFault::Parse { source },
            ObjLoadError::NoModels { path } => ObjFault::NoModels,
            ObjLoadError::EmptyGeometry { path } => ObjFault::EmptyGeometry,
            ObjLoadError::MalformedAttributeArray { path, model_index, attribute, len } =>
                ObjFault::MalformedAttributeArray {
                model_index: model_index as nat,
                attribute,
                len: len as nat,
            },
            ObjLoadError::AttributeLengthMismatch {
                path,
                model_index,
                attribute,
                expected,
                found,
            } => ObjFault::AttributeLengthMismatch {
                model_index: model_index as nat,
                attribute,
                expected: expected as nat,
                found: found as nat,
            },
            ObjLoadError::IndexOutOfRange { path, model_index, index, vertex_count } =>
                ObjFault::IndexOutOfRange {
                model_index: model_index as nat,
                index,
                vertex_count: vertex_count as nat,
            },
        }
    }

    pub open spec fn origin(self) -> Seq<char> {
        match self {
            ObjLoadError::Parse { path, .. } => path@,
            ObjLoadError::NoModels { path } => path@,
            ObjLoadError::EmptyGeometry { path } => path@,
            ObjLoadError::MalformedAttributeArray { path, .. } => path@,
            ObjLoadError::AttributeLengthMismatch { path, .. } => path@,
            ObjLoadError::IndexOutOfRange { path, .. } => path@,
        }
    }
}

/// The first of the first `n` indices that is out of range.
pub open spec fn first_out_of_range(indices: Seq<u32>, vertex_count: nat, n: int) -> Option<u32>
    decreases n,
{
    if n <= 0 {
        None
    } else {
        match first_out_of_range(indices, vertex_count, n - 1) {
            Some(index) => Some(index),
            None => if indices[n - 1] >= vertex_count {
                Some(indices[n - 1])
            } else {
                None
            },
        }
    }
}

impl ModelParts {
    pub open spec fn vertex_count(self) -> nat {
        self.positions.len() / 3
    }

    /// Why the model cannot be used. A model without vertices is never at fault.
    pub open spec fn fault(self, model_index: nat) -> Option<ObjFault> {
        let count = self.vertex_count();
        let normals = self.normals.len();
        let texcoords = self.texcoords.len();
        if self.positions.len() % 3 != 0 {
            Some(
                ObjFault::MalformedAttributeArray {
                    model_index,
                    attribute: "position",
                    len: self.positions.len(),
                },
            )
        } else if count == 0 {
            None
        } else if normals % 3 != 0 {
            Some(
                ObjFault::MalformedAttributeArray { model_index, attribute: "normal", len: normals },
            )
        } else if normals > 0 && normals / 3 != count {
            Some(
                ObjFault::AttributeLengthMismatch {
                    model_index,
                    attribute: "normal",
                    expected: count,
                    found: normals / 3,
                },
            )
        } else if texcoords % 2 != 0 {
            Some(
                ObjFault::MalformedAttributeArray {
                    model_index,
                    attribute: "texcoord",
                    len: texcoords,
                },
            )
        } else if texcoords > 0 && texcoords / 2 != count {
            Some(
                ObjFault::AttributeLengthMismatch {
                    model_index,
                    attribute: "texcoord",
                    expected: count,
                    found: texcoords / 2,
                },
            )
        } else {
            match first_out_of_range(self.indices, count, self.indices.len() as int) {
                Some(index) => Some(
                    ObjFault::IndexOutOfRange { model_index, index, vertex_count: count },
                ),
                None => None,
            }
        }
    }

    /// Vertex `i` with the attributes that the model has, bound to joint 0 alone.
    pub open spec fn raw_vertex(self, i: int) -> SkinnedVertex {
        let zero = Single::positive_zero();
        SkinnedVertex {
            position: [
                self.positions[3 * i],
                self.positions[3 * i + 1],
                self.positions[3 * i + 2],
            ],
            normal: if self.normals.len() > 0 {
                [self.normals[3 * i], self.normals[3 * i + 1], self.normals[3 * i + 2]]
            } else {
                [zero, zero, zero]
            },
            uv: if self.texcoords.len() > 0 {
                [self.texcoords[2 * i], self.texcoords[2 * i + 1]]
            } else {
                [zero, zero]
            },
            bone_indices: [0, 0, 0, 0],
            bone_weights: [Single::one(), zero, zero, zero],
        }
    }

    pub open spec fn raw_vertices(self) -> Seq<SkinnedVertex> {
        Seq::new(self.vertex_count(), |i: int| self.raw_vertex(i))
    }

    /// The vertices, with smooth normals where the model has none.
    pub open spec fn vertices(self) -> Seq<SkinnedVertex> {
        let raw = self.raw_vertices();
        if self.normals.len() > 0 {
            raw
        } else {
            Seq::new(
                self.vertex_count(),
                |i: int|
                    SkinnedVertex { normal: smooth_normal(raw, self.indices, i), ..raw[i] },
            )
        }
    }
}

impl ObjModel {
    /// The fault of the model, if any, as an error.
    fn check(&self, model_index: usize, path: &str) -> (r: Result<(), ObjLoadError>)
        ensures
            match self@.fault(model_index as nat) {
                Some(fault) => r is Err && r->Err_0.fault() == fault && r->Err_0.origin() == path@,
                None => r is Ok,
            },
    {
        if self.positions.len() % 3 != 0 {
            return Err(
                ObjLoadError::MalformedAttributeArray {
                    path: String::from_str(path),
                    model_index,
                    attribute: "position",
                    len: self.positions.len(),
                },
            );
        }
        let vertex_count: usize = self.positions.len() / 3;
        if vertex_count == 0 {
            return Ok(());
        }
        if self.normals.len() > 0 {
            if self.normals.len() % 3 != 0 {
                return Err(
                    ObjLoadError::MalformedAttributeArray {
                        path: String::from_str(path),
                        model_index,
                        attribute: "normal",
                        len: self.normals.len(),
                    },
                );
            }
            let found: usize = self.normals.len() / 3;
            if found != vertex_count {
                return Err(
                    ObjLoadError::AttributeLengthMismatch {
                        path: String::from_str(path),
                        model_index,
                        attribute: "normal",
                        expected: vertex_count,
                        found,
                    },
                );
            }
        }
        if self.texcoords.len() > 0 {
            if self.texcoords.len() % 2 != 0 {
                return Err(
                    ObjLoadError::MalformedAttributeArray {
                        path: String::from_str(path),
                        model_index,
                        attribute: "texcoord",
                        len: self.texcoords.len(),
                    },
                );
            }
            let found: usize = self.texcoords.len() / 2;
            if found != vertex_count {
                return Err(
                    ObjLoadError::AttributeLengthMismatch {
                        path: String::from_str(path),
                        model_index,
                        attribute: "texcoord",
                        expected: vertex_count,
                        found,
                    },
                );
            }
        }
        let mut i: usize = 0;
        while i < self.indices.len()
            invariant
                i <= self.indices@.len(),
                vertex_count == self@.vertex_count(),
                self.positions@.len() % 3 == 0,
                vertex_count > 0,
                self.normals@.len() % 3 == 0,
                self.normals@.len() > 0 ==> self.normals@.len() / 3 == vertex_count,
                self.texcoords@.len() % 2 == 0,
                self.texcoords@.len() > 0 ==> self.texcoords@.len() / 2 == vertex_count,
                first_out_of_range(self.indices@, vertex_count as nat, i as int) is None,
            decreases self.indices@.len() - i,
        {
            let index: u32 = self.indices[i];
            if index as u64 >= vertex_count as u64 {
                proof {
                    lemma_first_out_of_range_stays(
                        self.indices@,
                        vertex_count as nat,
                        i + 1,
                        self.indices@.len() as int,
                    );
                }
                return Err(
                    ObjLoadError::IndexOutOfRange {
                        path: String::from_str(path),
                        model_index,
                        index,
                        vertex_count,
                    },
                );
            }
            i = i + 1;
        }
        Ok(())
    }

    /// The vertices of a model that is not at fault.
    fn build_vertices(&self) -> (r: Vec<SkinnedVertex>)
        requires
            self@.fault(0) is None,
            self@.vertex_count() > 0,
        ensures
            r@ == self@.vertices(),
    {
        let zero = Single { bits: ZERO_BITS };
        let one = Single { bits: ONE_BITS };
        let count: usize = self.positions.len() / 3;
        let has_normals: bool = self.normals.len() > 0;
        let has_uvs: bool = self.texcoords.len() > 0;
        let mut vertices: Vec<SkinnedVertex> = Vec::new();
        let mut i: usize = 0;
        while i < count
            invariant
                i <= count,
                count == self@.vertex_count(),
                self.positions@.len() == 3 * count,
                self.positions@.len() <= usize::MAX,
                has_normals ==> self.normals@.len() == 3 * count,
                has_uvs ==> self.texcoords@.len() == 2 * count,
                has_normals == (self.normals@.len() > 0),
                has_uvs == (self.texcoords@.len() > 0),
                zero == Single::positive_zero(),
                one == Single::one(),
                vertices@.len() == i,
                forall|j: int| 0 <= j < i ==> #[trigger] vertices@[j] == self@.raw_vertex(j),
            decreases count - i,
        {
            let position = [
                self.positions[3 * i],
                self.positions[3 * i + 1],
                self.positions[3 * i + 2],
            ];
            let normal = if has_normals {
                [self.normals[3 * i], self.normals[3 * i + 1], self.normals[3 * i + 2]]
            } else {
                [zero, zero, zero]
            };
            let uv = if has_uvs {
                [self.texcoords[2 * i], self.texcoords[2 * i + 1]]
            } else {
                [zero, zero]
            };
            vertices.push(
                SkinnedVertex {
                    position,
                    normal,
                    uv,
                    bone_indices: [0, 0, 0, 0],
                    bone_weights: [one, zero, zero, zero],
                },
            );
            i = i + 1;
        }
        assert(vertices@ =~= self@.raw_vertices());
        if !has_normals {
            compute_smooth_normals(vertices.as_mut_slice(), self.indices.as_slice());
            assert(vertices@ =~= self@.vertices());
        }
        vertices
    }
}

proof fn lemma_first_out_of_range_stays(indices: Seq<u32>, vertex_count: nat, i: int, n: int)
    requires
        0 <= i <= n,
        first_out_of_range(indices, vertex_count, i) is Some,
    ensures
        first_out_of_range(indices, vertex_count, n) == first_out_of_range(
            indices,
            vertex_count,
            i,
        ),
    decreases n - i,
{
    if i < n {
        lemma_first_out_of_range_stays(indices, vertex_count, i, n - 1);
    }
}

/// The fault of the first of the first `n` models that has one.
pub open spec fn models_fault(models: Seq<ModelParts>, n: int) -> Option<ObjFault>
    decreases n,
{
    if n <= 0 {
        None
    } else {
        match models_fault(models, n - 1) {
            Some(fault) => Some(fault),
            None => models[n - 1].fault((n - 1) as nat),
        }
    }
}

/// The vertices of the first `n` models, one model behind the other.
pub open spec fn mesh_vertices(models: Seq<ModelParts>, n: int) -> Seq<SkinnedVertex>
    decreases n,
{
    if n <= 0 {
        Seq::empty()
    } else {
        mesh_vertices(models, n - 1) + models[n - 1].vertices()
    }
}

/// The indices of the first `n` models, each counted on from the vertices of the
/// models before it. A model without vertices has no say.
pub open spec fn mesh_indices(models: Seq<ModelParts>, n: int) -> Seq<u32>
    decreases n,
{
    if n <= 0 {
        Seq::empty()
    } else {
        let before = mesh_indices(models, n - 1);
        if models[n - 1].vertex_count() == 0 {
            before
        } else {
            before + rebased(models[n - 1].indices, mesh_vertices(models, n - 1).len())
        }
    }
}

pub open spec fn rebased(indices: Seq<u32>, base: nat) -> Seq<u32> {
    indices.map_values(|index: u32| (index + base) as u32)
}

/// How many vertices the first `n` models have.
pub open spec fn total_vertices(models: Seq<ModelParts>, n: int) -> nat
    decreases n,
{
    if n <= 0 {
        0
    } else {
        total_vertices(models, n - 1) + models[n - 1].vertex_count()
    }
}

/// Why the models do not make a mesh.
pub open spec fn mesh_fault(models: Seq<ModelParts>) -> Option<ObjFault> {
    let n = models.len() as int;
    if n == 0 {
        Some(ObjFault::NoModels)
    } else {
        match models_fault(models, n) {
            Some(fault) => Some(fault),
            None => if total_vertices(models, n) == 0 {
                Some(ObjFault::EmptyGeometry)
            } else {
                None
            },
        }
    }
}

proof fn lemma_models_fault_stays(models: Seq<ModelParts>, i: int, n: int)
    requires
        0 <= i <= n,
        models_fault(models, i) is Some,
    ensures
        models_fault(models, n) == models_fault(models, i),
    decreases n - i,
{
    if i < n {
        lemma_models_fault_stays(models, i, n - 1);
    }
}

proof fn lemma_total_vertices(models: Seq<ModelParts>, i: int, n: int)
    requires
        0 <= i <= n,
    ensures
        mesh_vertices(models, i).len() == total_vertices(models, i),
        total_vertices(models, i) <= total_vertices(models, n),
    decreases n,
{
    if i < n {
        lemma_total_vertices(models, i, n - 1);
    } else if i > 0 {
        lemma_total_vertices(models, i - 1, i - 1);
    }
}

proof fn lemma_in_range(indices: Seq<u32>, vertex_count: nat, i: int, n: int)
    requires
        0 <= i < n,
        first_out_of_range(indices, vertex_count, n) is None,
    ensures
        indices[i] < vertex_count,
    decreases n,
{
    if i < n - 1 {
        lemma_in_range(indices, vertex_count, i, n - 1);
    }
}

/// One mesh from the models of an OBJ file: their vertices and their triangles, in
/// order. `path` is only for messages.
pub fn build_loaded_obj_mesh(models: &Vec<ObjModel>, path: &str) -> (r: Result<
    LoadedObjMesh,
    ObjLoadError,
>)
    requires
        total_vertices(views(models@), models@.len() as int) <= u32::MAX,
    ensures
        match mesh_fault(views(models@)) {
            Some(fault) => r is Err && r->Err_0.fault() == fault && r->Err_0.origin() == path@,
            None => {
                &&& r is Ok
                &&& r->Ok_0.vertices@ == mesh_vertices(views(models@), models@.len() as int)
                &&& r->Ok_0.indices@ == mesh_indices(views(models@), models@.len() as int)
            },
        },
{
    let n: usize = models.len();
    if n == 0 {
        return Err(ObjLoadError::NoModels { path: String::from_str(path) });
    }
    let mut vertices: Vec<SkinnedVertex> = Vec::new();
    let mut indices: Vec<u32> = Vec::new();
    let mut k: usize = 0;
    while k < n
        invariant
            k <= n == models@.len(),
            n > 0,
            total_vertices(views(models@), n as int) <= u32::MAX,
            models_fault(views(models@), k as int) is None,
            vertices@ == mesh_vertices(views(models@), k as int),
            indices@ == mesh_indices(views(models@), k as int),
        decreases n - k,
    {
        let model = &models[k];
        assert(views(models@)[k as int] == model@);
        match model.check(k, path) {
            Ok(()) => {},
            Err(e) => {
                proof {
                    lemma_models_fault_stays(views(models@), k + 1, n as int);
                }
                return Err(e);
            },
        }
        proof {
            lemma_total_vertices(views(models@), k as int, n as int);
            lemma_total_vertices(views(models@), k + 1, n as int);
            assert(model@.fault(0) is None);
        }
        if model.positions.len() / 3 == 0 {
            assert(model@.vertices() =~= Seq::<SkinnedVertex>::empty());
            assert(mesh_vertices(views(models@), k + 1) =~= vertices@);
        } else {
            let base: u32 = vertices.len() as u32;
            let mut own = model.build_vertices();
            vertices.append(&mut own);
            let ghost before = indices@;
            let mut i: usize = 0;
            assert(rebased(model.indices@.take(0), base as nat) =~= Seq::<u32>::empty());
            while i < model.indices.len()
                invariant
                    i <= model.indices@.len(),
                    base + model@.vertex_count() <= u32::MAX,
                    first_out_of_range(
                        model.indices@,
                        model@.vertex_count(),
                        model.indices@.len() as int,
                    ) is None,
                    indices@ == before + rebased(model.indices@.take(i as int), base as nat),
                decreases model.indices@.len() - i,
            {
                proof {
                    lemma_in_range(
                        model.indices@,
                        model@.vertex_count(),
                        i as int,
                        model.indices@.len() as int,
                    );
                }
                indices.push(model.indices[i] + base);
                i = i + 1;
                assert(indices@ =~= before + rebased(model.indices@.take(i as int), base as nat));
            }
            assert(model.indices@.take(i as int) =~= model.indices@);
        }
        k = k + 1;
    }
    proof {
        lemma_total_vertices(views(models@), n as int, n as int);
    }
    if vertices.len() == 0 {
        return Err(ObjLoadError::EmptyGeometry { path: String::from_str(path) });
    }
    Ok(LoadedObjMesh { vertices, indices })
}

/// Every index of the mesh is that of one of its vertices.
pub proof fn law_mesh_indices_in_range(models: Seq<ModelParts>, n: int, i: int)
    requires
        0 <= n,
        models_fault(models, n) is None,
        total_vertices(models, n) <= u32::MAX,
        0 <= i < mesh_indices(models, n).len(),
    ensures
        mesh_indices(models, n)[i] < mesh_vertices(models, n).len(),
    decreases n,
{
    let before = mesh_indices(models, n - 1);
    let model = models[n - 1];
    lemma_total_vertices(models, n, n);
    lemma_total_vertices(models, n - 1, n);
    if i < before.len() {
        law_mesh_indices_in_range(models, n - 1, i);
    } else {
        lemma_in_range(
            model.indices,
            model.vertex_count(),
            i - before.len(),
            model.indices.len() as int,
        );
    }
}

/// Vertex `i` of model `m` stands in the mesh behind the vertices of the models before,
/// with the numbers that the model has for it: the numbers of the mesh's vertices, one
/// after the other, are those of the model's arrays. Without texture coordinates, those
/// are zero.
pub proof fn law_mesh_vertex_has_the_models_numbers(
    models: Seq<ModelParts>,
    n: int,
    m: int,
    i: int,
)
    requires
        0 <= m < n <= models.len(),
        models_fault(models, n) is None,
        0 <= 3 * i < models[m].positions.len(),
    ensures
        ({
            let model = models[m];
            let at = total_vertices(models, m) + i;
            let vertex = mesh_vertices(models, n)[at];
            &&& 0 <= at < mesh_vertices(models, n).len()
            &&& forall|c: int| 0 <= c < 3 ==> #[trigger] vertex.position[c] == model.positions[3 * i + c]
            &&& model.normals.len() > 0 ==> forall|c: int|
                0 <= c < 3 ==> #[trigger] vertex.normal[c] == model.normals[3 * i + c]
            &&& model.texcoords.len() > 0 ==> forall|c: int|
                0 <= c < 2 ==> #[trigger] vertex.uv[c] == model.texcoords[2 * i + c]
            &&& model.texcoords.len() == 0 ==> forall|c: int|
                0 <= c < 2 ==> (#[trigger] vertex.uv[c]).bits == 0
        }),
    decreases n,
{
    lemma_total_vertices(models, n, n);
    lemma_total_vertices(models, n - 1, n);
    lemma_total_vertices(models, m, n - 1);
    lemma_total_vertices(models, m + 1, n);
    lemma_models_fault_none(models, m, n);
    if m < n - 1 {
        law_mesh_vertex_has_the_models_numbers(models, n - 1, m, i);
    } else {
        let vertex = models[m].vertices()[i];
        assert(mesh_vertices(models, n)[total_vertices(models, m) + i] == vertex);
    }
}

/// How long the mesh is: the vertices and the indices of all models with vertices, and
/// nothing else.
pub proof fn law_mesh_grows_by_each_model(models: Seq<ModelParts>, m: int)
    requires
        0 <= m < models.len(),
    ensures
        mesh_vertices(models, 0).len() == 0,
        mesh_indices(models, 0).len() == 0,
        mesh_vertices(models, m + 1).len() == mesh_vertices(models, m).len()
            + models[m].positions.len() / 3,
        models[m].positions.len() >= 3 ==> mesh_indices(models, m + 1).len() == mesh_indices(
            models,
            m,
        ).len() + models[m].indices.len(),
        models[m].positions.len() < 3 ==> mesh_indices(models, m + 1).len() == mesh_indices(
            models,
            m,
        ).len(),
{
    lemma_total_vertices(models, m, m);
    lemma_total_vertices(models, m + 1, m + 1);
}

/// Index `j` of model `m` leads, in the mesh, to the very vertex that it led to in the
/// model: the position there is the model's own.
pub proof fn law_mesh_index_leads_to_own_vertex(
    models: Seq<ModelParts>,
    n: int,
    m: int,
    j: int,
)
    requires
        0 <= m < n <= models.len(),
        models_fault(models, n) is None,
        total_vertices(models, n) <= u32::MAX,
        models[m].positions.len() >= 3,
        0 <= j < models[m].indices.len(),
    ensures
        ({
            let model = models[m];
            let at = mesh_indices(models, m).len() + j;
            let index = mesh_indices(models, n)[at];
            let own = model.indices[j] as int;
            &&& 0 <= at < mesh_indices(models, n).len()
            &&& index == mesh_vertices(models, m).len() + own
            &&& index < mesh_vertices(models, n).len()
            &&& forall|c: int|
                0 <= c < 3 ==> #[trigger] mesh_vertices(models, n)[index as int].position[c]
                    == model.positions[3 * own + c]
        }),
{
    lemma_mesh_index(models, n, m, j);
    lemma_models_fault_none(models, m, n);
    let model = models[m];
    lemma_in_range(model.indices, model.vertex_count(), j, model.indices.len() as int);
    lemma_total_vertices(models, m, n);
    law_mesh_vertex_has_the_models_numbers(models, n, m, model.indices[j] as int);
}

proof fn lemma_mesh_index(models: Seq<ModelParts>, n: int, m: int, j: int)
    requires
        0 <= m < n <= models.len(),
        models_fault(models, n) is None,
        total_vertices(models, n) <= u32::MAX,
        models[m].positions.len() >= 3,
        0 <= j < models[m].indices.len(),
    ensures
        mesh_indices(models, m).len() + j < mesh_indices(models, n).len(),
        mesh_indices(models, n)[mesh_indices(models, m).len() + j] == mesh_vertices(
            models,
            m,
        ).len() + models[m].indices[j],
    decreases n,
{
    lemma_total_vertices(models, m, n);
    lemma_total_vertices(models, m + 1, n);
    lemma_total_vertices(models, n - 1, n);
    lemma_models_fault_none(models, m, n);
    if m < n - 1 {
        lemma_mesh_index(models, n - 1, m, j);
    } else {
        let model = models[m];
        lemma_in_range(model.indices, model.vertex_count(), j, model.indices.len() as int);
    }
}

proof fn lemma_models_fault_none(models: Seq<ModelParts>, m: int, n: int)
    requires
        0 <= m < n,
        models_fault(models, n) is None,
    ensures
        models_fault(models, m) is None,
        models[m].fault(m as nat) is None,
    decreases n,
{
    if m < n - 1 {
        lemma_models_fault_none(models, m, n - 1);
    }
}

/// What makes a model usable: whole positions, normals and texture coordinates for all
/// vertices or for none, and no index past the vertices. A model without any numbers for
/// positions is usable, whatever else it has.
pub proof fn law_usable_model(model: ModelParts, model_index: nat)
    ensures
        model.fault(model_index) is None <==> {
            &&& model.positions.len() % 3 == 0
            &&& model.positions.len() > 0 ==> {
                &&& model.normals.len() == 0 || model.normals.len() == model.positions.len()
                &&& model.texcoords.len() == 0 || 3 * model.texcoords.len() == 2
                    * model.positions.len()
                &&& forall|i: int|
                    0 <= i < model.indices.len() ==> 3 * (#[trigger] model.indices[i])
                        < model.positions.len()
            }
        },
{
    let count = model.vertex_count();
    law_first_index_out_of_range(model.indices, count, model.indices.len() as int);
    if model.positions.len() % 3 == 0 {
        assert(model.positions.len() == 3 * count);
        assert forall|i: int| 0 <= i < model.indices.len() implies (3 * (#[trigger] model.indices[i])
            < model.positions.len() <==> model.indices[i] < count) by {}
    }
}

/// Every index is that of a vertex, or the first one that is not is found.
pub proof fn law_first_index_out_of_range(indices: Seq<u32>, vertex_count: nat, n: int)
    requires
        0 <= n <= indices.len(),
    ensures
        first_out_of_range(indices, vertex_count, n) is None <==> forall|i: int|
            0 <= i < n ==> (#[trigger] indices[i]) < vertex_count,
        first_out_of_range(indices, vertex_count, n) matches Some(index) ==> exists|i: int|
            {
                &&& 0 <= i < n
                &&& (#[trigger] indices[i]) == index
                &&& index >= vertex_count
                &&& forall|k: int| 0 <= k < i ==> (#[trigger] indices[k]) < vertex_count
            },
    decreases n,
{
    if n > 0 {
        law_first_index_out_of_range(indices, vertex_count, n - 1);
    }
}

/// Models make a mesh if and only if there are some, each is usable, and one has vertices.
/// The first model that is not usable is the one that is reported.
pub proof fn law_usable_models_make_a_mesh(models: Seq<ModelParts>)
    ensures
        mesh_fault(models) is None <==> {
            &&& forall|m: int| 0 <= m < models.len() ==> (#[trigger] models[m]).fault(m as nat) is None
            &&& exists|m: int| 0 <= m < models.len() && (#[trigger] models[m]).positions.len() >= 3
        },
        models.len() == 0 ==> mesh_fault(models) == Some(ObjFault::NoModels),
        forall|m: int|
            0 <= m < models.len() && (#[trigger] models[m]).fault(m as nat) is Some && (forall|k: int|
                0 <= k < m ==> (#[trigger] models[k]).fault(k as nat) is None) ==> mesh_fault(models)
                == models[m].fault(m as nat),
{
    let n = models.len() as int;
    lemma_first_faulty(models, n);
    lemma_some_vertices(models, n);
}

proof fn lemma_first_faulty(models: Seq<ModelParts>, n: int)
    requires
        0 <= n <= models.len(),
    ensures
        models_fault(models, n) is None <==> forall|m: int|
            0 <= m < n ==> (#[trigger] models[m]).fault(m as nat) is None,
        forall|m: int|
            0 <= m < n && (#[trigger] models[m]).fault(m as nat) is Some && (forall|k: int|
                0 <= k < m ==> (#[trigger] models[k]).fault(k as nat) is None) ==> models_fault(
                models,
                n,
            ) == models[m].fault(m as nat),
    decreases n,
{
    if n > 0 {
        lemma_first_faulty(models, n - 1);
    }
}

proof fn lemma_some_vertices(models: Seq<ModelParts>, n: int)
    requires
        0 <= n <= models.len(),
    ensures
        total_vertices(models, n) > 0 <==> exists|m: int|
            0 <= m < n && (#[trigger] models[m]).positions.len() >= 3,
    decreases n,
{
    if n > 0 {
        lemma_some_vertices(models, n - 1);
        if models[n - 1].positions.len() >= 3 {
            assert(models[n - 1].vertex_count() > 0);
        }
        if exists|m: int| 0 <= m < n - 1 && (#[trigger] models[m]).positions.len() >= 3 {
            let m = choose|m: int| 0 <= m < n - 1 && (#[trigger] models[m]).positions.len() >= 3;
            assert(0 <= m < n && models[m].positions.len() >= 3);
        }
    }
}

/// Where a model has no normals, the vertices of the mesh have smooth ones. They follow
/// from where the model's vertices are and from its triangles, whatever else its vertices
/// are said to have.
pub proof fn law_model_without_normals_gets_smooth_ones(
    models: Seq<ModelParts>,
    n: int,
    m: int,
    i: int,
    points: Seq<SkinnedVertex>,
)
    requires
        0 <= m < n <= models.len(),
        models_fault(models, n) is None,
        models[m].normals.len() == 0,
        0 <= 3 * i < models[m].positions.len(),
        3 * points.len() == models[m].positions.len(),
        forall|k: int, c: int|
            0 <= k < points.len() && 0 <= c < 3 ==> #[trigger] points[k].position[c]
                == models[m].positions[3 * k + c],
    ensures
        mesh_vertices(models, n)[total_vertices(models, m) + i].normal == smooth_normal(
            points,
            models[m].indices,
            i,
        ),
    decreases n,
{
    lemma_total_vertices(models, n - 1, n);
    lemma_total_vertices(models, m, n - 1);
    lemma_total_vertices(models, m + 1, n);
    lemma_models_fault_none(models, m, n);
    if m < n - 1 {
        law_model_without_normals_gets_smooth_ones(models, n - 1, m, i, points);
        lemma_total_vertices(models, m + 1, n - 1);
        lemma_total_vertices(models, n - 1, n - 1);
    } else {
        let model = models[m];
        let raw = model.raw_vertices();
        assert forall|k: int| 0 <= k < points.len() implies #[trigger] points[k].position
            == raw[k].position by {
            assert(points[k].position[0] == model.positions[3 * k]);
            assert(points[k].position[1] == model.positions[3 * k + 1]);
            assert(points[k].position[2] == model.positions[3 * k + 2]);
            assert(points[k].position =~= raw[k].position);
        }
        lemma_same_points(points, raw, model.indices, model.indices.len() as int / 3, i);
        assert(mesh_vertices(models, n)[total_vertices(models, m) + i] == model.vertices()[i]);
        assert(model.vertices()[i].normal == smooth_normal(raw, model.indices, i));
    }
}

proof fn lemma_same_points(
    a: Seq<SkinnedVertex>,
    b: Seq<SkinnedVertex>,
    indices: Seq<u32>,
    n: int,
    v: int,
)
    requires
        a.len() == b.len(),
        forall|k: int| 0 <= k < a.len() ==> #[trigger] a[k].position == b[k].position,
        0 <= 3 * n <= indices.len(),
    ensures
        normal_sum(a, indices, n, v) == normal_sum(b, indices, n, v),
    decreases n,
{
    if n > 0 {
        lemma_same_points(a, b, indices, n - 1, v);
        if has_corners(a.len(), indices, n - 1) {
            let t = 3 * (n - 1);
            assert(a[indices[t] as int].position == b[indices[t] as int].position);
            assert(a[indices[t + 1] as int].position == b[indices[t + 1] as int].position);
            assert(a[indices[t + 2] as int].position == b[indices[t + 2] as int].position);
            assert(face_normal(a, indices, n - 1) == face_normal(b, indices, n - 1));
        }
    }
}

/// Every vertex of the mesh is bound to local joint 0 alone, at full weight.
pub proof fn law_mesh_is_bound_to_one_joint(models: Seq<ModelParts>, n: int, i: int)
    requires
        0 <= i < mesh_vertices(models, n).len(),
    ensures
        ({
            let zero = Single::positive_zero();
            let vertex = mesh_vertices(models, n)[i];
            &&& vertex.bone_indices == [0u16, 0u16, 0u16, 0u16]
            &&& vertex.bone_weights == [Single::one(), zero, zero, zero]
        }),
    decreases n,
{
    if i < mesh_vertices(models, n - 1).len() {
        law_mesh_is_bound_to_one_joint(models, n - 1, i);
    }
}

// ------------------------------------------------------------------------
// Parsing
// ------------------------------------------------------------------------

pub open spec fn parse_outcome(r: Result<Vec<ObjModel>, tobj::LoadError>) -> Result<
    Seq<ModelParts>,
    tobj::LoadError,
> {
    match r {
        Ok(models) => Ok(views(models@)),
        Err(e) => Err(e),
    }
}

pub open spec fn settled_numbers(numbers: Seq<Single>) -> Seq<Single> {
    numbers.map_values(|x: Single| x.settled())
}

impl ModelParts {
    /// The model with one bit pattern for everything that is not a number.
    pub open spec fn settled(self) -> ModelParts {
        ModelParts {
            positions: settled_numbers(self.positions),
            normals: settled_numbers(self.normals),
            texcoords: settled_numbers(self.texcoords),
            indices: self.indices,
        }
    }
}

pub open spec fn settled_models(models: Seq<ModelParts>) -> Seq<ModelParts> {
    models.map_values(|model: ModelParts| model.settled())
}

pub open spec fn settled_outcome(parsed: Result<Seq<ModelParts>, tobj::LoadError>) -> Result<
    Seq<ModelParts>,
    tobj::LoadError,
> {
    match parsed {
        Ok(models) => Ok(settled_models(models)),
        Err(e) => Err(e),
    }
}

proof fn lemma_settled_total(models: Seq<ModelParts>, n: int)
    requires
        n <= models.len(),
    ensures
        total_vertices(settled_models(models), n) == total_vertices(models, n),
    decreases n,
{
    if n > 0 {
        lemma_settled_total(models, n - 1);
        assert(settled_models(models)[n - 1] == models[n - 1].settled());
    }
}

fn settle_numbers(numbers: &Vec<Single>) -> (r: Vec<Single>)
    ensures
        r@ == settled_numbers(numbers@),
{
    let mut out: Vec<Single> = Vec::new();
    let mut i: usize = 0;
    while i < numbers.len()
        invariant
            i <= numbers@.len(),
            out@.len() == i,
            forall|j: int| 0 <= j < i ==> #[trigger] out@[j] == numbers@[j].settled(),
        decreases numbers@.len() - i,
    {
        out.push(numbers[i].settle());
        i = i + 1;
    }
    assert(out@ =~= settled_numbers(numbers@));
    out
}

/// The models with one bit pattern for everything that is not a number.
fn settle_models(models: Vec<ObjModel>) -> (r: Vec<ObjModel>)
    ensures
        views(r@) == settled_models(views(models@)),
{
    let mut out: Vec<ObjModel> = Vec::new();
    let mut i: usize = 0;
    while i < models.len()
        invariant
            i <= models@.len(),
            out@.len() == i,
            forall|j: int| 0 <= j < i ==> (#[trigger] out@[j])@ == models@[j]@.settled(),
        decreases models@.len() - i,
    {
        let model = &models[i];
        let mut indices: Vec<u32> = Vec::new();
        indices.extend_from_slice(model.indices.as_slice());
        assert(indices@ =~= model.indices@);
        out.push(
            ObjModel {
                positions: settle_numbers(&model.positions),
                normals: settle_numbers(&model.normals),
                texcoords: settle_numbers(&model.texcoords),
                indices,
            },
        );
        i = i + 1;
    }
    assert(views(out@) =~= settled_models(views(models@)));
    out
}

/// What `tobj::load_obj_buf` makes of OBJ data, under the load options
/// `triangulate`, `single_index`, `ignore_points` and `ignore_lines`, without
/// material files, with one bit pattern for everything that is not a number.
/// `word_bits` is how wide a `usize` is: on it depends which error a reference that is
/// far out of bounds gives.
pub uninterp spec fn parsed_obj(
    bytes: Seq<u8>,
    triangulate: bool,
    single_index: bool,
    ignore_points: bool,
    ignore_lines: bool,
    word_bits: u32,
) -> Result<Seq<ModelParts>, tobj::LoadError>;

/// `tobj::load_obj_buf` on bytes in memory, with a material loader that finds no
/// file. What is trusted is that the outcome depends on the bytes, the options and the
/// width of `usize` alone, but for which bit pattern stands where a coordinate is not
/// a number: tobj divides coordinates by a fourth one, and the machine picks the
/// pattern. The numbers come as bit patterns; names and materials are not kept.
///
/// A texture or normal reference that leaves the range of `usize` would make tobj's own
/// arithmetic overflow when it makes the faces of a model, so data with one is kept away
/// from it. tobj makes the faces where the next object or group starts, or at the end,
/// and looks at references to an attribute only if some has been declared by then; a
/// change of material starts no model, as no material is ever found. That a reference is
/// resolvable is only asked of faces of three and more corners, so points and lines must
/// be ignored.
#[verifier::external_body]
fn parse_obj(
    bytes: &[u8],
    triangulate: bool,
    single_index: bool,
    ignore_points: bool,
    ignore_lines: bool,
) -> (r: Result<Vec<ObjModel>, tobj::LoadError>)
    requires
        single_index,
        ignore_points,
        ignore_lines,
        obj_references::references_resolvable(bytes@),
    ensures
        settled_outcome(parse_outcome(r)) == parsed_obj(
            bytes@,
            triangulate,
            single_index,
            ignore_points,
            ignore_lines,
            usize::BITS,
        ),
{
    let mut reader = bytes;
    let options = tobj::LoadOptions { triangulate, single_index, ignore_points, ignore_lines };
    let no_materials = |_: &std::path::Path| Err(tobj::LoadError::OpenFileFailed);
    let (models, _) = tobj::load_obj_buf(&mut reader, &options, no_materials)?;
    Ok(models.iter().map(|m| ObjModel {
        positions: m.mesh.positions.iter().map(|x| Single { bits: x.to_bits() }).collect(),
        normals: m.mesh.normals.iter().map(|x| Single { bits: x.to_bits() }).collect(),
        texcoords: m.mesh.texcoords.iter().map(|x| Single { bits: x.to_bits() }).collect(),
        indices: m.mesh.indices.clone(),
    }).collect())
}

/// What OBJ data in memory is said to have come from.
pub open spec fn embedded_origin() -> Seq<char> {
    "<embedded bytes>"@
}

/// tobj's outcome for OBJ data, triangulated, with one index for all attributes of a
/// vertex, and without points and lines.
pub open spec fn parsed_triangles(bytes: Seq<u8>) -> Result<Seq<ModelParts>, tobj::LoadError> {
    parsed_obj(bytes, true, true, true, true, usize::BITS)
}

/// What loading OBJ data comes to, once it has been parsed.
pub open spec fn is_loaded(
    parsed: Result<Seq<ModelParts>, tobj::LoadError>,
    r: Result<LoadedObjMesh, ObjLoadError>,
) -> bool {
    match parsed {
        Err(source) => {
            &&& r is Err
            &&& r->Err_0.fault() == (ObjFault::Parse { source })
            &&& r->Err_0.origin() == embedded_origin()
        },
        Ok(models) => match mesh_fault(models) {
            Some(fault) => {
                &&& r is Err
                &&& r->Err_0.fault() == fault
                &&& r->Err_0.origin() == embedded_origin()
            },
            None => {
                &&& r is Ok
                &&& r->Ok_0.vertices@ == mesh_vertices(models, models.len() as int)
                &&& r->Ok_0.indices@ == mesh_indices(models, models.len() as int)
            },
        },
    }
}

/// The models, where there are any, have no more vertices than a `u32` can count.
pub open spec fn countable(parsed: Result<Seq<ModelParts>, tobj::LoadError>) -> bool {
    parsed matches Ok(models) ==> total_vertices(models, models.len() as int) <= u32::MAX
}

/// The mesh that parsed models make, or the error of the parse. Coordinates that are
/// not numbers come to have one bit pattern.
pub fn finish_loading(parsed: Result<Vec<ObjModel>, tobj::LoadError>) -> (r: Result<
    LoadedObjMesh,
    ObjLoadError,
>)
    requires
        countable(parse_outcome(parsed)),
    ensures
        is_loaded(settled_outcome(parse_outcome(parsed)), r),
{
    match parsed {
        Ok(models) => {
            proof {
                lemma_settled_total(views(models@), models@.len() as int);
            }
            let ghost count = models@.len();
            let settled = settle_models(models);
            assert(views(settled@).len() == count);
            build_loaded_obj_mesh(&settled, "<embedded bytes>")
        },
        Err(source) => Err(
            ObjLoadError::Parse { path: String::from_str("<embedded bytes>"), source },
        ),
    }
}

/// tobj's outcome for OBJ data, after far references have taken the place of those that
/// its arithmetic could not follow. Both kinds are out of bounds, and what tobj comes upon
/// first it reports, so that such a reference is one more thing that it may find wrong.
pub open spec fn parsed_bytes(bytes: Seq<u8>) -> Result<Seq<ModelParts>, tobj::LoadError> {
    parsed_triangles(obj_references::bounded(bytes))
}

/// OBJ data whose references can all be followed is parsed as it stands.
pub proof fn law_followable_data_is_parsed_as_it_stands(bytes: Seq<u8>)
    requires
        obj_references::references_resolvable(bytes),
    ensures
        parsed_bytes(bytes) == parsed_triangles(bytes),
{
    obj_references::law_resolvable_data_stays(bytes);
}

/// Parses OBJ data in memory into one mesh: triangulated, with smooth normals where
/// a model has none, every vertex bound to joint 0.
pub fn load_obj_bytes(bytes: &[u8]) -> (r: Result<LoadedObjMesh, ObjLoadError>)
    requires
        countable(parsed_bytes(bytes@)),
    ensures
        is_loaded(parsed_bytes(bytes@), r),
{
    let text = bound_references(bytes);
    let parsed = parse_obj(text.as_slice(), true, true, true, true);
    proof {
        if parsed is Ok {
            lemma_settled_total(views(parsed->Ok_0@), parsed->Ok_0@.len() as int);
        }
    }
    finish_loading(parsed)
}

/// How many vertices the models have, where a `u32` can count them.
fn count_vertices(models: &Vec<ObjModel>) -> (r: Option<u32>)
    ensures
        r is Some <==> total_vertices(views(models@), models@.len() as int) <= u32::MAX,
{
    let n: usize = models.len();
    let mut total: u32 = 0;
    let mut k: usize = 0;
    while k < n
        invariant
            k <= n == models@.len(),
            total == total_vertices(views(models@), k as int),
        decreases n - k,
    {
        assert(views(models@)[k as int] == models@[k as int]@);
        let count: usize = models[k].positions.len() / 3;
        if count as u64 > (u32::MAX - total) as u64 {
            proof {
                lemma_total_vertices(views(models@), k + 1, n as int);
            }
            return None;
        }
        total = total + count as u32;
        k = k + 1;
    }
    Some(total)
}

/// [`load_obj_bytes`] for any data: `None` where it has more vertices than a `u32` can
/// count.
pub fn try_load_obj_bytes(bytes: &[u8]) -> (r: Option<Result<LoadedObjMesh, ObjLoadError>>)
    ensures
        r is Some <==> countable(parsed_bytes(bytes@)),
        r matches Some(inner) ==> is_loaded(parsed_bytes(bytes@), inner),
{
    let text = bound_references(bytes);
    match parse_obj(text.as_slice(), true, true, true, true) {
        Ok(models) => {
            proof {
                lemma_settled_total(views(models@), models@.len() as int);
            }
            if count_vertices(&models).is_none() {
                return None;
            }
        },
        Err(_) => {},
    }
    Some(load_obj_bytes(bytes))
}

/// The text that `tobj::LoadError` displays as.
pub uninterp spec fn load_error_text(e: tobj::LoadError) -> Seq<char>;

/// `tobj::LoadError`'s `Display`. What is trusted is that the text depends on the
/// error alone.
#[verifier::external_body]
fn describe_load_error(e: &tobj::LoadError) -> (r: String)
    ensures
        r@ == load_error_text(*e),
{
    e.to_string()
}

impl ObjLoadError {
    /// The text that [`ObjLoadError::message`] returns.
    pub open spec fn text(self) -> Seq<char> {
        match self {
            ObjLoadError::Parse { path, source } => "failed to parse '"@ + path@ + "': "@
                + load_error_text(source),
            ObjLoadError::NoModels { path } => "'"@ + path@ + "' contains no models"@,
            ObjLoadError::EmptyGeometry { path } => "'"@ + path@
                + "' contains models but they yielded zero usable vertices"@,
            ObjLoadError::MalformedAttributeArray { path, model_index, attribute, len } => "'"@
                + path@ + "' model["@ + text::decimal(model_index as nat) + "] attribute '"@
                + attribute@ + "' has "@ + text::decimal(len as nat)
                + " floats, which is not a whole number of vertices"@,
            ObjLoadError::AttributeLengthMismatch {
                path,
                model_index,
                attribute,
                expected,
                found,
            } => "'"@ + path@ + "' model["@ + text::decimal(model_index as nat) + "] attribute '"@
                + attribute@ + "' has "@ + text::decimal(found as nat) + " elements, expected "@
                + text::decimal(expected as nat),
            ObjLoadError::IndexOutOfRange { path, model_index, index, vertex_count } => "'"@ + path@
                + "' model["@ + text::decimal(model_index as nat) + "] face index "@
                + text::decimal(index as nat) + " is out of range for its "@ + text::decimal(
                vertex_count as nat,
            ) + "-vertex model"@,
        }
    }

    /// What went wrong, in words.
    pub fn message(&self) -> (r: String)
        ensures
            r@ == self.text(),
    {
        match self {
            ObjLoadError::Parse { path, source } => {
                let mut m = String::from_str("failed to parse '");
                m.append(path.as_str());
                m.append("': ");
                m.append(describe_load_error(source).as_str());
                m
            },
            ObjLoadError::NoModels { path } => {
                let mut m = String::from_str("'");
                m.append(path.as_str());
                m.append("' contains no models");
                m
            },
            ObjLoadError::EmptyGeometry { path } => {
                let mut m = String::from_str("'");
                m.append(path.as_str());
                m.append("' contains models but they yielded zero usable vertices");
                m
            },
            ObjLoadError::MalformedAttributeArray { path, model_index, attribute, len } => {
                let mut m = String::from_str("'");
                m.append(path.as_str());
                m.append("' model[");
                append_decimal(&mut m, *model_index as u64);
                m.append("] attribute '");
                m.append(attribute);
                m.append("' has ");
                append_decimal(&mut m, *len as u64);
                m.append(" floats, which is not a whole number of vertices");
                m
            },
            ObjLoadError::AttributeLengthMismatch {
                path,
                model_index,
                attribute,
                expected,
                found,
            } => {
                let mut m = String::from_str("'");
                m.append(path.as_str());
                m.append("' model[");
                append_decimal(&mut m, *model_index as u64);
                m.append("] attribute '");
                m.append(attribute);
                m.append("' has ");
                append_decimal(&mut m, *found as u64);
                m.append(" elements, expected ");
                append_decimal(&mut m, *expected as u64);
                m
            },
            ObjLoadError::IndexOutOfRange { path, model_index, index, vertex_count } => {
                let mut m = String::from_str("'");
                m.append(path.as_str());
                m.append("' model[");
                append_decimal(&mut m, *model_index as u64);
                m.append("] face index ");
                append_decimal(&mut m, *index as u64);
                m.append(" is out of range for its ");
                append_decimal(&mut m, *vertex_count as u64);
                m.append("-vertex model");
                m
            },
        }
    }
}

/// Settling changes nothing but the bit pattern of what is not a number.
pub proof fn law_settling_keeps_numbers(model: ModelParts)
    ensures
        model.settled().indices == model.indices,
        model.settled().positions.len() == model.positions.len(),
        model.settled().normals.len() == model.normals.len(),
        model.settled().texcoords.len() == model.texcoords.len(),
        forall|i: int|
            0 <= i < model.positions.len() && !model.positions[i].nan()
                ==> #[trigger] model.settled().positions[i] == model.positions[i],
        forall|i: int|
            0 <= i < model.normals.len() && !model.normals[i].nan()
                ==> #[trigger] model.settled().normals[i] == model.normals[i],
        forall|i: int|
            0 <= i < model.texcoords.len() && !model.texcoords[i].nan()
                ==> #[trigger] model.settled().texcoords[i] == model.texcoords[i],
        forall|i: int|
            0 <= i < model.positions.len() && model.positions[i].nan() ==> (
            #[trigger] model.settled().positions[i]).nan(),
{
}

/// What has been loaded is the whole data: as many vertices as the models have, each with the
/// numbers of its own model, and as many indices.
pub proof fn law_loaded_mesh_holds_all_models(
    models: Seq<ModelParts>,
    r: Result<LoadedObjMesh, ObjLoadError>,
    m: int,
    i: int,
)
    requires
        is_loaded(Ok(models), r),
        r is Ok,
        0 <= m < models.len(),
        0 <= 3 * i < models[m].positions.len(),
    ensures
        r->Ok_0.vertices@.len() == total_vertices(models, models.len() as int),
        r->Ok_0.indices@.len() == mesh_indices(models, models.len() as int).len(),
        ({
            let model = models[m];
            let vertex = r->Ok_0.vertices@[total_vertices(models, m) + i];
            &&& total_vertices(models, m) + i < r->Ok_0.vertices@.len()
            &&& forall|c: int| 0 <= c < 3 ==> #[trigger] vertex.position[c] == model.positions[3 * i + c]
            &&& model.normals.len() > 0 ==> forall|c: int|
                0 <= c < 3 ==> #[trigger] vertex.normal[c] == model.normals[3 * i + c]
            &&& model.texcoords.len() > 0 ==> forall|c: int|
                0 <= c < 2 ==> #[trigger] vertex.uv[c] == model.texcoords[2 * i + c]
        }),
{
    let n = models.len() as int;
    lemma_total_vertices(models, n, n);
    law_mesh_vertex_has_the_models_numbers(models, n, m, i);
}

} // verus!
