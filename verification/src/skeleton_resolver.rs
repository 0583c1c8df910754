use crate::accuracy;
use crate::json_numbers;
use crate::json_numbers::has_countable_numbers;
use crate::single;
use crate::single::Single;
use crate::text;
use crate::text::append_decimal;
use crate::vector_accuracy;
use crate::vertex::{JointBindPose, SkinnedVertex};
use vstd::prelude::*;
use vstd::string::StringExecFns;

verus! {

/// The bit pattern of 0.0001: how far apart two components of a bind pose may be.
pub const BIND_POSE_TOLERANCE_BITS: u32 = 0x38d1_b717;

/// A bone of the master skeleton.
#[derive(Debug)]
pub struct NamedBone {
    pub name: String,
    pub global_index: u32,
}

/// What is known of a bone: its parent's global index, or `None` for the root, and
/// its transform in the bind pose.
#[derive(Clone, Copy, Debug, PartialEq, Eq)]
pub struct GlobalJoint {
    pub parent: Option<u32>,
    pub bind_pose: JointBindPose,
}

/// The bones by name, and what the parts loaded so far have said of each.
#[derive(Debug)]
pub struct MasterSkeleton {
    /// No two entries have the same name.
    pub name_to_global_index: Vec<NamedBone>,
    /// By global index. `None` until a part has contributed the bone.
    pub global_joints: Vec<Option<GlobalJoint>>,
}

/// The index of the first of the first `n` bones with the name.
pub open spec fn find_bone(bones: Seq<NamedBone>, name: Seq<char>, n: int) -> Option<u32>
    decreases n,
{
    if n <= 0 {
        None
    } else {
        match find_bone(bones, name, n - 1) {
            Some(index) => Some(index),
            None => if bones[n - 1].name@ == name {
                Some(bones[n - 1].global_index)
            } else {
                None
            },
        }
    }
}

pub open spec fn distinct_names(bones: Seq<NamedBone>) -> bool {
    forall|i: int, j: int|
        0 <= i < j < bones.len() ==> (#[trigger] bones[i]).name@ != (#[trigger] bones[j]).name@
}

/// The bones as a map from names.
pub open spec fn name_map(bones: Seq<NamedBone>) -> Map<Seq<char>, u32> {
    Map::new(
        |name: Seq<char>| find_bone(bones, name, bones.len() as int) is Some,
        |name: Seq<char>| find_bone(bones, name, bones.len() as int)->0,
    )
}

impl MasterSkeleton {
    pub open spec fn well_formed(self) -> bool {
        distinct_names(self.name_to_global_index@)
    }

    /// The global index of the bone with the name.
    pub open spec fn index_of(self, name: Seq<char>) -> Option<u32> {
        find_bone(
            self.name_to_global_index@,
            name,
            self.name_to_global_index@.len() as int,
        )
    }

    /// Some bone with the name has the global index.
    pub open spec fn names(self, name: Seq<char>, global_index: u32) -> bool {
        exists|i: int|
            {
                &&& 0 <= i < self.name_to_global_index@.len()
                &&& (#[trigger] self.name_to_global_index@[i]).name@ == name
                &&& self.name_to_global_index@[i].global_index == global_index
            }
    }

    /// A name for the bone with the global index; one that says so where there is
    /// none.
    pub open spec fn is_label(self, label: Seq<char>, global_index: u32) -> bool {
        if exists|name: Seq<char>| #[trigger] self.names(name, global_index) {
            self.names(label, global_index)
        } else {
            label == "<unnamed bone #"@ + text::decimal(global_index as nat) + ">"@
        }
    }

    /// The global index of the bone with the name.
    pub fn find(&self, name: &String) -> (r: Option<u32>)
        ensures
            r == self.index_of(name@),
    {
        let n: usize = self.name_to_global_index.len();
        let mut i: usize = 0;
        while i < n
            invariant
                n == self.name_to_global_index@.len(),
                i <= n,
                find_bone(self.name_to_global_index@, name@, i as int) is None,
            decreases n - i,
        {
            if self.name_to_global_index[i].name == *name {
                proof {
                    lemma_found_stays(self.name_to_global_index@, name@, i + 1, n as int);
                }
                return Some(self.name_to_global_index[i].global_index);
            }
            i = i + 1;
        }
        None
    }
}

proof fn lemma_found_stays(bones: Seq<NamedBone>, name: Seq<char>, i: int, n: int)
    requires
        0 <= i <= n,
        find_bone(bones, name, i) is Some,
    ensures
        find_bone(bones, name, n) == find_bone(bones, name, i),
    decreases n - i,
{
    if i < n {
        lemma_found_stays(bones, name, i, n - 1);
    }
}

/// A name for the bone with the global index, for messages.
pub fn bone_name_for_global_index(master: &MasterSkeleton, global_index: u32) -> (r: String)
    ensures
        master.is_label(r@, global_index),
{
    let n: usize = master.name_to_global_index.len();
    let mut i: usize = 0;
    while i < n
        invariant
            n == master.name_to_global_index@.len(),
            i <= n,
            forall|j: int|
                0 <= j < i ==> (#[trigger] master.name_to_global_index@[j]).global_index
                    != global_index,
        decreases n - i,
    {
        if master.name_to_global_index[i].global_index == global_index {
            assert(master.names(master.name_to_global_index@[i as int].name@, global_index));
            return master.name_to_global_index[i].name.clone();
        }
        i = i + 1;
    }
    let mut label = String::from_str("<unnamed bone #");
    append_decimal(&mut label, global_index as u64);
    label.append(">");
    label
}

// ------------------------------------------------------------------------
// Bind poses
// ------------------------------------------------------------------------

pub open spec fn close(x: Single, y: Single) -> bool {
    x.difference(y).absolute().less(Single { bits: BIND_POSE_TOLERANCE_BITS })
}

/// Every component of one pose is within the tolerance of the other's.
pub open spec fn poses_match(a: JointBindPose, b: JointBindPose) -> bool {
    &&& forall|i: int|
        0 <= i < 3 ==> close(#[trigger] a.translation[i], b.translation[i])
    &&& forall|i: int| 0 <= i < 4 ==> close(#[trigger] a.rotation[i], b.rotation[i])
    &&& forall|i: int| 0 <= i < 3 ==> close(#[trigger] a.scale[i], b.scale[i])
}

fn is_close(x: Single, y: Single) -> (r: bool)
    ensures
        r == close(x, y),
{
    x.minus(y).abs().less_than(Single { bits: BIND_POSE_TOLERANCE_BITS })
}

pub fn bind_poses_match_within_tolerance(a: &JointBindPose, b: &JointBindPose) -> (r: bool)
    ensures
        r == poses_match(*a, *b),
{
    let mut i: usize = 0;
    while i < 3
        invariant
            i <= 3,
            forall|j: int| 0 <= j < i ==> close(#[trigger] a.translation[j], b.translation[j]),
        decreases 3 - i,
    {
        if !is_close(a.translation[i], b.translation[i]) {
            return false;
        }
        i = i + 1;
    }
    let mut i: usize = 0;
    while i < 4
        invariant
            i <= 4,
            forall|j: int| 0 <= j < i ==> close(#[trigger] a.rotation[j], b.rotation[j]),
        decreases 4 - i,
    {
        if !is_close(a.rotation[i], b.rotation[i]) {
            return false;
        }
        i = i + 1;
    }
    let mut i: usize = 0;
    while i < 3
        invariant
            i <= 3,
            forall|j: int| 0 <= j < i ==> close(#[trigger] a.scale[j], b.scale[j]),
        decreases 3 - i,
    {
        if !is_close(a.scale[i], b.scale[i]) {
            return false;
        }
        i = i + 1;
    }
    true
}

// ------------------------------------------------------------------------
// Errors
// ------------------------------------------------------------------------

/// `serde_json::Error`: why JSON data could not be read.
#[verifier::external_type_specification]
#[verifier::external_body]
pub struct ExJsonError(serde_json::Error);

#[derive(Debug)]
pub enum SkeletonError {
    /// The skeleton file could not be read; `reason` tells why.
    Io { path: String, reason: String },
    /// The data is not a flat JSON object of bone names and indices; `reason` tells why.
    /// `source` is missing where a number was too long to be handed to the parser.
    Parse { path: String, source: Option<serde_json::Error>, reason: String },
    /// A part names a bone, as a joint or as a parent, that the master skeleton
    /// does not have.
    UnknownBone { bone_name: String, local_joint_index: usize },
    /// A vertex refers to a joint that its part does not have.
    LocalJointIndexOutOfRange {
        vertex_index: usize,
        local_index: u16,
        local_joint_count: usize,
    },
    /// Two parts disagree about the parent of a bone.
    ParentMismatch {
        bone_name: String,
        existing_parent: Option<String>,
        new_parent: Option<String>,
    },
    /// Two parts disagree about the bind pose of a bone.
    BindPoseMismatch { bone_name: String, existing: JointBindPose, new: JointBindPose },
}

impl SkeletonError {
    pub open spec fn is_unknown_bone(self, name: Seq<char>, index: int) -> bool {
        self matches SkeletonError::UnknownBone { bone_name, local_joint_index } && bone_name@
            == name && local_joint_index == index
    }
}

// ------------------------------------------------------------------------
// Resolving the bones of a part
// ------------------------------------------------------------------------

/// The first of the first `n` names that the master skeleton does not have.
pub open spec fn first_unknown(master: MasterSkeleton, names: Seq<String>, n: int) -> Option<int>
    decreases n,
{
    if n <= 0 {
        None
    } else {
        match first_unknown(master, names, n - 1) {
            Some(i) => Some(i),
            None => if master.index_of(names[n - 1]@) is None {
                Some(n - 1)
            } else {
                None
            },
        }
    }
}

proof fn lemma_first_unknown(master: MasterSkeleton, names: Seq<String>, i: int, n: int)
    requires
        0 <= i <= n,
    ensures
        first_unknown(master, names, i) is Some ==> first_unknown(master, names, n)
            == first_unknown(master, names, i),
        first_unknown(master, names, n) is None ==> first_unknown(master, names, i) is None && (i < n
            ==> master.index_of(names[i]@) is Some),
    decreases n - i,
{
    if i < n {
        lemma_first_unknown(master, names, i, n - 1);
    }
}

/// The global index of every name, or the first name without one.
fn resolve_names(master: &MasterSkeleton, names: &[String]) -> (r: Result<Vec<u32>, SkeletonError>)
    ensures
        match first_unknown(*master, names@, names@.len() as int) {
            Some(i) => r is Err && r->Err_0.is_unknown_bone(names@[i]@, i),
            None => {
                &&& r is Ok
                &&& r->Ok_0@.len() == names@.len()
                &&& forall|i: int|
                    0 <= i < names@.len() ==> master.index_of((#[trigger] names@[i])@) == Some(
                        r->Ok_0@[i],
                    )
            },
        },
{
    let count: usize = names.len();
    let mut table: Vec<u32> = Vec::new();
    let mut i: usize = 0;
    while i < count
        invariant
            i <= count == names@.len(),
            first_unknown(*master, names@, i as int) is None,
            table@.len() == i,
            forall|j: int|
                0 <= j < i ==> master.index_of((#[trigger] names@[j])@) == Some(table@[j]),
        decreases count - i,
    {
        match master.find(&names[i]) {
            Some(index) => {
                table.push(index);
            },
            None => {
                proof {
                    lemma_first_unknown(*master, names@, i + 1, count as int);
                }
                return Err(
                    SkeletonError::UnknownBone {
                        bone_name: names[i].clone(),
                        local_joint_index: i,
                    },
                );
            },
        }
        i = i + 1;
    }
    Ok(table)
}

/// The slot carries weight but refers to a joint that the part does not have.
pub open spec fn is_stray(vertex: SkinnedVertex, slot: int, joint_count: nat) -> bool {
    !vertex.bone_weights[slot].zero() && vertex.bone_indices[slot] >= joint_count
}

/// The first of the first `n` slots that is stray.
pub open spec fn first_stray(vertex: SkinnedVertex, joint_count: nat, n: int) -> Option<int>
    decreases n,
{
    if n <= 0 {
        None
    } else {
        match first_stray(vertex, joint_count, n - 1) {
            Some(slot) => Some(slot),
            None => if is_stray(vertex, n - 1, joint_count) {
                Some(n - 1)
            } else {
                None
            },
        }
    }
}

/// What a slot refers to, once the first `n` slots have been led to the master
/// skeleton. A slot without weight keeps what it has.
pub open spec fn led_slot(
    vertex: SkinnedVertex,
    names: Seq<String>,
    master: MasterSkeleton,
    n: int,
    slot: int,
) -> u16 {
    if slot < n && !vertex.bone_weights[slot].zero() {
        let global = master.index_of(names[vertex.bone_indices[slot] as int]@)->0;
        if global > u16::MAX {
            u16::MAX
        } else {
            global as u16
        }
    } else {
        vertex.bone_indices[slot]
    }
}

/// A vertex with its first `n` slots led to the master skeleton.
pub open spec fn led_vertex(
    vertex: SkinnedVertex,
    names: Seq<String>,
    master: MasterSkeleton,
    n: int,
) -> SkinnedVertex {
    SkinnedVertex {
        bone_indices: [
            led_slot(vertex, names, master, n, 0),
            led_slot(vertex, names, master, n, 1),
            led_slot(vertex, names, master, n, 2),
            led_slot(vertex, names, master, n, 3),
        ],
        ..vertex
    }
}

/// The first of the first `n` vertices with a stray slot.
pub open spec fn first_stray_vertex(vertices: Seq<SkinnedVertex>, joint_count: nat, n: int) -> Option<
    int,
>
    decreases n,
{
    if n <= 0 {
        None
    } else {
        match first_stray_vertex(vertices, joint_count, n - 1) {
            Some(i) => Some(i),
            None => if first_stray(vertices[n - 1], joint_count, 4) is Some {
                Some(n - 1)
            } else {
                None
            },
        }
    }
}

proof fn lemma_first_stray_vertex_stays(
    vertices: Seq<SkinnedVertex>,
    joint_count: nat,
    i: int,
    n: int,
)
    requires
        0 <= i <= n,
        first_stray_vertex(vertices, joint_count, i) is Some,
    ensures
        first_stray_vertex(vertices, joint_count, n) == first_stray_vertex(
            vertices,
            joint_count,
            i,
        ),
    decreases n - i,
{
    if i < n {
        lemma_first_stray_vertex_stays(vertices, joint_count, i, n - 1);
    }
}

proof fn lemma_first_stray_stays(vertex: SkinnedVertex, joint_count: nat, i: int, n: int)
    requires
        0 <= i <= n,
        first_stray(vertex, joint_count, i) is Some,
    ensures
        first_stray(vertex, joint_count, n) == first_stray(vertex, joint_count, i),
    decreases n - i,
{
    if i < n {
        lemma_first_stray_stays(vertex, joint_count, i, n - 1);
    }
}

/// The vertices once everything before slot `slot` of vertex `at` has been led to the
/// master skeleton.
pub open spec fn led_until(
    vertices: Seq<SkinnedVertex>,
    names: Seq<String>,
    master: MasterSkeleton,
    at: int,
    slot: int,
) -> Seq<SkinnedVertex> {
    Seq::new(
        vertices.len(),
        |i: int|
            if i < at {
                led_vertex(vertices[i], names, master, 4)
            } else if i == at {
                led_vertex(vertices[i], names, master, slot)
            } else {
                vertices[i]
            },
    )
}

/// Leads the joint indices of the vertices from the part's own joints, which
/// `local_bone_names` names, to the master skeleton. Every name of the part must be
/// known, used or not.
///
/// After [`SkeletonError::LocalJointIndexOutOfRange`], what comes before the stray
/// slot has been led over, and the rest is as it was.
pub fn resolve_bone_indices(
    vertices: &mut [SkinnedVertex],
    local_bone_names: &[String],
    master: &MasterSkeleton,
) -> (r: Result<(), SkeletonError>)
    ensures
        final(vertices)@.len() == old(vertices)@.len(),
        match first_unknown(*master, local_bone_names@, local_bone_names@.len() as int) {
            Some(i) => {
                &&& r is Err
                &&& r->Err_0.is_unknown_bone(local_bone_names@[i]@, i)
                &&& final(vertices)@ == old(vertices)@
            },
            None => match first_stray_vertex(
                old(vertices)@,
                local_bone_names@.len(),
                old(vertices)@.len() as int,
            ) {
                Some(i) => {
                    let slot = first_stray(old(vertices)@[i], local_bone_names@.len(), 4)->0;
                    &&& r == Err::<(), SkeletonError>(
                        SkeletonError::LocalJointIndexOutOfRange {
                            vertex_index: i as usize,
                            local_index: old(vertices)@[i].bone_indices[slot],
                            local_joint_count: local_bone_names@.len() as usize,
                        },
                    )
                    &&& final(vertices)@ == led_until(
                        old(vertices)@,
                        local_bone_names@,
                        *master,
                        i,
                        slot,
                    )
                },
                None => {
                    &&& r is Ok
                    &&& final(vertices)@ == old(vertices)@.map_values(
                        |v: SkinnedVertex| led_vertex(v, local_bone_names@, *master, 4),
                    )
                },
            },
        },
        r is Ok ==> forall|i: int, slot: int|
            0 <= i < old(vertices)@.len() && 0 <= slot < 4 ==> is_led_over(
                old(vertices)@[i],
                local_bone_names@,
                *master,
                slot,
                #[trigger] final(vertices)@[i].bone_indices[slot],
            ),
        forall|i: int|
            0 <= i < old(vertices)@.len() ==> (#[trigger] final(vertices)@[i]) == (SkinnedVertex {
                bone_indices: final(vertices)@[i].bone_indices,
                ..old(vertices)@[i]
            }),
{
    let table = match resolve_names(master, local_bone_names) {
        Ok(table) => table,
        Err(e) => {
            return Err(e);
        },
    };
    let joint_count: usize = local_bone_names.len();
    let count: usize = vertices.len();
    let ghost before = vertices@;
    let ghost names = local_bone_names@;
    let mut k: usize = 0;
    assert(led_until(before, names, *master, 0, 0) =~= before) by {
        assert forall|i: int| 0 <= i < before.len() implies #[trigger] led_until(
            before,
            names,
            *master,
            0,
            0,
        )[i] == before[i] by {
            assert(led_vertex(before[i], names, *master, 0).bone_indices
                =~= before[i].bone_indices);
        }
    }
    while k < count
        invariant
            k <= count == vertices@.len() == before.len(),
            before == old(vertices)@,
            names == local_bone_names@,
            joint_count == names.len(),
            table@.len() == names.len(),
            first_unknown(*master, names, names.len() as int) is None,
            forall|i: int|
                0 <= i < names.len() ==> master.index_of((#[trigger] names[i])@) == Some(table@[i]),
            first_stray_vertex(before, joint_count as nat, k as int) is None,
            vertices@ == led_until(before, names, *master, k as int, 0),
        decreases count - k,
    {
        let mut slot: usize = 0;
        let ghost vertex = before[k as int];
        while slot < 4
            invariant
                slot <= 4,
                k < count == vertices@.len() == before.len(),
                before == old(vertices)@,
                names == local_bone_names@,
                vertex == before[k as int],
                joint_count == names.len(),
                table@.len() == names.len(),
                first_unknown(*master, names, names.len() as int) is None,
                forall|i: int|
                    0 <= i < names.len() ==> master.index_of((#[trigger] names[i])@) == Some(
                        table@[i],
                    ),
                first_stray_vertex(before, joint_count as nat, k as int) is None,
                first_stray(vertex, joint_count as nat, slot as int) is None,
                vertices@ == led_until(before, names, *master, k as int, slot as int),
            decreases 4 - slot,
        {
            let here = vertices[k];
            assert(here == led_vertex(vertex, names, *master, slot as int));
            assert(slot == 0 || slot == 1 || slot == 2 || slot == 3);
            let local_index: u16 = here.bone_indices[slot];
            assert(local_index == vertex.bone_indices[slot as int]);
            assert(here.bone_weights == vertex.bone_weights);
            if !here.bone_weights[slot].is_zero() {
                if local_index as u64 >= joint_count as u64 {
                    proof {
                        lemma_first_stray_stays(vertex, joint_count as nat, slot + 1, 4);
                        lemma_first_stray_vertex_stays(
                            before,
                            joint_count as nat,
                            k + 1,
                            count as int,
                        );
                    }
                    return Err(
                        SkeletonError::LocalJointIndexOutOfRange {
                            vertex_index: k,
                            local_index,
                            local_joint_count: joint_count,
                        },
                    );
                }
                let global: u32 = table[local_index as usize];
                assert(master.index_of(names[local_index as int]@) == Some(global));
                let led: u16 = if global > 65535 {
                    65535
                } else {
                    global as u16
                };
                let mut changed = here;
                changed.bone_indices[slot] = led;
                vertices[k] = changed;
                assert(changed.bone_indices =~= led_vertex(
                    vertex,
                    names,
                    *master,
                    slot + 1,
                ).bone_indices);
            } else {
                assert(here.bone_indices =~= led_vertex(
                    vertex,
                    names,
                    *master,
                    slot + 1,
                ).bone_indices);
            }
            assert(vertices@ =~= led_until(before, names, *master, k as int, slot + 1));
            slot = slot + 1;
        }
        k = k + 1;
        assert(vertices@ =~= led_until(before, names, *master, k as int, 0)) by {
            assert forall|i: int| 0 <= i < count implies vertices@[i] == #[trigger] led_until(
                before,
                names,
                *master,
                k as int,
                0,
            )[i] by {
                if i == k {
                    assert(led_vertex(before[i], names, *master, 0).bone_indices
                        =~= before[i].bone_indices);
                }
            }
        }
    }
    assert(vertices@ =~= before.map_values(
        |v: SkinnedVertex| led_vertex(v, local_bone_names@, *master, 4),
    ));
    proof {
        law_no_stray_vertex(before, names.len(), count as int);
        assert forall|i: int, slot: int| 0 <= i < before.len() && 0 <= slot < 4 implies is_led_over(
            before[i],
            names,
            *master,
            slot,
            #[trigger] vertices@[i].bone_indices[slot],
        ) by {
            assert(vertices@[i] == led_vertex(before[i], names, *master, 4));
            if !before[i].bone_weights[slot].zero() {
                let own = before[i].bone_indices[slot] as int;
                assert(before[i].bone_indices[slot] < names.len());
                assert(master.index_of(names[own]@) == Some(table@[own]));
            }
            law_slot_is_led_over(before[i], names, *master, slot);
        }
    }
    Ok(())
}

/// `now` is what a slot of a vertex has come to refer to: the bone that the part's own
/// joint is named after (or the largest index that fits, where its index does not), if the
/// slot carries weight, and otherwise what it referred to.
pub open spec fn is_led_over(
    vertex: SkinnedVertex,
    names: Seq<String>,
    master: MasterSkeleton,
    slot: int,
    now: u16,
) -> bool {
    let own = vertex.bone_indices[slot] as int;
    if vertex.bone_weights[slot].zero() {
        now == vertex.bone_indices[slot]
    } else {
        &&& own < names.len()
        &&& master.index_of(names[own]@) matches Some(global)
        &&& now == global || (global > u16::MAX && now == u16::MAX)
    }
}

/// Every slot of a vertex is led over by itself: what it comes to refer to follows from
/// its own weight and its own joint.
pub proof fn law_slot_is_led_over(
    vertex: SkinnedVertex,
    names: Seq<String>,
    master: MasterSkeleton,
    slot: int,
)
    requires
        0 <= slot < 4,
        !vertex.bone_weights[slot].zero() ==> vertex.bone_indices[slot] < names.len(),
        !vertex.bone_weights[slot].zero() ==> master.index_of(
            names[vertex.bone_indices[slot] as int]@,
        ) is Some,
    ensures
        is_led_over(
            vertex,
            names,
            master,
            slot,
            led_vertex(vertex, names, master, 4).bone_indices[slot],
        ),
{
    assert(slot == 0 || slot == 1 || slot == 2 || slot == 3);
}

/// No vertex is at fault if and only if no slot that carries weight refers to a joint
/// that the part does not have. Otherwise the first such vertex is found.
pub proof fn law_no_stray_vertex(vertices: Seq<SkinnedVertex>, joint_count: nat, n: int)
    requires
        0 <= n <= vertices.len(),
    ensures
        first_stray_vertex(vertices, joint_count, n) is None <==> forall|i: int, slot: int|
            0 <= i < n && 0 <= slot < 4 && !vertices[i].bone_weights[slot].zero()
                ==> #[trigger] vertices[i].bone_indices[slot] < joint_count,
        first_stray_vertex(vertices, joint_count, n) matches Some(at) ==> {
            &&& 0 <= at < n
            &&& exists|slot: int|
                0 <= slot < 4 && !vertices[at].bone_weights[slot].zero()
                    && #[trigger] vertices[at].bone_indices[slot] >= joint_count
            &&& forall|i: int, slot: int|
                0 <= i < at && 0 <= slot < 4 && !vertices[i].bone_weights[slot].zero()
                    ==> #[trigger] vertices[i].bone_indices[slot] < joint_count
        },
    decreases n,
{
    if n > 0 {
        law_no_stray_vertex(vertices, joint_count, n - 1);
        law_first_stray(vertices[n - 1], joint_count, 4);
    }
}

/// Among the slots of a vertex, the first one at fault is found.
pub proof fn law_first_stray(vertex: SkinnedVertex, joint_count: nat, n: int)
    requires
        0 <= n <= 4,
    ensures
        first_stray(vertex, joint_count, n) is None <==> forall|slot: int|
            0 <= slot < n && !vertex.bone_weights[slot].zero() ==> #[trigger] vertex.bone_indices[slot]
                < joint_count,
        first_stray(vertex, joint_count, n) matches Some(at) ==> {
            &&& 0 <= at < n
            &&& !vertex.bone_weights[at].zero()
            &&& vertex.bone_indices[at] >= joint_count
            &&& forall|slot: int|
                0 <= slot < at && !vertex.bone_weights[slot].zero()
                    ==> #[trigger] vertex.bone_indices[slot] < joint_count
        },
    decreases n,
{
    if n > 0 {
        law_first_stray(vertex, joint_count, n - 1);
    }
}

/// The names of a part are all known, or the first one that is not is found.
pub proof fn law_first_unknown(master: MasterSkeleton, names: Seq<String>, n: int)
    requires
        0 <= n <= names.len(),
    ensures
        first_unknown(master, names, n) is None <==> forall|i: int|
            0 <= i < n ==> master.index_of((#[trigger] names[i])@) is Some,
        first_unknown(master, names, n) matches Some(at) ==> {
            &&& 0 <= at < n
            &&& master.index_of(names[at]@) is None
            &&& forall|i: int| 0 <= i < at ==> master.index_of((#[trigger] names[i])@) is Some
        },
    decreases n,
{
    if n > 0 {
        law_first_unknown(master, names, n - 1);
    }
}

/// Every parent can be found, or the first joint whose parent cannot is found: one that
/// the part does not have, or that the master skeleton does not name.
pub proof fn law_first_lost_parent(
    master: MasterSkeleton,
    names: Seq<String>,
    parents: Seq<Option<u32>>,
    n: int,
)
    requires
        0 <= n <= parents.len(),
    ensures
        first_lost_parent(master, names, parents, n) is None <==> forall|i: int|
            0 <= i < n && (#[trigger] parents[i]) is Some ==> parents[i]->0 < names.len()
                && master.index_of(names[parents[i]->0 as int]@) is Some,
        first_lost_parent(master, names, parents, n) matches Some(at) ==> {
            &&& 0 <= at < n
            &&& parents[at] is Some
            &&& parents[at]->0 >= names.len() || master.index_of(names[parents[at]->0 as int]@) is None
            &&& forall|i: int|
                0 <= i < at && (#[trigger] parents[i]) is Some ==> parents[i]->0 < names.len()
                    && master.index_of(names[parents[i]->0 as int]@) is Some
        },
    decreases n,
{
    if n > 0 {
        law_first_lost_parent(master, names, parents, n - 1);
    }
}

/// Everything of a vertex but its joint indices is kept.
pub proof fn law_resolving_keeps_the_rest(
    vertex: SkinnedVertex,
    names: Seq<String>,
    master: MasterSkeleton,
    n: int,
)
    ensures
        led_vertex(vertex, names, master, n) == (SkinnedVertex {
            bone_indices: led_vertex(vertex, names, master, n).bone_indices,
            ..vertex
        }),
{
}

/// A slot that carries weight comes to refer to the bone that the part's own joint
/// is named after, as long as a `u16` can hold its index.
pub proof fn law_resolved_slot_is_the_named_bone(
    vertex: SkinnedVertex,
    names: Seq<String>,
    master: MasterSkeleton,
    slot: int,
)
    requires
        0 <= slot < 4,
        !vertex.bone_weights[slot].zero(),
        master.index_of(names[vertex.bone_indices[slot] as int]@) is Some,
        master.index_of(names[vertex.bone_indices[slot] as int]@)->0 <= u16::MAX,
    ensures
        master.index_of(names[vertex.bone_indices[slot] as int]@) == Some(
            led_vertex(vertex, names, master, 4).bone_indices[slot] as u32,
        ),
{
    assert(slot == 0 || slot == 1 || slot == 2 || slot == 3);
}

// ------------------------------------------------------------------------
// Contributing the joints of a part
// ------------------------------------------------------------------------

/// What stands for the name of a parent that the part does not have.
pub open spec fn missing_parent_text(parent: u32, joint_count: nat) -> Seq<char> {
    "<internal error: parent local joint index "@ + text::decimal(parent as nat)
        + " is out of range for this part's "@ + text::decimal(joint_count) + " joints>"@
}

/// The name of a joint's parent that cannot be found: not in the part, or not in the
/// master skeleton.
pub open spec fn parent_fault(
    master: MasterSkeleton,
    names: Seq<String>,
    parent: Option<u32>,
) -> Option<Seq<char>> {
    match parent {
        None => None,
        Some(p) => if p >= names.len() {
            Some(missing_parent_text(p, names.len()))
        } else if master.index_of(names[p as int]@) is None {
            Some(names[p as int]@)
        } else {
            None
        },
    }
}

/// The first of the first `n` joints whose parent cannot be found.
pub open spec fn first_lost_parent(
    master: MasterSkeleton,
    names: Seq<String>,
    parents: Seq<Option<u32>>,
    n: int,
) -> Option<int>
    decreases n,
{
    if n <= 0 {
        None
    } else {
        match first_lost_parent(master, names, parents, n - 1) {
            Some(i) => Some(i),
            None => if parent_fault(master, names, parents[n - 1]) is Some {
                Some(n - 1)
            } else {
                None
            },
        }
    }
}

proof fn lemma_first_lost_parent(
    master: MasterSkeleton,
    names: Seq<String>,
    parents: Seq<Option<u32>>,
    i: int,
    n: int,
)
    requires
        0 <= i <= n,
        first_lost_parent(master, names, parents, i) is Some,
    ensures
        first_lost_parent(master, names, parents, n) == first_lost_parent(
            master,
            names,
            parents,
            i,
        ),
    decreases n - i,
{
    if i < n {
        lemma_first_lost_parent(master, names, parents, i, n - 1);
    }
}

/// The global index of a joint's parent.
pub open spec fn global_parent(
    master: MasterSkeleton,
    names: Seq<String>,
    parent: Option<u32>,
) -> Option<u32> {
    match parent {
        None => None,
        Some(p) => master.index_of(names[p as int]@),
    }
}

/// What one part says of its joints: their names, parents and bind poses.
pub struct PartJoints {
    pub names: Seq<String>,
    pub parents: Seq<Option<u32>>,
    pub poses: Seq<JointBindPose>,
}

impl PartJoints {
    /// The global index of joint `i`.
    pub open spec fn index(self, master: MasterSkeleton, i: int) -> int {
        master.index_of(self.names[i]@)->0 as int
    }

    /// What the part says of joint `i`.
    pub open spec fn claim(self, master: MasterSkeleton, i: int) -> GlobalJoint {
        GlobalJoint {
            parent: global_parent(master, self.names, self.parents[i]),
            bind_pose: self.poses[i],
        }
    }

    /// The global joints once the first `n` joints have been taken in: a joint is
    /// recorded where nothing was, and leaves alone what was there.
    pub open spec fn recorded(self, master: MasterSkeleton, n: int) -> Seq<Option<GlobalJoint>>
        decreases n,
    {
        if n <= 0 {
            master.global_joints@
        } else {
            let before = self.recorded(master, n - 1);
            let at = self.index(master, n - 1);
            if at < before.len() && before[at] is None {
                before.update(at, Some(self.claim(master, n - 1)))
            } else {
                before
            }
        }
    }

    /// The master skeleton names the bone of joint `i`, but has no place for it.
    pub open spec fn no_place(self, master: MasterSkeleton, i: int) -> bool {
        self.index(master, i) >= master.global_joints@.len()
    }

    /// Joint `i` has another parent than what is recorded of the bone.
    pub open spec fn other_parent(self, master: MasterSkeleton, i: int) -> bool {
        &&& !self.no_place(master, i)
        &&& self.recorded(master, i)[self.index(master, i)] matches Some(existing)
        &&& existing.parent != self.claim(master, i).parent
    }

    /// Joint `i` has another bind pose than what is recorded of the bone.
    pub open spec fn other_pose(self, master: MasterSkeleton, i: int) -> bool {
        &&& !self.no_place(master, i)
        &&& self.recorded(master, i)[self.index(master, i)] matches Some(existing)
        &&& !poses_match(existing.bind_pose, self.claim(master, i).bind_pose)
    }

    /// The first of the first `n` joints that cannot be taken in: there is no place for
    /// it, or it contradicts what is recorded.
    pub open spec fn first_conflict(self, master: MasterSkeleton, n: int) -> Option<int>
        decreases n,
    {
        if n <= 0 {
            None
        } else {
            match self.first_conflict(master, n - 1) {
                Some(i) => Some(i),
                None => if self.no_place(master, n - 1) || self.other_parent(master, n - 1)
                    || self.other_pose(master, n - 1) {
                    Some(n - 1)
                } else {
                    None
                },
            }
        }
    }

    /// The part gives a parent and a pose for joint `i`.
    pub open spec fn is_described(self, i: int) -> bool {
        i < self.parents.len() && i < self.poses.len()
    }

    /// Every joint is described, up to the first conflict.
    pub open spec fn all_described(self, master: MasterSkeleton) -> bool {
        forall|i: int|
            0 <= i < self.names.len() && self.first_conflict(master, i) is None
                ==> #[trigger] self.is_described(i)
    }
}

proof fn lemma_first_conflict_stays(part: PartJoints, master: MasterSkeleton, i: int, n: int)
    requires
        0 <= i <= n,
        part.first_conflict(master, i) is Some,
    ensures
        part.first_conflict(master, n) == part.first_conflict(master, i),
    decreases n - i,
{
    if i < n {
        lemma_first_conflict_stays(part, master, i, n - 1);
    }
}

/// A label for a parent, or none for the root.
pub open spec fn is_parent_label(
    master: MasterSkeleton,
    label: Option<String>,
    parent: Option<u32>,
) -> bool {
    match parent {
        None => label is None,
        Some(g) => label is Some && master.is_label(label->0@, g),
    }
}

/// The error of joint `i`, which cannot be taken in.
pub open spec fn is_conflict(
    e: SkeletonError,
    part: PartJoints,
    master: MasterSkeleton,
    i: int,
) -> bool {
    let existing = part.recorded(master, i)[part.index(master, i)]->0;
    let claim = part.claim(master, i);
    if part.no_place(master, i) {
        e.is_unknown_bone(part.names[i]@, i)
    } else if part.other_parent(master, i) {
        e matches SkeletonError::ParentMismatch { bone_name, existing_parent, new_parent }
            && bone_name@ == part.names[i]@ && is_parent_label(
            master,
            existing_parent,
            existing.parent,
        ) && is_parent_label(master, new_parent, claim.parent)
    } else {
        e matches SkeletonError::BindPoseMismatch { bone_name, existing: had, new } && bone_name@
            == part.names[i]@ && had == existing.bind_pose && new == claim.bind_pose
    }
}

fn parent_label(master: &MasterSkeleton, parent: Option<u32>) -> (r: Option<String>)
    ensures
        is_parent_label(*master, r, parent),
{
    match parent {
        None => None,
        Some(g) => Some(bone_name_for_global_index(master, g)),
    }
}

/// The global index of every parent, or the first one that cannot be found.
fn resolve_parents(
    master: &MasterSkeleton,
    names: &[String],
    table: &Vec<u32>,
    parents: &[Option<u32>],
) -> (r: Result<Vec<Option<u32>>, SkeletonError>)
    requires
        table@.len() == names@.len(),
        forall|i: int|
            0 <= i < names@.len() ==> master.index_of((#[trigger] names@[i])@) == Some(table@[i]),
    ensures
        match first_lost_parent(*master, names@, parents@, parents@.len() as int) {
            Some(i) => r is Err && r->Err_0.is_unknown_bone(
                parent_fault(*master, names@, parents@[i])->0,
                i,
            ),
            None => {
                &&& r is Ok
                &&& r->Ok_0@.len() == parents@.len()
                &&& forall|i: int|
                    0 <= i < parents@.len() ==> #[trigger] r->Ok_0@[i] == global_parent(
                        *master,
                        names@,
                        parents@[i],
                    )
            },
        },
{
    let count: usize = parents.len();
    let joint_count: usize = names.len();
    let mut resolved: Vec<Option<u32>> = Vec::new();
    let mut i: usize = 0;
    while i < count
        invariant
            i <= count == parents@.len(),
            joint_count == names@.len(),
            table@.len() == names@.len(),
            forall|i: int|
                0 <= i < names@.len() ==> master.index_of((#[trigger] names@[i])@) == Some(
                    table@[i],
                ),
            first_lost_parent(*master, names@, parents@, i as int) is None,
            resolved@.len() == i,
            forall|j: int|
                0 <= j < i ==> #[trigger] resolved@[j] == global_parent(
                    *master,
                    names@,
                    parents@[j],
                ),
        decreases count - i,
    {
        match parents[i] {
            None => {
                resolved.push(None);
            },
            Some(p) => {
                if p as u64 >= joint_count as u64 {
                    let mut text = String::from_str("<internal error: parent local joint index ");
                    append_decimal(&mut text, p as u64);
                    text.append(" is out of range for this part's ");
                    append_decimal(&mut text, joint_count as u64);
                    text.append(" joints>");
                    proof {
                        lemma_first_lost_parent(*master, names@, parents@, i + 1, count as int);
                    }
                    return Err(
                        SkeletonError::UnknownBone { bone_name: text, local_joint_index: i },
                    );
                }
                assert(master.index_of(names@[p as int]@) == Some(table@[p as int]));
                resolved.push(Some(table[p as usize]));
            },
        }
        i = i + 1;
    }
    Ok(resolved)
}

/// Takes the joints of one part into the master skeleton. The first part to name a
/// bone settles its parent and its bind pose; every later one must agree, on the
/// parent exactly and on the bind pose within the tolerance.
///
/// Nothing is recorded where a name is unknown. A bone whose global index has no place
/// in the skeleton counts as unknown too, but only when its turn comes: then, as after
/// a conflict, the joints before it have been recorded.
pub fn contribute_global_joints(
    master: &mut MasterSkeleton,
    local_bone_names: &[String],
    local_joint_parents: &[Option<u32>],
    local_joint_bind_poses: &[JointBindPose],
) -> (r: Result<(), SkeletonError>)
    requires
        ({
            let part = PartJoints {
                names: local_bone_names@,
                parents: local_joint_parents@,
                poses: local_joint_bind_poses@,
            };
            first_unknown(*old(master), part.names, part.names.len() as int) is None
                && first_lost_parent(
                *old(master),
                part.names,
                part.parents,
                part.parents.len() as int,
            ) is None ==> part.all_described(*old(master))
        }),
    ensures
        final(master).name_to_global_index@ == old(master).name_to_global_index@,
        ({
            let part = PartJoints {
                names: local_bone_names@,
                parents: local_joint_parents@,
                poses: local_joint_bind_poses@,
            };
            let n = part.names.len() as int;
            match first_unknown(*old(master), part.names, n) {
                Some(i) => {
                    &&& r is Err
                    &&& r->Err_0.is_unknown_bone(part.names[i]@, i)
                    &&& final(master).global_joints@ == old(master).global_joints@
                },
                None => match first_lost_parent(
                    *old(master),
                    part.names,
                    part.parents,
                    part.parents.len() as int,
                ) {
                    Some(i) => {
                        &&& r is Err
                        &&& r->Err_0.is_unknown_bone(
                            parent_fault(*old(master), part.names, part.parents[i])->0,
                            i,
                        )
                        &&& final(master).global_joints@ == old(master).global_joints@
                    },
                    None => match part.first_conflict(*old(master), n) {
                        Some(i) => {
                            &&& r is Err
                            &&& is_conflict(r->Err_0, part, *old(master), i)
                            &&& final(master).global_joints@ == part.recorded(*old(master), i)
                        },
                        None => {
                            &&& r is Ok
                            &&& final(master).global_joints@ == part.recorded(*old(master), n)
                        },
                    },
                },
            }
        }),
        r is Ok ==> forall|i: int|
            0 <= i < local_bone_names@.len() ==> {
                let at = old(master).index_of((#[trigger] local_bone_names@[i])@)->0 as int;
                &&& old(master).index_of(local_bone_names@[i]@) is Some
                &&& 0 <= at < final(master).global_joints@.len()
                &&& final(master).global_joints@[at] is Some
                &&& final(master).global_joints@[at]->0.parent == match local_joint_parents@[i] {
                    None => None,
                    Some(p) => old(master).index_of(local_bone_names@[p as int]@),
                }
            },
{
    let table = match resolve_names(master, local_bone_names) {
        Ok(table) => table,
        Err(e) => {
            return Err(e);
        },
    };
    let parents = match resolve_parents(master, local_bone_names, &table, local_joint_parents) {
        Ok(parents) => parents,
        Err(e) => {
            return Err(e);
        },
    };
    let ghost start = *master;
    let ghost part = PartJoints {
        names: local_bone_names@,
        parents: local_joint_parents@,
        poses: local_joint_bind_poses@,
    };
    let count: usize = local_bone_names.len();
    let mut i: usize = 0;
    while i < count
        invariant
            i <= count == local_bone_names@.len(),
            start == *old(master),
            part.names == local_bone_names@,
            part.parents == local_joint_parents@,
            part.poses == local_joint_bind_poses@,
            part.all_described(start),
            first_unknown(start, part.names, part.names.len() as int) is None,
            first_lost_parent(start, part.names, part.parents, part.parents.len() as int) is None,
            table@.len() == count,
            parents@.len() == part.parents.len(),
            forall|j: int|
                0 <= j < count ==> start.index_of((#[trigger] part.names[j])@) == Some(table@[j]),
            forall|j: int|
                0 <= j < part.parents.len() ==> #[trigger] parents@[j] == global_parent(
                    start,
                    part.names,
                    part.parents[j],
                ),
            master.name_to_global_index@ == start.name_to_global_index@,
            master.global_joints@ == part.recorded(start, i as int),
            master.global_joints@.len() == start.global_joints@.len(),
            part.first_conflict(start, i as int) is None,
        decreases count - i,
    {
        assert(part.is_described(i as int));
        assert(start.index_of(part.names[i as int]@) == Some(table@[i as int]));
        let global_index: u32 = table[i];
        if global_index as u64 >= master.global_joints.len() as u64 {
            proof {
                lemma_first_conflict_stays(part, start, i + 1, count as int);
            }
            return Err(
                SkeletonError::UnknownBone {
                    bone_name: local_bone_names[i].clone(),
                    local_joint_index: i,
                },
            );
        }
        let parent = parents[i];
        let bind_pose = local_joint_bind_poses[i];
        let ghost claim = part.claim(start, i as int);
        assert(claim.parent == parent && claim.bind_pose == bind_pose);
        match master.global_joints[global_index as usize] {
            None => {
                master.global_joints[global_index as usize] = Some(
                    GlobalJoint { parent, bind_pose },
                );
            },
            Some(existing) => {
                let same_parent: bool = match (existing.parent, parent) {
                    (None, None) => true,
                    (Some(a), Some(b)) => a == b,
                    _ => false,
                };
                if !same_parent {
                    let existing_parent = parent_label(master, existing.parent);
                    let new_parent = parent_label(master, parent);
                    proof {
                        lemma_first_conflict_stays(part, start, i + 1, count as int);
                        lemma_labels_by_names_only(*master, start);
                    }
                    return Err(
                        SkeletonError::ParentMismatch {
                            bone_name: local_bone_names[i].clone(),
                            existing_parent,
                            new_parent,
                        },
                    );
                }
                if !bind_poses_match_within_tolerance(&existing.bind_pose, &bind_pose) {
                    proof {
                        lemma_first_conflict_stays(part, start, i + 1, count as int);
                    }
                    return Err(
                        SkeletonError::BindPoseMismatch {
                            bone_name: local_bone_names[i].clone(),
                            existing: existing.bind_pose,
                            new: bind_pose,
                        },
                    );
                }
            },
        }
        i = i + 1;
    }
    proof {
        assert forall|j: int| 0 <= j < local_bone_names@.len() implies ({
            let at = start.index_of((#[trigger] local_bone_names@[j])@)->0 as int;
            &&& start.index_of(local_bone_names@[j]@) is Some
            &&& 0 <= at < master.global_joints@.len()
            &&& master.global_joints@[at] is Some
            &&& master.global_joints@[at]->0.parent == match local_joint_parents@[j] {
                None => None,
                Some(p) => start.index_of(local_bone_names@[p as int]@),
            }
        }) by {
            assert(start.index_of(part.names[j]@) == Some(table@[j]));
            law_contributed_parent_is_the_named_bone(part, start, count as int, j);
        }
    }
    Ok(())
}

/// Labels depend on the names alone.
proof fn lemma_labels_by_names_only(a: MasterSkeleton, b: MasterSkeleton)
    requires
        a.name_to_global_index@ == b.name_to_global_index@,
    ensures
        forall|label: Option<String>, parent: Option<u32>|
            is_parent_label(a, label, parent) ==> #[trigger] is_parent_label(b, label, parent),
{
    assert forall|label: Option<String>, parent: Option<u32>| is_parent_label(
        a,
        label,
        parent,
    ) implies #[trigger] is_parent_label(b, label, parent) by {
        if let Some(g) = parent {
            let said = label->0@;
            assert(a.names(said, g) == b.names(said, g));
            if exists|name: Seq<char>| #[trigger] a.names(name, g) {
                let name = choose|name: Seq<char>| #[trigger] a.names(name, g);
                assert(b.names(name, g));
            } else {
                assert forall|name: Seq<char>| !#[trigger] b.names(name, g) by {
                    assert(!a.names(name, g));
                }
            }
        }
    }
}

// ------------------------------------------------------------------------
// What holds of contributions
// ------------------------------------------------------------------------

proof fn lemma_recorded_grows(part: PartJoints, master: MasterSkeleton, i: int, n: int, g: int)
    requires
        0 <= i <= n,
        0 <= g < master.global_joints@.len(),
        part.recorded(master, i)[g] is Some,
    ensures
        part.recorded(master, n)[g] == part.recorded(master, i)[g],
        part.recorded(master, n).len() == master.global_joints@.len(),
    decreases n,
{
    if n > 0 {
        lemma_recorded_len(part, master, n - 1);
    }
    if i < n {
        lemma_recorded_grows(part, master, i, n - 1, g);
    }
    lemma_recorded_len(part, master, n);
}

proof fn lemma_recorded_len(part: PartJoints, master: MasterSkeleton, n: int)
    requires
        0 <= n,
    ensures
        part.recorded(master, n).len() == master.global_joints@.len(),
    decreases n,
{
    if n > 0 {
        lemma_recorded_len(part, master, n - 1);
    }
}

/// What is recorded of a bone is never disturbed by a later contribution.
pub proof fn law_contribution_keeps_recorded_joints(
    part: PartJoints,
    master: MasterSkeleton,
    n: int,
    g: int,
)
    requires
        0 <= n <= part.names.len(),
        0 <= g < master.global_joints@.len(),
        master.global_joints@[g] is Some,
    ensures
        part.recorded(master, n)[g] == master.global_joints@[g],
{
    lemma_recorded_grows(part, master, 0, n, g);
}

/// A bone that the part does not name stays as it was: uncontributed, if nothing was
/// recorded of it.
pub proof fn law_contribution_leaves_other_bones_alone(
    part: PartJoints,
    master: MasterSkeleton,
    n: int,
    g: int,
)
    requires
        0 <= n <= part.names.len(),
        0 <= g < master.global_joints@.len(),
        forall|i: int| 0 <= i < n ==> #[trigger] part.index(master, i) != g,
    ensures
        part.recorded(master, n)[g] == master.global_joints@[g],
    decreases n,
{
    if n > 0 {
        law_contribution_leaves_other_bones_alone(part, master, n - 1, g);
        lemma_recorded_len(part, master, n - 1);
        assert(part.index(master, n - 1) != g);
    }
}

/// After a contribution without conflict, every joint of the part is recorded, with
/// the parent that the part gives it and a bind pose within the tolerance.
pub proof fn law_contributed_joints_are_recorded(
    part: PartJoints,
    master: MasterSkeleton,
    n: int,
    i: int,
)
    requires
        0 <= i < n <= part.names.len(),
        part.all_described(master),
        part.first_conflict(master, n) is None,
        part.finite_poses(),
    ensures
        ({
            let joint = part.recorded(master, n)[part.index(master, i)];
            &&& joint is Some
            &&& joint->0.parent == part.claim(master, i).parent
            &&& poses_match(joint->0.bind_pose, part.claim(master, i).bind_pose)
        }),
    decreases n,
{
    lemma_no_conflict(part, master, i, n);
    assert(part.is_described(i));
    let g = part.index(master, i);
    lemma_recorded_len(part, master, i);
    if part.recorded(master, i)[g] is None {
        assert(part.recorded(master, i + 1)[g] == Some(part.claim(master, i)));
        lemma_pose_matches_itself(part.poses[i]);
    }
    assert(part.recorded(master, i + 1)[g] is Some);
    lemma_recorded_grows(part, master, i + 1, n, g);
}

/// After a contribution without conflict, the bone of every joint of the part has the
/// parent that the part says: none for a root, and otherwise the bone that the master
/// skeleton has under the name of the parent's own joint.
pub proof fn law_contributed_parent_is_the_named_bone(
    part: PartJoints,
    master: MasterSkeleton,
    n: int,
    i: int,
)
    requires
        0 <= i < n <= part.names.len(),
        part.all_described(master),
        part.first_conflict(master, n) is None,
        master.index_of(part.names[i]@) is Some,
    ensures
        ({
            let at = master.index_of(part.names[i]@)->0 as int;
            &&& 0 <= at < part.recorded(master, n).len()
            &&& part.recorded(master, n)[at] is Some
            &&& part.parents[i] is None ==> part.recorded(master, n)[at]->0.parent is None
            &&& part.parents[i] matches Some(p) ==> part.recorded(master, n)[at]->0.parent
                == master.index_of(part.names[p as int]@)
        }),
{
    lemma_no_conflict(part, master, i, n);
    assert(part.is_described(i));
    let g = part.index(master, i);
    lemma_recorded_len(part, master, i);
    if part.recorded(master, i)[g] is None {
        assert(part.recorded(master, i + 1)[g] == Some(part.claim(master, i)));
    }
    assert(part.recorded(master, i + 1)[g] is Some);
    lemma_recorded_grows(part, master, i + 1, n, g);
}

/// The first joint to speak of a bone settles it: what is recorded then is that joint's
/// own bind pose, number for number, and the bone that its parent's joint is named after.
pub proof fn law_first_contribution_settles_the_bone(
    part: PartJoints,
    master: MasterSkeleton,
    n: int,
    i: int,
)
    requires
        0 <= i < n <= part.names.len(),
        part.first_conflict(master, n) is None,
        master.index_of(part.names[i]@) is Some,
        master.global_joints@[master.index_of(part.names[i]@)->0 as int] is None,
        forall|j: int|
            0 <= j < i ==> master.index_of((#[trigger] part.names[j])@) != master.index_of(
                part.names[i]@,
            ) && master.index_of(part.names[j]@) is Some,
    ensures
        ({
            let joint = part.recorded(master, n)[master.index_of(part.names[i]@)->0 as int];
            &&& joint is Some
            &&& joint->0.bind_pose == part.poses[i]
            &&& part.parents[i] is None ==> joint->0.parent is None
            &&& part.parents[i] matches Some(p) ==> joint->0.parent == master.index_of(
                part.names[p as int]@,
            )
        }),
{
    lemma_no_conflict(part, master, i, n);
    let g = part.index(master, i);
    lemma_recorded_len(part, master, i);
    assert forall|j: int| 0 <= j < i implies #[trigger] part.index(master, j) != g by {
        assert(master.index_of(part.names[j]@) != master.index_of(part.names[i]@));
    }
    law_contribution_leaves_other_bones_alone(part, master, i, g);
    assert(part.recorded(master, i + 1)[g] == Some(part.claim(master, i)));
    lemma_recorded_grows(part, master, i + 1, n, g);
}

/// A part that contradicts what is recorded of a bone is turned away: a bone keeps its
/// parent, and no part that gives it another one is taken in.
pub proof fn law_contradicting_parent_is_turned_away(
    part: PartJoints,
    master: MasterSkeleton,
    n: int,
    i: int,
)
    requires
        0 <= i < n <= part.names.len(),
        part.all_described(master),
        master.index_of(part.names[i]@) is Some,
        ({
            let at = master.index_of(part.names[i]@)->0 as int;
            &&& at < master.global_joints@.len()
            &&& master.global_joints@[at] is Some
            &&& master.global_joints@[at]->0.parent != match part.parents[i] {
                None => None,
                Some(p) => master.index_of(part.names[p as int]@),
            }
        }),
    ensures
        part.first_conflict(master, n) is Some,
{
    if part.first_conflict(master, n) is None {
        law_contributed_parent_is_the_named_bone(part, master, n, i);
        law_contribution_keeps_recorded_joints(
            part,
            master,
            n,
            master.index_of(part.names[i]@)->0 as int,
        );
    }
}

/// A bone without a place in the skeleton cannot be contributed.
pub proof fn law_bone_without_a_place_is_turned_away(
    part: PartJoints,
    master: MasterSkeleton,
    n: int,
    i: int,
)
    requires
        0 <= i < n <= part.names.len(),
        master.index_of(part.names[i]@) is Some,
        master.index_of(part.names[i]@)->0 >= master.global_joints@.len(),
    ensures
        part.first_conflict(master, n) is Some,
{
    if part.first_conflict(master, n) is None {
        lemma_no_conflict(part, master, i, n);
    }
}

/// The names of a skeleton without repeated names lead to their own indices, and no other
/// name leads anywhere.
pub proof fn law_index_of_is_the_entry(master: MasterSkeleton, name: Seq<char>, global_index: u32)
    requires
        master.well_formed(),
    ensures
        master.index_of(name) == Some(global_index) <==> exists|i: int|
            {
                &&& 0 <= i < master.name_to_global_index@.len()
                &&& (#[trigger] master.name_to_global_index@[i]).name@ == name
                &&& master.name_to_global_index@[i].global_index == global_index
            },
        master.index_of(name) is None <==> forall|i: int|
            0 <= i < master.name_to_global_index@.len() ==> (
            #[trigger] master.name_to_global_index@[i]).name@ != name,
{
    let bones = master.name_to_global_index@;
    lemma_found_entry(bones, name, bones.len() as int);
}

proof fn lemma_found_entry(bones: Seq<NamedBone>, name: Seq<char>, n: int)
    requires
        0 <= n <= bones.len(),
        distinct_names(bones),
    ensures
        find_bone(bones, name, n) is None <==> forall|i: int|
            0 <= i < n ==> (#[trigger] bones[i]).name@ != name,
        forall|i: int|
            0 <= i < n && (#[trigger] bones[i]).name@ == name ==> find_bone(bones, name, n) == Some(
                bones[i].global_index,
            ),
    decreases n,
{
    if n > 0 {
        lemma_found_entry(bones, name, n - 1);
        if bones[n - 1].name@ == name {
            assert forall|i: int| 0 <= i < n - 1 implies (#[trigger] bones[i]).name@ != name by {
                assert(bones[i].name@ != bones[n - 1].name@);
            }
        }
    }
}

impl PartJoints {
    pub open spec fn finite_poses(self) -> bool {
        forall|i: int| 0 <= i < self.poses.len() ==> is_finite_pose(#[trigger] self.poses[i])
    }
}

pub open spec fn is_finite_pose(pose: JointBindPose) -> bool {
    &&& forall|i: int| 0 <= i < 3 ==> (#[trigger] pose.translation[i]).finite()
    &&& forall|i: int| 0 <= i < 4 ==> (#[trigger] pose.rotation[i]).finite()
    &&& forall|i: int| 0 <= i < 3 ==> (#[trigger] pose.scale[i]).finite()
}

proof fn lemma_close_to_itself(x: Single)
    requires
        x.finite(),
    ensures
        close(x, x),
{
    single::law_difference_with_itself(x);
}

proof fn lemma_pose_matches_itself(pose: JointBindPose)
    requires
        is_finite_pose(pose),
    ensures
        poses_match(pose, pose),
{
    assert forall|i: int| 0 <= i < 3 implies close(
        #[trigger] pose.translation[i],
        pose.translation[i],
    ) by {
        lemma_close_to_itself(pose.translation[i]);
    }
    assert forall|i: int| 0 <= i < 4 implies close(#[trigger] pose.rotation[i], pose.rotation[i]) by {
        lemma_close_to_itself(pose.rotation[i]);
    }
    assert forall|i: int| 0 <= i < 3 implies close(#[trigger] pose.scale[i], pose.scale[i]) by {
        lemma_close_to_itself(pose.scale[i]);
    }
}

proof fn lemma_no_conflict(part: PartJoints, master: MasterSkeleton, i: int, n: int)
    requires
        0 <= i < n,
        part.first_conflict(master, n) is None,
    ensures
        part.first_conflict(master, i) is None,
        !part.no_place(master, i),
        !part.other_parent(master, i),
        !part.other_pose(master, i),
    decreases n,
{
    if i < n - 1 {
        lemma_no_conflict(part, master, i, n - 1);
    }
}

/// Contributing the same part once more is accepted and changes nothing.
pub proof fn law_contributing_again_changes_nothing(
    part: PartJoints,
    master: MasterSkeleton,
    after: MasterSkeleton,
    n: int,
)
    requires
        0 <= n <= part.names.len(),
        part.all_described(master),
        part.first_conflict(master, part.names.len() as int) is None,
        part.finite_poses(),
        after.name_to_global_index@ == master.name_to_global_index@,
        after.global_joints@ == part.recorded(master, part.names.len() as int),
    ensures
        part.first_conflict(after, n) is None,
        part.recorded(after, n) == after.global_joints@,
    decreases n,
{
    if n > 0 {
        law_contributing_again_changes_nothing(part, master, after, n - 1);
        let i = n - 1;
        law_contributed_joints_are_recorded(part, master, part.names.len() as int, i);
        lemma_no_conflict(part, master, i, part.names.len() as int);
        lemma_recorded_len(part, master, part.names.len() as int);
        assert(part.index(after, i) == part.index(master, i));
        assert(part.claim(after, i) == part.claim(master, i));
    }
}

// ------------------------------------------------------------------------
// Reading a master skeleton
// ------------------------------------------------------------------------

/// What `serde_json::from_slice` reads as a map from names to `u32` numbers, or its
/// error where the data is anything else.
pub uninterp spec fn parsed_bones(bytes: Seq<u8>) -> Result<
    Map<Seq<char>, u32>,
    serde_json::Error,
>;

/// `serde_json::from_slice` into a `HashMap<String, u32>`, whose entries come out in
/// some order. What is trusted is that the map, or the error, depends on the bytes
/// alone, and that the keys of a map are distinct.
///
/// A number of more than 2^31 digits would make a counter of serde_json overflow, so
/// data with one is kept away from it.
#[verifier::external_body]
fn parse_bones(bytes: &[u8]) -> (r: Result<Vec<NamedBone>, serde_json::Error>)
    requires
        json_numbers::numbers_countable(bytes@),
    ensures
        match r {
            Ok(bones) => distinct_names(bones@) && parsed_bones(bytes@) == Ok::<
                Map<Seq<char>, u32>,
                serde_json::Error,
            >(name_map(bones@)),
            Err(e) => parsed_bones(bytes@) == Err::<Map<Seq<char>, u32>, serde_json::Error>(e),
        },
{
    let map: std::collections::HashMap<String, u32> = serde_json::from_slice(bytes)?;
    Ok(map.into_iter().map(|(name, global_index)| NamedBone { name, global_index }).collect())
}

impl MasterSkeleton {
    /// A skeleton of which nothing has been contributed yet: one place for each bone.
    pub fn new(bones: Vec<NamedBone>) -> (r: MasterSkeleton)
        requires
            distinct_names(bones@),
        ensures
            r.well_formed(),
            r.name_to_global_index@ == bones@,
            r.global_joints@.len() == bones@.len(),
            forall|g: int| 0 <= g < bones@.len() ==> #[trigger] r.global_joints@[g] is None,
    {
        let count: usize = bones.len();
        let mut global_joints: Vec<Option<GlobalJoint>> = Vec::new();
        let mut i: usize = 0;
        while i < count
            invariant
                i <= count,
                global_joints@.len() == i,
                forall|g: int| 0 <= g < i ==> #[trigger] global_joints@[g] is None,
            decreases count - i,
        {
            global_joints.push(None);
            i = i + 1;
        }
        MasterSkeleton { name_to_global_index: bones, global_joints }
    }
}

proof fn lemma_found_is_named(bones: Seq<NamedBone>, name: Seq<char>, n: int)
    requires
        0 <= n <= bones.len(),
    ensures
        find_bone(bones, name, n) is Some <==> exists|i: int|
            0 <= i < n && (#[trigger] bones[i]).name@ == name,
    decreases n,
{
    if n > 0 {
        lemma_found_is_named(bones, name, n - 1);
        if bones[n - 1].name@ == name {
            if find_bone(bones, name, n - 1) is None {
                assert(find_bone(bones, name, n) is Some);
            }
        }
    }
}

/// A table without repeated names has as many names as entries.
proof fn lemma_name_map_len(bones: Seq<NamedBone>)
    requires
        distinct_names(bones),
    ensures
        name_map(bones).dom().len() == bones.len(),
{
    let names = bones.map_values(|bone: NamedBone| bone.name@);
    assert(names.no_duplicates()) by {
        assert forall|i: int, j: int|
            0 <= i < names.len() && 0 <= j < names.len() && i != j implies names[i] != names[j] by {
            if i < j {
                assert(bones[i].name@ != bones[j].name@);
            } else {
                assert(bones[j].name@ != bones[i].name@);
            }
        }
    }
    names.unique_seq_to_set();
    assert(name_map(bones).dom() =~= names.to_set()) by {
        assert forall|name: Seq<char>| name_map(bones).dom().contains(name)
            <==> names.to_set().contains(name) by {
            lemma_found_is_named(bones, name, bones.len() as int);
            if names.to_set().contains(name) {
                let i = choose|i: int| 0 <= i < names.len() && names[i] == name;
                assert(bones[i].name@ == name);
            }
            if find_bone(bones, name, bones.len() as int) is Some {
                let i = choose|i: int| 0 <= i < bones.len() && (#[trigger] bones[i]).name@ == name;
                assert(names[i] == name);
            }
        }
    }
}

/// The text that `serde_json::Error` displays as, for an error of a parse.
pub uninterp spec fn json_error_text(e: serde_json::Error) -> Seq<char>;

/// `serde_json::Error`'s `Display`, for an error that `serde_json::from_slice` gave.
/// What is trusted is that its text depends on the error alone. (An error of reading
/// from a stream would hold the system's own text; parsing a slice gives none.)
#[verifier::external_body]
fn describe_json_error(e: &serde_json::Error) -> (r: String)
    requires
        exists|bytes: Seq<u8>|
            #[trigger] parsed_bones(bytes) == Err::<Map<Seq<char>, u32>, serde_json::Error>(*e),
    ensures
        r@ == json_error_text(*e),
{
    e.to_string()
}

pub open spec fn long_number_text() -> Seq<char> {
    "a number has too many digits"@
}

/// Reads a master skeleton from a flat JSON object of bone names and indices.
/// `path_for_errors` is only for messages.
pub fn parse_master_skeleton_bytes(bytes: &[u8], path_for_errors: &str) -> (r: Result<
    MasterSkeleton,
    SkeletonError,
>)
    ensures
        if !json_numbers::numbers_countable(bytes@) {
            r matches Err(SkeletonError::Parse { path, source, reason }) && path@
                == path_for_errors@ && source is None && reason@ == long_number_text()
        } else {
            match parsed_bones(bytes@) {
                Err(e) => r matches Err(SkeletonError::Parse { path, source, reason }) && path@
                    == path_for_errors@ && source == Some(e) && reason@ == json_error_text(e),
                Ok(bones) => {
                    &&& r is Ok
                    &&& r->Ok_0.well_formed()
                    &&& name_map(r->Ok_0.name_to_global_index@) == bones
                    &&& r->Ok_0.global_joints@.len() == bones.dom().len()
                    &&& forall|g: int|
                        0 <= g < r->Ok_0.global_joints@.len()
                            ==> #[trigger] r->Ok_0.global_joints@[g] is None
                },
            }
        },
{
    if !has_countable_numbers(bytes) {
        return Err(
            SkeletonError::Parse {
                path: String::from_str(path_for_errors),
                source: None,
                reason: String::from_str("a number has too many digits"),
            },
        );
    }
    match parse_bones(bytes) {
        Ok(bones) => {
            proof {
                lemma_name_map_len(bones@);
            }
            Ok(MasterSkeleton::new(bones))
        },
        Err(source) => {
            let reason = describe_json_error(&source);
            Err(
                SkeletonError::Parse {
                    path: String::from_str(path_for_errors),
                    source: Some(source),
                    reason,
                },
            )
        },
    }
}

// ------------------------------------------------------------------------
// Messages
// ------------------------------------------------------------------------

/// How the numbers of a bind pose are displayed.
#[derive(Debug)]
pub struct PoseText {
    pub translation: String,
    pub rotation: String,
    pub scale: String,
}

impl PoseText {
    pub open spec fn text(self) -> Seq<char> {
        "translation="@ + self.translation@ + " rotation="@ + self.rotation@ + " scale="@
            + self.scale@
    }

    fn write_to(&self, m: &mut String)
        ensures
            final(m)@ == old(m)@ + self.text(),
    {
        m.append("translation=");
        m.append(self.translation.as_str());
        m.append(" rotation=");
        m.append(self.rotation.as_str());
        m.append(" scale=");
        m.append(self.scale.as_str());
        assert(m@ =~= old(m)@ + self.text());
    }
}

pub open spec fn parent_text(parent: Option<String>) -> Seq<char> {
    match parent {
        Some(name) => name@,
        None => "<none, i.e. this part claims it's the root>"@,
    }
}

fn write_parent(m: &mut String, parent: &Option<String>)
    ensures
        final(m)@ == old(m)@ + parent_text(*parent),
{
    match parent {
        Some(name) => m.append(name.as_str()),
        None => m.append("<none, i.e. this part claims it's the root>"),
    }
}

impl SkeletonError {
    /// The text that [`SkeletonError::message`] returns, given how the two bind poses
    /// of a mismatch are displayed.
    pub open spec fn text(self, existing_pose: PoseText, new_pose: PoseText) -> Seq<char> {
        match self {
            SkeletonError::Io { path, reason } => "failed to read '"@ + path@ + "': "@ + reason@,
            SkeletonError::Parse { path, source: _, reason } => "failed to parse '"@ + path@
                + "' as JSON: "@ + reason@,
            SkeletonError::UnknownBone { bone_name, local_joint_index } => "bone '"@ + bone_name@
                + "' (local joint index "@ + text::decimal(local_joint_index as nat)
                + ") does not exist in master_skeleton.json; part is incompatible with the master rig"@,
            SkeletonError::LocalJointIndexOutOfRange {
                vertex_index,
                local_index,
                local_joint_count,
            } => "vertex["@ + text::decimal(vertex_index as nat)
                + "] references local joint index "@ + text::decimal(local_index as nat)
                + ", but the part only defines "@ + text::decimal(local_joint_count as nat)
                + " joints"@,
            SkeletonError::ParentMismatch { bone_name, existing_parent, new_parent } => "bone '"@
                + bone_name@ + "' was already contributed by an earlier part with parent "@
                + parent_text(existing_parent) + ", but this part claims its parent is "@
                + parent_text(new_parent)
                + " — two parts disagree about this shared skeleton's structure"@,
            SkeletonError::BindPoseMismatch { bone_name, existing: _, new: _ } => "bone '"@
                + bone_name@ + "' was already contributed by an earlier part with bind pose "@
                + existing_pose.text() + ", but this part claims "@ + new_pose.text()
                + " — differs by more than the allowed floating-point tolerance"@,
        }
    }

    /// What went wrong, in words. The two pose texts render the bind poses of a
    /// [`SkeletonError::BindPoseMismatch`]; the other errors do not use them.
    pub fn message(&self, existing_pose: &PoseText, new_pose: &PoseText) -> (r: String)
        ensures
            r@ == self.text(*existing_pose, *new_pose),
    {
        match self {
            SkeletonError::Io { path, reason } => {
                let mut m = String::from_str("failed to read '");
                m.append(path.as_str());
                m.append("': ");
                m.append(reason.as_str());
                m
            },
            SkeletonError::Parse { path, source: _, reason } => {
                let mut m = String::from_str("failed to parse '");
                m.append(path.as_str());
                m.append("' as JSON: ");
                m.append(reason.as_str());
                m
            },
            SkeletonError::UnknownBone { bone_name, local_joint_index } => {
                let mut m = String::from_str("bone '");
                m.append(bone_name.as_str());
                m.append("' (local joint index ");
                append_decimal(&mut m, *local_joint_index as u64);
                m.append(
                    ") does not exist in master_skeleton.json; part is incompatible with the master rig",
                );
                m
            },
            SkeletonError::LocalJointIndexOutOfRange {
                vertex_index,
                local_index,
                local_joint_count,
            } => {
                let mut m = String::from_str("vertex[");
                append_decimal(&mut m, *vertex_index as u64);
                m.append("] references local joint index ");
                append_decimal(&mut m, *local_index as u64);
                m.append(", but the part only defines ");
                append_decimal(&mut m, *local_joint_count as u64);
                m.append(" joints");
                m
            },
            SkeletonError::ParentMismatch { bone_name, existing_parent, new_parent } => {
                let mut m = String::from_str("bone '");
                m.append(bone_name.as_str());
                m.append("' was already contributed by an earlier part with parent ");
                write_parent(&mut m, existing_parent);
                m.append(", but this part claims its parent is ");
                write_parent(&mut m, new_parent);
                m.append(" — two parts disagree about this shared skeleton's structure");
                m
            },
            SkeletonError::BindPoseMismatch { bone_name, existing: _, new: _ } => {
                let mut m = String::from_str("bone '");
                m.append(bone_name.as_str());
                m.append("' was already contributed by an earlier part with bind pose ");
                existing_pose.write_to(&mut m);
                m.append(", but this part claims ");
                new_pose.write_to(&mut m);
                m.append(" — differs by more than the allowed floating-point tolerance");
                m
            },
        }
    }
}

/// Two finite numbers are close where they are less than 0.0001 apart, up to rounding.
pub proof fn law_close_numbers(x: Single, y: Single)
    requires
        x.finite(),
        y.finite(),
    ensures
        close(x, y) ==> 9998 as real * accuracy::apart(x.value(), y.value()) <= 1 as real,
        10010 as real * accuracy::apart(x.value(), y.value()) <= 1 as real ==> close(x, y),
{
    let d = x.difference(y);
    let exact = x.value() - y.value();
    let tolerance = Single { bits: BIND_POSE_TOLERANCE_BITS };
    accuracy::law_ten_thousandth();
    accuracy::law_difference_is_accurate(x, y);
    vector_accuracy::lemma_step_in_numbers();
    vector_accuracy::lemma_large();
    vector_accuracy::lemma_part(accuracy::size(exact));
    assert(d.absolute().index() == d.index());
    if d.finite() {
        accuracy::law_signs_and_constants(d);
        accuracy::law_order_is_that_of_the_values(d.absolute(), tolerance);
    }
}

/// Finite bind poses match where every number of one is less than 0.0001 from the same
/// number of the other, up to rounding.
pub proof fn law_matching_poses(a: JointBindPose, b: JointBindPose)
    requires
        is_finite_pose(a),
        is_finite_pose(b),
    ensures
        poses_match(a, b) ==> {
            &&& forall|i: int|
                0 <= i < 3 ==> 9998 as real * accuracy::apart(
                    (#[trigger] a.translation[i]).value(),
                    b.translation[i].value(),
                ) <= 1 as real
            &&& forall|i: int|
                0 <= i < 4 ==> 9998 as real * accuracy::apart(
                    (#[trigger] a.rotation[i]).value(),
                    b.rotation[i].value(),
                ) <= 1 as real
            &&& forall|i: int|
                0 <= i < 3 ==> 9998 as real * accuracy::apart(
                    (#[trigger] a.scale[i]).value(),
                    b.scale[i].value(),
                ) <= 1 as real
        },
        (forall|i: int|
            0 <= i < 3 ==> 10010 as real * accuracy::apart(
                (#[trigger] a.translation[i]).value(),
                b.translation[i].value(),
            ) <= 1 as real) && (forall|i: int|
            0 <= i < 4 ==> 10010 as real * accuracy::apart(
                (#[trigger] a.rotation[i]).value(),
                b.rotation[i].value(),
            ) <= 1 as real) && (forall|i: int|
            0 <= i < 3 ==> 10010 as real * accuracy::apart(
                (#[trigger] a.scale[i]).value(),
                b.scale[i].value(),
            ) <= 1 as real) ==> poses_match(a, b),
{
    assert forall|i: int| 0 <= i < 3 implies ({
        let x = #[trigger] a.translation[i];
        let y = b.translation[i];
        &&& close(x, y) ==> 9998 as real * accuracy::apart(x.value(), y.value()) <= 1 as real
        &&& 10010 as real * accuracy::apart(x.value(), y.value()) <= 1 as real ==> close(x, y)
    }) by {
        assert(b.translation[i].finite());
        law_close_numbers(a.translation[i], b.translation[i]);
    }
    assert forall|i: int| 0 <= i < 4 implies ({
        let x = #[trigger] a.rotation[i];
        let y = b.rotation[i];
        &&& close(x, y) ==> 9998 as real * accuracy::apart(x.value(), y.value()) <= 1 as real
        &&& 10010 as real * accuracy::apart(x.value(), y.value()) <= 1 as real ==> close(x, y)
    }) by {
        assert(b.rotation[i].finite());
        law_close_numbers(a.rotation[i], b.rotation[i]);
    }
    assert forall|i: int| 0 <= i < 3 implies ({
        let x = #[trigger] a.scale[i];
        let y = b.scale[i];
        &&& close(x, y) ==> 9998 as real * accuracy::apart(x.value(), y.value()) <= 1 as real
        &&& 10010 as real * accuracy::apart(x.value(), y.value()) <= 1 as real ==> close(x, y)
    }) by {
        assert(b.scale[i].finite());
        law_close_numbers(a.scale[i], b.scale[i]);
    }
}

/// A part that gives a recorded bone another bind pose is turned away.
pub proof fn law_contradicting_pose_is_turned_away(
    part: PartJoints,
    master: MasterSkeleton,
    n: int,
    i: int,
)
    requires
        0 <= i < n <= part.names.len(),
        part.all_described(master),
        master.index_of(part.names[i]@) is Some,
        ({
            let at = master.index_of(part.names[i]@)->0 as int;
            &&& at < master.global_joints@.len()
            &&& master.global_joints@[at] is Some
            &&& !poses_match(master.global_joints@[at]->0.bind_pose, part.poses[i])
        }),
    ensures
        part.first_conflict(master, n) is Some,
{
    if part.first_conflict(master, n) is None {
        lemma_no_conflict(part, master, i, n);
        lemma_recorded_grows(part, master, 0, i, master.index_of(part.names[i]@)->0 as int);
    }
}

/// What a part is told that contradicts a bone recorded before it: the bone's name, that the
/// parents differ, if they do, and otherwise both bind poses.
pub proof fn law_contradiction_is_told(
    e: SkeletonError,
    part: PartJoints,
    master: MasterSkeleton,
    i: int,
)
    requires
        0 <= i < part.names.len(),
        is_conflict(e, part, master, i),
        master.index_of(part.names[i]@) is Some,
        ({
            let at = master.index_of(part.names[i]@)->0 as int;
            &&& at < master.global_joints@.len()
            &&& master.global_joints@[at] is Some
        }),
    ensures
        ({
            let existing = master.global_joints@[master.index_of(part.names[i]@)->0 as int]->0;
            let parent = match part.parents[i] {
                None => None,
                Some(p) => master.index_of(part.names[p as int]@),
            };
            &&& existing.parent != parent ==> (e matches SkeletonError::ParentMismatch {
                bone_name,
                ..
            } && bone_name@ == part.names[i]@)
            &&& existing.parent == parent ==> (e matches SkeletonError::BindPoseMismatch {
                bone_name,
                existing: had,
                new,
            } && bone_name@ == part.names[i]@ && had == existing.bind_pose && new == part.poses[i])
        }),
{
    lemma_recorded_grows(part, master, 0, i, master.index_of(part.names[i]@)->0 as int);
}

/// A label leads back to the bone that it was given for: the bone of that name has the
/// global index, if there is a bone with that index at all, and the label holds the index
/// itself if there is none.
pub proof fn law_label_leads_back(
    master: MasterSkeleton,
    label: Seq<char>,
    name: Seq<char>,
    global_index: u32,
)
    requires
        master.well_formed(),
        master.is_label(label, global_index),
    ensures
        master.index_of(name) == Some(global_index) ==> master.index_of(label) == Some(
            global_index,
        ),
        (forall|other: Seq<char>| #[trigger] master.index_of(other) != Some(global_index)) ==> label
            == "<unnamed bone #"@ + text::decimal(global_index as nat) + ">"@,
{
    law_index_of_is_the_entry(master, name, global_index);
    law_index_of_is_the_entry(master, label, global_index);
    if master.index_of(name) == Some(global_index) {
        assert(master.names(name, global_index));
    }
    if forall|other: Seq<char>| #[trigger] master.index_of(other) != Some(global_index) {
        assert forall|other: Seq<char>| !(#[trigger] master.names(other, global_index)) by {
            law_index_of_is_the_entry(master, other, global_index);
            assert(master.index_of(other) != Some(global_index));
        }
    }
}

} // verus!
