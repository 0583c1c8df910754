use crate::single::Single;
use vstd::prelude::*;

verus! {

/// One vertex of a skinned mesh.
#[derive(Clone, Copy, Debug, PartialEq, Eq)]
pub struct SkinnedVertex {
    pub position: [Single; 3],
    pub normal: [Single; 3],
    pub uv: [Single; 2],
    pub bone_indices: [u16; 4],
    pub bone_weights: [Single; 4],
}

/// A joint's transform in the bind pose.
#[derive(Clone, Copy, Debug, PartialEq, Eq)]
pub struct JointBindPose {
    pub translation: [Single; 3],
    pub rotation: [Single; 4],
    pub scale: [Single; 3],
}

/// What one generated character is made from.
#[derive(Debug)]
pub struct CharacterDNA {
    pub seed: u64,
    pub height_modifier: Single,
    pub weight_modifier: Single,
    pub head_id: u32,
    pub torso_id: u32,
    pub equipped_clothing_ids: Vec<u32>,
}

} // verus!
