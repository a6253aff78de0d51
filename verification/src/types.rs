//! What callers hand to the managers: descriptions of meshes and
//! skeletons, and the handles that name them.

use crate::handle::{RawResourceHandle, ResourceHandle};
use vstd::prelude::*;

verus! {

/// `glam::Mat4`, a 4x4 matrix. The managers store joint matrices and hand
/// them on; they never look inside one.
#[verifier::external_type_specification]
#[verifier::external_body]
pub struct ExMat4(glam::Mat4);

/// `glam::UVec2`, a vector of two `u32` components.
#[verifier::external_type_specification]
#[verifier::external_body]
pub struct ExUVec2(glam::UVec2);

/// The components of a `glam::UVec2`, `x` first.
pub uninterp spec fn uvec2_parts(v: glam::UVec2) -> Seq<u32>;

/// `glam::UVec2::new` builds the vector whose components are `x` and `y`,
/// in that order.
pub assume_specification[ glam::UVec2::new ](x: u32, y: u32) -> (v: glam::UVec2)
    ensures
        uvec2_parts(v) == seq![x, y],
;

/// What a mesh needs from the managers: room for its vertices, and the
/// number of joints that its vertices refer to.
#[derive(Debug)]
pub struct Mesh {
    /// The number of vertices.
    pub vertex_count: usize,
    /// The number of joints; zero for a mesh that is not skinned.
    pub num_joints: u16,
}

/// A skeleton: the mesh it deforms and one transformation per joint.
#[derive(Debug)]
pub struct Skeleton {
    /// The mesh that this skeleton deforms.
    pub mesh: MeshHandle,
    /// One matrix per joint of the mesh.
    pub joint_matrices: Vec<glam::Mat4>,
}

/// A counted reference to a mesh.
pub type MeshHandle = ResourceHandle<Mesh>;

/// The index of a mesh.
pub type RawMeshHandle = RawResourceHandle<Mesh>;

/// A counted reference to a skeleton.
pub type SkeletonHandle = ResourceHandle<Skeleton>;

/// The index of a skeleton.
pub type RawSkeletonHandle = RawResourceHandle<Skeleton>;

} // verus!
