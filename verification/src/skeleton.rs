//! The skeletons: what is kept of each, and the manager that creates,
//! updates and reclaims them together with the mesh manager.

use crate::coherence::{
    attached, backed, coherent, lemma_attach, lemma_detach, lemma_sweep_step, only_refs_changed,
    swept,
};
use crate::mesh::{
    can_place, first_position, placement, pool_after, refers_to, searched_limit, span,
    without_ref, InternalMesh, MeshManager,
};
use crate::range_alloc::{disjoint, held, within};
use crate::registry::{marked, reaped_at, reaps, swept_order, Reaped, ResourceRegistry};
use crate::types::{uvec2_parts, MeshHandle, RawSkeletonHandle, Skeleton, SkeletonHandle};
use std::ops::Range;
use std::sync::atomic::AtomicUsize;
use std::sync::atomic::Ordering;
use vstd::prelude::*;

verus! {

/// The vertex ranges of a skeleton and of its mesh, in the form in which
/// the skinning pass reads them: start and end as 32-bit offsets.
#[derive(Debug, Copy, Clone)]
pub struct GpuVertexRanges {
    /// The range of the vertex buffer that holds the mesh's own vertices.
    pub mesh_range: glam::UVec2,
    /// The range of the vertex buffer that holds the skeleton's own copy of
    /// the mesh's vertices.
    pub skeleton_range: glam::UVec2,
}

/// What the manager keeps of a skeleton.
#[derive(Debug)]
pub struct InternalSkeleton {
    /// A handle to the mesh this skeleton deforms.
    pub mesh_handle: MeshHandle,
    /// One transformation per joint, applied to the vertices.
    pub joint_matrices: Vec<glam::Mat4>,
    /// The part of the vertex buffer that this skeleton owns.
    pub skeleton_vertex_range: Range<usize>,
    /// The two ranges as the skinning pass reads them, kept beside the
    /// ranges they are made from.
    pub ranges: GpuVertexRanges,
}

/// Manages skeletons. A skeleton holds what vertex skinning needs, and no
/// bone hierarchy.
pub struct SkeletonManager {
    registry: ResourceRegistry<InternalSkeleton, Skeleton>,
    global_joint_count: usize,
}

/// Start and end of `range` as 32-bit offsets, cut to their low 32 bits.
pub open spec fn packed(range: Range<usize>) -> Seq<u32> {
    seq![range.start as u32, range.end as u32]
}

/// The number of joint matrices over all of `skeletons`.
pub open spec fn joint_total(skeletons: Map<usize, InternalSkeleton>) -> nat
    decreases skeletons.dom().len(),
    when skeletons.dom().finite()
{
    if skeletons.dom().len() == 0 {
        0
    } else {
        let k = skeletons.dom().choose();
        skeletons[k].joint_matrices@.len() + joint_total(skeletons.remove(k))
    }
}

/// The total counts each skeleton once, whichever is taken out first.
pub proof fn lemma_total_remove(skeletons: Map<usize, InternalSkeleton>, k: usize)
    requires
        skeletons.dom().finite(),
        skeletons.contains_key(k),
    ensures
        joint_total(skeletons) == skeletons[k].joint_matrices@.len() + joint_total(
            skeletons.remove(k),
        ),
    decreases skeletons.dom().len(),
{
    let c = skeletons.dom().choose();
    if c != k {
        lemma_total_remove(skeletons.remove(c), k);
        lemma_total_remove(skeletons.remove(k), c);
        assert(skeletons.remove(c).remove(k) =~= skeletons.remove(k).remove(c));
    }
}

/// A skeleton that comes in adds its joints to the total.
pub proof fn lemma_total_insert(
    skeletons: Map<usize, InternalSkeleton>,
    k: usize,
    skeleton: InternalSkeleton,
)
    requires
        skeletons.dom().finite(),
        !skeletons.contains_key(k),
    ensures
        joint_total(skeletons.insert(k, skeleton)) == joint_total(skeletons)
            + skeleton.joint_matrices@.len(),
{
    lemma_total_remove(skeletons.insert(k, skeleton), k);
    assert(skeletons.insert(k, skeleton).remove(k) =~= skeletons);
}

/// A skeleton that is replaced by one with as many joints leaves the total as it was.
pub proof fn lemma_total_update(
    skeletons: Map<usize, InternalSkeleton>,
    k: usize,
    skeleton: InternalSkeleton,
)
    requires
        skeletons.dom().finite(),
        skeletons.contains_key(k),
        skeleton.joint_matrices@.len() == skeletons[k].joint_matrices@.len(),
    ensures
        joint_total(skeletons.insert(k, skeleton)) == joint_total(skeletons),
{
    lemma_total_remove(skeletons, k);
    lemma_total_remove(skeletons.insert(k, skeleton), k);
    assert(skeletons.insert(k, skeleton).remove(k) =~= skeletons.remove(k));
}

/// Whether `stored` is what creating `skeleton` over a mesh at
/// `mesh_range` stores, with `pool` free in a buffer of `limit` units: the
/// handle and the matrices of `skeleton`, the lowest run of free units of
/// the mesh's size, and both ranges packed.
pub open spec fn created(
    stored: InternalSkeleton,
    skeleton: Skeleton,
    mesh_range: Range<usize>,
    pool: Set<int>,
    limit: int,
) -> bool {
    &&& stored.mesh_handle == skeleton.mesh
    &&& stored.joint_matrices == skeleton.joint_matrices
    &&& stored.skeleton_vertex_range.start == placement(pool, limit, span(mesh_range))
    &&& stored.skeleton_vertex_range.end == stored.skeleton_vertex_range.start + span(mesh_range)
    &&& uvec2_parts(stored.ranges.mesh_range) == packed(mesh_range)
    &&& uvec2_parts(stored.ranges.skeleton_range) == packed(stored.skeleton_vertex_range)
}

/// Whether `after` is `before` with the skeleton `k` added at the end of
/// the back-references of mesh `m`.
pub open spec fn listed(
    before: Map<usize, InternalMesh>,
    after: Map<usize, InternalMesh>,
    m: usize,
    k: usize,
) -> bool {
    &&& after.dom() == before.dom()
    &&& forall|other: usize|
        #![trigger after[other]]
        before.contains_key(other) && other != m ==> after[other] == before[other]
    &&& after[m].vertex_range == before[m].vertex_range
    &&& after[m].num_joints == before[m].num_joints
    &&& after[m].skeletons@.len() == before[m].skeletons@.len() + 1
    &&& after[m].skeletons@.drop_last() == before[m].skeletons@
    &&& after[m].skeletons@.last().idx == k
}

/// What creating `skeleton` under the handle index `k` does: the joint
/// count grows by its matrices, it is stored last in dense order as
/// `created` says, its mesh lists it, and the vertex buffer has handed out
/// its range, after growing where it had to. Nothing else has changed.
pub open spec fn filled(
    before: SkeletonManager,
    meshes_before: MeshManager,
    k: usize,
    skeleton: Skeleton,
    after: SkeletonManager,
    meshes_after: MeshManager,
) -> bool {
    let mesh_range = meshes_before.meshes()[skeleton.mesh.index()].vertex_range;
    let pool = meshes_before.free_units();
    let limit = meshes_before.vertex_capacity() as int;
    &&& after.joint_count() == before.joint_count() + skeleton.joint_matrices@.len()
    &&& after.dense_order() == before.dense_order().push(k)
    &&& after@.dom() == before@.dom().insert(k)
    &&& forall|other: usize|
        #![trigger after@[other]]
        before@.contains_key(other) ==> after@[other] == before@[other]
    &&& created(after@[k], skeleton, mesh_range, pool, limit)
    &&& listed(meshes_before.meshes(), meshes_after.meshes(), skeleton.mesh.index(), k)
    &&& meshes_after.dense_order() == meshes_before.dense_order()
    &&& meshes_after.vertex_capacity() == searched_limit(pool, limit, span(mesh_range))
    &&& meshes_after.free_units() == pool_after(pool, limit, span(mesh_range))
}

/// Why a skeleton cannot be created or changed.
#[derive(Debug, Clone, Copy, PartialEq, Eq, Structural)]
pub enum SkeletonError {
    /// No mesh is registered under the handle that the skeleton names.
    UnknownMesh,
    /// The skeleton has `actual` joint matrices where `expected` are due.
    JointCountMismatch { expected: usize, actual: usize },
    /// A skeleton is already stored under the handle.
    AlreadyFilled,
    /// The joint count or the vertex buffer would outgrow `usize`.
    TooLarge,
    /// No skeleton is stored under the handle.
    UnknownSkeleton,
}

/// Whether `skeleton` can be created under the handle index `k`, and if
/// not, the first reason in the order of the checks: its mesh, its number
/// of joints, its handle, the machine's limits.
pub open spec fn fill_verdict(
    before: SkeletonManager,
    meshes_before: MeshManager,
    k: usize,
    skeleton: Skeleton,
) -> Result<(), SkeletonError> {
    let m = skeleton.mesh.index();
    let meshes = meshes_before.meshes();
    if !meshes.contains_key(m) {
        Err(SkeletonError::UnknownMesh)
    } else if meshes[m].num_joints != skeleton.joint_matrices@.len() {
        Err(
            SkeletonError::JointCountMismatch {
                expected: meshes[m].num_joints as usize,
                actual: skeleton.joint_matrices@.len() as usize,
            },
        )
    } else if before@.contains_key(k) {
        Err(SkeletonError::AlreadyFilled)
    } else if before.joint_count() + skeleton.joint_matrices@.len() > usize::MAX || !can_place(
        meshes_before.free_units(),
        meshes_before.vertex_capacity() as int,
        span(meshes[m].vertex_range),
    ) {
        Err(SkeletonError::TooLarge)
    } else {
        Ok(())
    }
}

/// A skeleton over a registered mesh that has another number of joint
/// matrices than the mesh has joints cannot be created, whatever else holds.
pub proof fn lemma_mismatch_refused(
    before: SkeletonManager,
    meshes_before: MeshManager,
    k: usize,
    skeleton: Skeleton,
)
    requires
        meshes_before.meshes().contains_key(skeleton.mesh.index()),
        meshes_before.meshes()[skeleton.mesh.index()].num_joints != skeleton.joint_matrices@.len(),
    ensures
        fill_verdict(before, meshes_before, k, skeleton) == Err::<(), SkeletonError>(
            SkeletonError::JointCountMismatch {
                expected: meshes_before.meshes()[skeleton.mesh.index()].num_joints as usize,
                actual: skeleton.joint_matrices@.len() as usize,
            },
        ),
{
}

/// Whether `count` joint matrices can replace those of the skeleton stored
/// under `k`, and if not, why.
pub open spec fn joints_verdict(before: SkeletonManager, k: usize, count: nat) -> Result<
    (),
    SkeletonError,
> {
    if !before@.contains_key(k) {
        Err(SkeletonError::UnknownSkeleton)
    } else if before@[k].joint_matrices@.len() != count {
        Err(
            SkeletonError::JointCountMismatch {
                expected: before@[k].joint_matrices@.len() as usize,
                actual: count as usize,
            },
        )
    } else {
        Ok(())
    }
}

/// Joint matrices of another number than a stored skeleton has cannot
/// replace the ones it has.
pub proof fn lemma_wrong_length_refused(before: SkeletonManager, k: usize, count: nat)
    requires
        before@.contains_key(k),
        before@[k].joint_matrices@.len() != count,
    ensures
        joints_verdict(before, k, count) is Err,
{
}

/// What replacing the joint matrices of the skeleton stored under `k`
/// does: that skeleton holds `joint_matrices`, and nothing else has changed.
pub open spec fn joints_set(
    before: SkeletonManager,
    k: usize,
    joint_matrices: Vec<glam::Mat4>,
    after: SkeletonManager,
) -> bool {
    &&& after.joint_count() == before.joint_count()
    &&& after.dense_order() == before.dense_order()
    &&& after@.dom() == before@.dom()
    &&& forall|other: usize|
        #![trigger after@[other]]
        before@.contains_key(other) && other != k ==> after@[other] == before@[other]
    &&& after@[k].joint_matrices == joint_matrices
    &&& after@[k].mesh_handle == before@[k].mesh_handle
    &&& after@[k].skeleton_vertex_range == before@[k].skeleton_vertex_range
    &&& after@[k].ranges == before@[k].ranges
}

/// The handle indices of the first `n` entries of `reaped`.
pub open spec fn reaped_keys(reaped: Seq<Reaped<InternalSkeleton>>, n: int) -> Set<usize> {
    Set::new(|k: usize| exists|i: int| 0 <= i < n && (#[trigger] reaped[i]).idx == k)
}

/// Whether `order` lists keys of `stored`, none of them twice.
pub open spec fn lists_once(order: Seq<usize>, stored: Map<usize, InternalSkeleton>) -> bool {
    &&& forall|i: int| 0 <= i < order.len() ==> stored.contains_key(#[trigger] order[i])
    &&& forall|i: int, j: int| 0 <= i < j < order.len() ==> order[i] != order[j]
}

/// Entry `j` of what a sweep took out is a stored skeleton that no earlier
/// entry names.
proof fn lemma_reaped_entry(
    order: Seq<usize>,
    before: Map<usize, InternalSkeleton>,
    dead: Seq<bool>,
    reaped: Seq<Reaped<InternalSkeleton>>,
    after: Map<usize, InternalSkeleton>,
    j: int,
)
    requires
        reaps(order, before, dead, reaped, after),
        lists_once(order, before),
        0 <= j < reaped.len(),
    ensures
        before.contains_key(reaped[j].idx),
        reaped[j].data == before[reaped[j].idx],
        !reaped_keys(reaped, j).contains(reaped[j].idx),
        reaped_keys(reaped, j + 1) == reaped_keys(reaped, j).insert(reaped[j].idx),
{
    let r = reaped[j];
    assert(r.idx == order[r.dense_index as int]);
    if reaped_keys(reaped, j).contains(r.idx) {
        let i = choose|i: int| 0 <= i < j && (#[trigger] reaped[i]).idx == r.idx;
        let e = reaped[i];
        assert(e.dense_index > r.dense_index);
        assert(order[r.dense_index as int] != order[e.dense_index as int]);
    }
    assert(reaped_keys(reaped, j + 1) =~= reaped_keys(reaped, j).insert(r.idx));
}

/// What a sweep took out is what was marked.
proof fn lemma_reaped_all(
    order: Seq<usize>,
    before: Map<usize, InternalSkeleton>,
    dead: Seq<bool>,
    reaped: Seq<Reaped<InternalSkeleton>>,
    after: Map<usize, InternalSkeleton>,
)
    requires
        reaps(order, before, dead, reaped, after),
    ensures
        reaped_keys(reaped, reaped.len() as int) == marked(order, dead),
{
    let all = reaped_keys(reaped, reaped.len() as int);
    assert forall|k: usize| all.contains(k) implies marked(order, dead).contains(k) by {
        let i = choose|i: int| 0 <= i < reaped.len() && (#[trigger] reaped[i]).idx == k;
        let r = reaped[i];
        assert(order[r.dense_index as int] == k);
    }
    assert forall|k: usize| marked(order, dead).contains(k) implies all.contains(k) by {
        let i = choose|i: int| 0 <= i < order.len() && dead[i] && #[trigger] order[i] == k;
        assert(reaped_at(reaped, i));
        let j = choose|j: int| 0 <= j < reaped.len() && (#[trigger] reaped[j]).dense_index == i;
        assert(reaped[j].idx == k);
    }
    assert(all =~= marked(order, dead));
}

/// While skeletons, meshes and the vertex buffer agree, no unit of the
/// buffer is handed out twice: two skeletons share none, a skeleton and a
/// mesh share none, and none of a skeleton's units is free.
pub proof fn lemma_no_unit_twice(skeletons: SkeletonManager, meshes: MeshManager, a: usize, b: usize, m: usize)
    requires
        skeletons.agrees(&meshes),
        skeletons@.contains_key(a),
        skeletons@.contains_key(b),
        a != b,
        meshes.meshes().contains_key(m),
    ensures
        disjoint(skeletons@[a].skeleton_vertex_range, skeletons@[b].skeleton_vertex_range),
        disjoint(skeletons@[a].skeleton_vertex_range, meshes.meshes()[m].vertex_range),
        forall|u: int|
            #![trigger meshes.free_units().contains(u)]
            within(skeletons@[a].skeleton_vertex_range, u) ==> !meshes.free_units().contains(u),
{
    assert(attached(
        skeletons@[a],
        a,
        meshes.meshes(),
        meshes.free_units(),
        meshes.vertex_capacity() as int,
    ));
}

/// While skeletons and meshes agree, a mesh lists a skeleton exactly where
/// the skeleton is stored and deforms that mesh.
pub proof fn lemma_back_references(skeletons: SkeletonManager, meshes: MeshManager, k: usize, m: usize)
    requires
        skeletons.agrees(&meshes),
        meshes.meshes().contains_key(m),
    ensures
        refers_to(meshes.meshes()[m].skeletons@, k) <==> skeletons@.contains_key(k)
            && skeletons@[k].mesh_handle.index() == m,
{
    let refs = meshes.meshes()[m].skeletons@;
    if refers_to(refs, k) {
        let i = choose|i: int| 0 <= i < refs.len() && (#[trigger] refs[i]).idx == k;
        assert(backed(refs, i, m, skeletons@));
    }
    if skeletons@.contains_key(k) {
        assert(attached(
            skeletons@[k],
            k,
            meshes.meshes(),
            meshes.free_units(),
            meshes.vertex_capacity() as int,
        ));
    }
}

impl View for SkeletonManager {
    type V = Map<usize, InternalSkeleton>;

    /// The skeletons by handle index.
    closed spec fn view(&self) -> Map<usize, InternalSkeleton> {
        self.registry@
    }
}

impl Default for SkeletonManager {
    fn default() -> (manager: Self)
        ensures
            manager.wf(),
            manager@ == Map::<usize, InternalSkeleton>::empty(),
            manager.dense_order() == Seq::<usize>::empty(),
            manager.joint_count() == 0,
    {
        Self::new()
    }
}

impl SkeletonManager {
    /// The handle indices in the order in which `skeletons` lists them.
    pub closed spec fn dense_order(&self) -> Seq<usize> {
        self.registry.order()
    }

    /// The count that the manager keeps of all joints.
    pub closed spec fn joint_count(&self) -> usize {
        self.global_joint_count
    }

    /// The registry is in order, the joint count is the number of joint
    /// matrices of all skeletons, and each skeleton's packed range is made
    /// from the range it owns.
    pub closed spec fn wf(&self) -> bool {
        &&& self.registry.wf()
        &&& self.global_joint_count == joint_total(self.registry@)
        &&& forall|k: usize| #[trigger]
            self.registry@.contains_key(k) ==> uvec2_parts(self.registry@[k].ranges.skeleton_range)
                == packed(self.registry@[k].skeleton_vertex_range)
    }

    /// Whether this manager's skeletons, the meshes of `meshes` and its
    /// vertex buffer agree.
    pub open spec fn agrees(&self, meshes: &MeshManager) -> bool {
        coherent(self@, meshes.meshes(), meshes.free_units(), meshes.vertex_capacity() as int)
    }

    /// In a well-formed manager the joint count is the number of joint
    /// matrices of all the stored skeletons, there are as many entries in
    /// dense order as skeletons, and each packed skeleton range is made
    /// from the range that the skeleton owns.
    pub proof fn lemma_wf(&self)
        requires
            self.wf(),
        ensures
            self@.dom().finite(),
            self.joint_count() == joint_total(self@),
            self.dense_order().len() == self@.dom().len(),
            forall|k: usize| #[trigger]
                self@.contains_key(k) ==> uvec2_parts(self@[k].ranges.skeleton_range) == packed(
                    self@[k].skeleton_vertex_range,
                ),
    {
        self.registry.lemma_order();
        self.registry.lemma_count();
    }

    /// A manager without skeletons.
    pub fn new() -> (manager: Self)
        ensures
            manager.wf(),
            manager@ == Map::<usize, InternalSkeleton>::empty(),
            manager.dense_order() == Seq::<usize>::empty(),
            manager.joint_count() == 0,
    {
        let registry = ResourceRegistry::new();
        assert(joint_total(Map::<usize, InternalSkeleton>::empty()) == 0);
        SkeletonManager { registry, global_joint_count: 0 }
    }

    /// Issues the handle for the next skeleton. The index is the counter's
    /// value before the call; the counter is shared, so nothing is known of it.
    pub fn allocate(counter: &AtomicUsize) -> (handle: SkeletonHandle) {
        let idx = counter.fetch_add(1, Ordering::Relaxed);
        SkeletonHandle::new(idx)
    }

    /// Whether a skeleton is stored for `handle`.
    pub fn contains(&self, handle: RawSkeletonHandle) -> (found: bool)
        requires
            self.wf(),
        ensures
            found == self@.contains_key(handle.idx),
    {
        self.registry.contains(handle)
    }

    /// What is kept of the skeleton of `handle`.
    pub fn internal_data(&self, handle: RawSkeletonHandle) -> (skeleton: &InternalSkeleton)
        requires
            self.wf(),
            self@.contains_key(handle.idx),
        ensures
            *skeleton == self@[handle.idx],
    {
        self.registry.get(handle)
    }

    /// Every skeleton, in dense order.
    pub fn skeletons(&self) -> (all: Vec<&InternalSkeleton>)
        requires
            self.wf(),
        ensures
            all@.len() == self.dense_order().len(),
            all@.len() == self@.dom().len(),
            forall|i: int|
                0 <= i < all@.len() ==> self@.contains_key(self.dense_order()[i]) && *(
                #[trigger] all@[i]) == self@[self.dense_order()[i]],
            forall|k: usize| #[trigger]
                self@.contains_key(k) ==> exists|i: int|
                    0 <= i < all@.len() && self.dense_order()[i] == k,
    {
        proof {
            self.registry.lemma_order();
            self.registry.lemma_count();
        }
        self.registry.values()
    }

    /// The number of joints of all the skeletons in this manager.
    pub fn global_joint_count(&self) -> (count: usize)
        requires
            self.wf(),
        ensures
            count == self.joint_count(),
            count == joint_total(self@),
    {
        self.global_joint_count
    }

    /// Replaces the joint matrices of the skeleton of `handle` by as many
    /// new ones.
    pub fn set_joint_matrices(&mut self, handle: RawSkeletonHandle, joint_matrices: Vec<glam::Mat4>)
        requires
            old(self).wf(),
            old(self)@.contains_key(handle.idx),
            joint_matrices@.len() == old(self)@[handle.idx].joint_matrices@.len(),
        ensures
            final(self).wf(),
            joints_set(*old(self), handle.idx, joint_matrices, *final(self)),
    {
        proof {
            self.registry.lemma_order();
        }
        let skeleton = self.registry.get_mut(handle);
        skeleton.joint_matrices = joint_matrices;
        proof {
            assert(self@.dom() =~= old(self)@.dom());
            lemma_total_update(old(self)@, handle.idx, self@[handle.idx]);
        }
    }

    /// Records that the skeleton of `handle` now owns
    /// `new_skeleton_vert_range`, and that its mesh now lies at
    /// `new_mesh_vert_range`.
    pub fn set_skeleton_range(
        &mut self,
        handle: RawSkeletonHandle,
        new_skeleton_vert_range: &Range<usize>,
        new_mesh_vert_range: &Range<usize>,
    )
        requires
            old(self).wf(),
            old(self)@.contains_key(handle.idx),
        ensures
            final(self).wf(),
            final(self).joint_count() == old(self).joint_count(),
            final(self).dense_order() == old(self).dense_order(),
            final(self)@.dom() == old(self)@.dom(),
            forall|k: usize|
                #![trigger final(self)@[k]]
                old(self)@.contains_key(k) && k != handle.idx ==> final(self)@[k] == old(self)@[k],
            ({
                let before = old(self)@[handle.idx];
                let after = final(self)@[handle.idx];
                &&& after.skeleton_vertex_range == *new_skeleton_vert_range
                &&& uvec2_parts(after.ranges.mesh_range) == packed(*new_mesh_vert_range)
                &&& uvec2_parts(after.ranges.skeleton_range) == packed(*new_skeleton_vert_range)
                &&& after.joint_matrices == before.joint_matrices
                &&& after.mesh_handle == before.mesh_handle
            }),
    {
        proof {
            self.registry.lemma_order();
        }
        let skeleton = self.registry.get_mut(handle);
        skeleton.skeleton_vertex_range = new_skeleton_vert_range.start..new_skeleton_vert_range.end;
        skeleton.ranges.mesh_range = pack(new_mesh_vert_range);
        skeleton.ranges.skeleton_range = pack(new_skeleton_vert_range);
        proof {
            assert(self@.dom() =~= old(self)@.dom());
            lemma_total_update(old(self)@, handle.idx, self@[handle.idx]);
        }
    }

    /// Creates the skeleton of `handle` over its mesh: counts its joints,
    /// has the mesh list it, takes a range of the mesh's size for its own
    /// copy of the vertices, and stores it with both ranges packed.
    pub fn fill(
        &mut self,
        mesh_manager: &mut MeshManager,
        handle: &SkeletonHandle,
        skeleton: Skeleton,
    )
        requires
            old(self).wf(),
            old(mesh_manager).wf(),
            old(self).agrees(old(mesh_manager)),
            !old(self)@.contains_key(handle.index()),
            old(mesh_manager).meshes().contains_key(skeleton.mesh.index()),
            skeleton.joint_matrices@.len() == old(mesh_manager).meshes()[skeleton.mesh.index()].num_joints,
            old(self).joint_count() + skeleton.joint_matrices@.len() <= usize::MAX,
            can_place(
                old(mesh_manager).free_units(),
                old(mesh_manager).vertex_capacity() as int,
                span(old(mesh_manager).meshes()[skeleton.mesh.index()].vertex_range),
            ),
        ensures
            final(self).wf(),
            final(mesh_manager).wf(),
            final(self).agrees(final(mesh_manager)),
            filled(
                *old(self),
                *old(mesh_manager),
                handle.index(),
                skeleton,
                *final(self),
                *final(mesh_manager),
            ),
    {
        proof {
            old(self).lemma_wf();
            old(mesh_manager).lemma_wf();
        }
        let mesh_raw = skeleton.mesh.get_raw();
        let reference = handle.get_raw();
        self.global_joint_count += skeleton.joint_matrices.len();
        mesh_manager.add_skeleton(mesh_raw, reference);
        let internal_mesh = mesh_manager.internal_data(mesh_raw);
        let mesh_range = internal_mesh.vertex_range.start..internal_mesh.vertex_range.end;
        let skeleton_range = mesh_manager.allocate_skeleton_mesh(&skeleton.mesh);
        let input = GpuVertexRanges {
            skeleton_range: pack(&skeleton_range),
            mesh_range: pack(&mesh_range),
        };
        let internal = InternalSkeleton {
            joint_matrices: skeleton.joint_matrices,
            mesh_handle: skeleton.mesh,
            skeleton_vertex_range: skeleton_range,
            ranges: input,
        };
        proof {
            let meshes = old(mesh_manager).meshes();
            let m = skeleton.mesh.index();
            assert(forall|k: usize| #[trigger]
                meshes.contains_key(k) ==> held(
                    old(mesh_manager).free_units(),
                    old(mesh_manager).vertex_capacity() as int,
                    meshes[k].vertex_range,
                ));
            lemma_attach(
                old(self)@,
                meshes,
                old(mesh_manager).free_units(),
                old(mesh_manager).vertex_capacity() as int,
                handle.index(),
                internal,
                reference,
                mesh_manager.meshes(),
                mesh_manager.free_units(),
                mesh_manager.vertex_capacity() as int,
            );
            lemma_total_insert(old(self)@, handle.index(), internal);
            let refs = meshes[m].skeletons@;
            assert(mesh_manager.meshes()[m].skeletons@ == refs.push(reference));
            assert(refs.push(reference).drop_last() =~= refs);
            assert(listed(meshes, mesh_manager.meshes(), m, handle.index()));
        }
        self.registry.insert(handle, internal);
        proof {
            assert(self@.dom() =~= old(self)@.dom().insert(handle.index()));
        }
    }

    /// Reclaims the skeletons that `dead` marks, one flag per skeleton in
    /// dense order: each leaves the joint count and the back-references of
    /// its mesh, and then gives its range back to the vertex buffer.
    pub fn sweep_marked(&mut self, mesh_manager: &mut MeshManager, dead: &Vec<bool>)
        requires
            old(self).wf(),
            old(mesh_manager).wf(),
            old(self).agrees(old(mesh_manager)),
            dead@.len() == old(self).dense_order().len(),
        ensures
            final(self).wf(),
            final(mesh_manager).wf(),
            final(self).agrees(final(mesh_manager)),
            final(mesh_manager).vertex_capacity() == old(mesh_manager).vertex_capacity(),
            final(mesh_manager).dense_order() == old(mesh_manager).dense_order(),
            final(self).dense_order() == swept_order(old(self).dense_order(), dead@, 0),
            swept(
                old(self)@,
                old(mesh_manager).meshes(),
                old(mesh_manager).free_units(),
                marked(old(self).dense_order(), dead@),
                final(self)@,
                final(mesh_manager).meshes(),
                final(mesh_manager).free_units(),
            ),
    {
        proof {
            old(self).lemma_wf();
            old(self).registry.lemma_order();
        }
        let ghost before = self@;
        let ghost order = self.dense_order();
        let ghost meshes_before = mesh_manager.meshes();
        let ghost pool_before = mesh_manager.free_units();
        let ghost limit = mesh_manager.vertex_capacity() as int;
        let reaped = self.registry.remove_marked(dead);
        let ghost mut gone = Set::<usize>::empty();
        proof {
            assert(reaped_keys(reaped@, 0) =~= gone);
            assert(before.remove_keys(gone) =~= before);
            assert(swept(
                before,
                meshes_before,
                pool_before,
                gone,
                before.remove_keys(gone),
                meshes_before,
                pool_before,
            ));
        }
        let mut j: usize = 0;
        while j < reaped.len()
            invariant
                j <= reaped@.len(),
                self.registry.wf(),
                self.registry.order() == swept_order(order, dead@, 0),
                reaps(order, before, dead@, reaped@, self.registry@),
                lists_once(order, before),
                forall|k: usize| #[trigger]
                    before.contains_key(k) ==> uvec2_parts(before[k].ranges.skeleton_range)
                        == packed(before[k].skeleton_vertex_range),
                gone == reaped_keys(reaped@, j as int),
                before.remove_keys(gone).dom().finite(),
                self.global_joint_count == joint_total(before.remove_keys(gone)),
                mesh_manager.wf(),
                mesh_manager.vertex_capacity() == limit,
                mesh_manager.dense_order() == old(mesh_manager).dense_order(),
                coherent(
                    before.remove_keys(gone),
                    mesh_manager.meshes(),
                    mesh_manager.free_units(),
                    limit,
                ),
                swept(
                    before,
                    meshes_before,
                    pool_before,
                    gone,
                    before.remove_keys(gone),
                    mesh_manager.meshes(),
                    mesh_manager.free_units(),
                ),
            decreases reaped@.len() - j,
        {
            let entry = &reaped[j];
            let ghost pending = before.remove_keys(gone);
            let ghost k = entry.idx;
            let ghost meshes_now = mesh_manager.meshes();
            let ghost pool_now = mesh_manager.free_units();
            proof {
                lemma_reaped_entry(order, before, dead@, reaped@, self.registry@, j as int);
                assert(pending.contains_key(k));
                assert(pending[k] == entry.data);
                lemma_total_remove(pending, k);
                assert(attached(pending[k], k, meshes_now, pool_now, limit));
            }
            self.global_joint_count -= entry.data.joint_matrices.len();
            mesh_manager.remove_skeleton(
                entry.data.mesh_handle.get_raw(),
                RawSkeletonHandle::new(entry.idx),
            );
            proof {
                assert forall|m: usize| #[trigger]
                    mesh_manager.meshes().contains_key(m) implies disjoint(
                    mesh_manager.meshes()[m].vertex_range,
                    entry.data.skeleton_vertex_range,
                ) by {
                    assert(meshes_now.contains_key(m));
                    assert(disjoint(pending[k].skeleton_vertex_range, meshes_now[m].vertex_range));
                }
            }
            let ghost meshes_mid = mesh_manager.meshes();
            mesh_manager.free_skeleton_mesh(
                entry.data.skeleton_vertex_range.start..entry.data.skeleton_vertex_range.end,
            );
            proof {
                assert(only_refs_changed(
                    meshes_now,
                    meshes_mid,
                    pending[k].mesh_handle.index(),
                    without_ref(
                        meshes_now[pending[k].mesh_handle.index()].skeletons@,
                        first_position(meshes_now[pending[k].mesh_handle.index()].skeletons@, k),
                    ),
                ));
                lemma_detach(
                    pending,
                    meshes_now,
                    pool_now,
                    limit,
                    k,
                    mesh_manager.meshes(),
                    mesh_manager.free_units(),
                );
                lemma_sweep_step(
                    before,
                    meshes_before,
                    pool_before,
                    gone,
                    meshes_now,
                    pool_now,
                    k,
                    mesh_manager.meshes(),
                    mesh_manager.free_units(),
                );
                gone = gone.insert(k);
            }
            j += 1;
        }
        proof {
            lemma_reaped_all(order, before, dead@, reaped@, self.registry@);
        }
    }

    /// Reclaims every skeleton whose handle has no copy left. Which ones
    /// those are is decided by the handles' holders; whatever they are,
    /// they are reclaimed as `sweep_marked` would.
    pub fn ready(&mut self, mesh_manager: &mut MeshManager)
        requires
            old(self).wf(),
            old(mesh_manager).wf(),
            old(self).agrees(old(mesh_manager)),
        ensures
            final(self).wf(),
            final(mesh_manager).wf(),
            final(self).agrees(final(mesh_manager)),
            final(mesh_manager).vertex_capacity() == old(mesh_manager).vertex_capacity(),
            final(mesh_manager).dense_order() == old(mesh_manager).dense_order(),
            exists|dead: Seq<bool>|
                dead.len() == old(self).dense_order().len() && #[trigger] swept(
                    old(self)@,
                    old(mesh_manager).meshes(),
                    old(mesh_manager).free_units(),
                    marked(old(self).dense_order(), dead),
                    final(self)@,
                    final(mesh_manager).meshes(),
                    final(mesh_manager).free_units(),
                ) && final(self).dense_order() == swept_order(old(self).dense_order(), dead, 0),
    {
        let dead = self.registry.poll_dead();
        self.sweep_marked(mesh_manager, &dead);
        proof {
            assert(swept(
                old(self)@,
                old(mesh_manager).meshes(),
                old(mesh_manager).free_units(),
                marked(old(self).dense_order(), dead@),
                self@,
                mesh_manager.meshes(),
                mesh_manager.free_units(),
            ));
        }
    }

    /// Creates the skeleton of `handle` as `fill` does, where that can be
    /// done. Where it cannot, says why and changes nothing.
    pub fn try_fill(
        &mut self,
        mesh_manager: &mut MeshManager,
        handle: &SkeletonHandle,
        skeleton: Skeleton,
    ) -> (result: Result<(), SkeletonError>)
        requires
            old(self).wf(),
            old(mesh_manager).wf(),
            old(self).agrees(old(mesh_manager)),
        ensures
            final(self).wf(),
            final(mesh_manager).wf(),
            final(self).agrees(final(mesh_manager)),
            result == fill_verdict(*old(self), *old(mesh_manager), handle.index(), skeleton),
            result is Err ==> *final(self) == *old(self) && *final(mesh_manager) == *old(
                mesh_manager,
            ),
            result is Ok ==> filled(
                *old(self),
                *old(mesh_manager),
                handle.index(),
                skeleton,
                *final(self),
                *final(mesh_manager),
            ),
    {
        let mesh_raw = skeleton.mesh.get_raw();
        if !mesh_manager.contains(mesh_raw) {
            return Err(SkeletonError::UnknownMesh);
        }
        let internal_mesh = mesh_manager.internal_data(mesh_raw);
        let expected = internal_mesh.num_joints as usize;
        let actual = skeleton.joint_matrices.len();
        if expected != actual {
            return Err(SkeletonError::JointCountMismatch { expected, actual });
        }
        if self.registry.contains(handle.get_raw()) {
            return Err(SkeletonError::AlreadyFilled);
        }
        proof {
            old(mesh_manager).lemma_wf();
        }
        let needed = internal_mesh.vertex_range.end - internal_mesh.vertex_range.start;
        if actual > usize::MAX - self.global_joint_count || !mesh_manager.has_room(needed) {
            return Err(SkeletonError::TooLarge);
        }
        self.fill(mesh_manager, handle, skeleton);
        Ok(())
    }

    /// Replaces the joint matrices of the skeleton of `handle` as
    /// `set_joint_matrices` does, where as many come as it has. Where not,
    /// says why and changes nothing.
    pub fn try_set_joint_matrices(
        &mut self,
        handle: RawSkeletonHandle,
        joint_matrices: Vec<glam::Mat4>,
    ) -> (result: Result<(), SkeletonError>)
        requires
            old(self).wf(),
        ensures
            final(self).wf(),
            result == joints_verdict(*old(self), handle.idx, joint_matrices@.len()),
            result is Err ==> *final(self) == *old(self),
            result is Ok ==> joints_set(*old(self), handle.idx, joint_matrices, *final(self)),
    {
        if !self.registry.contains(handle) {
            return Err(SkeletonError::UnknownSkeleton);
        }
        let expected = self.registry.get(handle).joint_matrices.len();
        let actual = joint_matrices.len();
        if expected != actual {
            return Err(SkeletonError::JointCountMismatch { expected, actual });
        }
        self.set_joint_matrices(handle, joint_matrices);
        Ok(())
    }
}

/// Start and end of `range` as the two components of a vector, each cut
/// to its low 32 bits.
pub fn pack(range: &Range<usize>) -> (v: glam::UVec2)
    ensures
        uvec2_parts(v) == packed(*range),
{
    glam::UVec2::new(
        #[verifier::truncate]
        (range.start as u32),
        #[verifier::truncate]
        (range.end as u32),
    )
}

} // verus!
