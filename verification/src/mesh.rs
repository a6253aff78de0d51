//! The meshes, and the vertex buffer that meshes and skeletons share.

use crate::coherence::{backed, coherent};
use crate::layout::{
    counted, earlier, lemma_compacted, lemma_count_next_mesh, lemma_count_slot, lemma_mesh_step,
    lemma_move_pushed, lemma_moves_next_mesh, lemma_skeleton_step, lemma_skeletons_start,
    lists_meshes, meshes_moved, moves_listed, new_slot, old_slot, skeletons_moved, slot_start,
    width, Relocation,
};
use crate::range_alloc::{
    disjoint, fits_in, held, lemma_fresh_apart, lowest_fit, within, RangeAllocator,
};
use crate::registry::ResourceRegistry;
use crate::skeleton::{InternalSkeleton, SkeletonManager};
use crate::types::{Mesh, MeshHandle, RawMeshHandle, RawSkeletonHandle};
use std::ops::Range;
use std::sync::atomic::AtomicUsize;
use std::sync::atomic::Ordering;
use vstd::prelude::*;

verus! {

/// The number of vertices that a new vertex buffer has room for.
pub const STARTING_VERTICES: usize = 65536;

/// The size in bytes of one vertex position: three 32-bit floats.
pub const VERTEX_POSITION_SIZE: usize = 12;

/// The size in bytes of one vertex normal: three 32-bit floats.
pub const VERTEX_NORMAL_SIZE: usize = 12;

/// The size in bytes of one vertex tangent: three 32-bit floats.
pub const VERTEX_TANGENT_SIZE: usize = 12;

/// The size in bytes of one texture coordinate: two 32-bit floats.
pub const VERTEX_UV_SIZE: usize = 8;

/// The size in bytes of one vertex colour: four bytes.
pub const VERTEX_COLOR_SIZE: usize = 4;

/// The size in bytes of one material index: a 32-bit integer.
pub const VERTEX_MATERIAL_INDEX_SIZE: usize = 4;

/// What the manager keeps of a mesh.
#[derive(Debug)]
pub struct InternalMesh {
    /// The part of the vertex buffer that holds the mesh's own vertices.
    pub vertex_range: Range<usize>,
    /// The number of joints that a skeleton over this mesh must have.
    pub num_joints: u16,
    /// The skeletons that deform this mesh at present.
    pub skeletons: Vec<RawSkeletonHandle>,
}

/// The meshes and the allocator of the shared vertex buffer.
pub struct MeshManager {
    registry: ResourceRegistry<InternalMesh, Mesh>,
    vertex_alloc: RangeAllocator,
}

/// The pool that is searched for `needed` units: `pool` as it is where the
/// units fit, else `pool` with `needed` units added at `limit`.
pub open spec fn searched_pool(pool: Set<int>, limit: int, needed: int) -> Set<int> {
    if exists|at: int| fits_in(pool, limit, at, needed) {
        pool
    } else {
        pool.union(Set::new(|u: int| limit <= u < limit + needed))
    }
}

/// The size of the buffer after a search for `needed` units.
pub open spec fn searched_limit(pool: Set<int>, limit: int, needed: int) -> int {
    if exists|at: int| fits_in(pool, limit, at, needed) {
        limit
    } else {
        limit + needed
    }
}

/// Whether a search for `needed` units can end: they fit as the pool is,
/// or the buffer can grow by them without passing what `usize` holds.
pub open spec fn can_place(pool: Set<int>, limit: int, needed: int) -> bool {
    (exists|at: int| fits_in(pool, limit, at, needed)) || limit + needed <= usize::MAX
}

/// Whether the ranges of `meshes` lie below `limit` with none of their
/// units in `pool`, and no two of them share a unit.
pub open spec fn held_apart(meshes: Map<usize, InternalMesh>, pool: Set<int>, limit: int) -> bool {
    &&& forall|k: usize| #[trigger]
        meshes.contains_key(k) ==> held(pool, limit, meshes[k].vertex_range)
    &&& forall|a: usize, b: usize|
        #![trigger meshes[a], meshes[b]]
        meshes.contains_key(a) && meshes.contains_key(b) && a != b ==> disjoint(
            meshes[a].vertex_range,
            meshes[b].vertex_range,
        )
}

/// Where a search for `needed` units ends: the lowest place in the
/// searched pool where that many units lie side by side.
pub open spec fn placement(pool: Set<int>, limit: int, needed: int) -> int {
    choose|at: int|
        lowest_fit(
            searched_pool(pool, limit, needed),
            searched_limit(pool, limit, needed),
            at,
            needed,
        )
}

/// The free pool after a search for `needed` units has taken them.
pub open spec fn pool_after(pool: Set<int>, limit: int, needed: int) -> Set<int> {
    searched_pool(pool, limit, needed).difference(
        Set::new(
            |u: int| placement(pool, limit, needed) <= u < placement(pool, limit, needed) + needed,
        ),
    )
}

/// The units of `range`.
pub open spec fn units(range: Range<usize>) -> Set<int> {
    Set::new(|u: int| within(range, u))
}

/// `refs` after the entry at `pos` has been replaced by the last one.
pub open spec fn without_ref(refs: Seq<RawSkeletonHandle>, pos: int) -> Seq<RawSkeletonHandle> {
    refs.update(pos, refs.last()).drop_last()
}

/// Where `idx` stands first among `refs`.
#[verifier::opaque]
pub open spec fn first_position(refs: Seq<RawSkeletonHandle>, idx: usize) -> int {
    choose|i: int|
        0 <= i < refs.len() && (#[trigger] refs[i]).idx == idx && forall|j: int|
            0 <= j < i ==> (#[trigger] refs[j]).idx != idx
}

/// Whether `idx` stands among `refs`.
pub open spec fn refers_to(refs: Seq<RawSkeletonHandle>, idx: usize) -> bool {
    exists|i: int| 0 <= i < refs.len() && (#[trigger] refs[i]).idx == idx
}

impl Default for MeshManager {
    fn default() -> (manager: Self)
        ensures
            manager.wf(),
            manager.meshes() == Map::<usize, InternalMesh>::empty(),
            manager.vertex_capacity() == STARTING_VERTICES,
    {
        Self::new()
    }
}

impl MeshManager {
    /// The meshes by handle index.
    pub closed spec fn meshes(&self) -> Map<usize, InternalMesh> {
        self.registry@
    }

    /// The handle indices of the meshes in the order of the dense store.
    pub closed spec fn dense_order(&self) -> Seq<usize> {
        self.registry.order()
    }

    /// The units of the vertex buffer that are handed out to nobody.
    pub closed spec fn free_units(&self) -> Set<int> {
        self.vertex_alloc@
    }

    /// The number of units in the vertex buffer.
    pub closed spec fn vertex_capacity(&self) -> usize {
        self.vertex_alloc.size()
    }

    /// Whether `range` lies in the buffer with none of its units free.
    pub open spec fn holds(&self, range: Range<usize>) -> bool {
        held(self.free_units(), self.vertex_capacity() as int, range)
    }

    /// The meshes' own ranges are handed out and share no unit.
    pub open spec fn ranges_held(&self) -> bool {
        held_apart(self.meshes(), self.free_units(), self.vertex_capacity() as int)
    }

    /// The registry and the allocator are in order, and the meshes' ranges
    /// are handed out and share no unit.
    pub closed spec fn wf(&self) -> bool {
        &&& self.registry.wf()
        &&& self.vertex_alloc.wf()
        &&& self.ranges_held()
    }

    /// What `wf` says of the meshes' ranges.
    pub proof fn lemma_wf(&self)
        requires
            self.wf(),
        ensures
            self.ranges_held(),
            self.meshes().dom().finite(),
            lists_meshes(self.meshes(), self.dense_order()),
            forall|u: int|
                #![trigger self.free_units().contains(u)]
                self.free_units().contains(u) ==> 0 <= u < self.vertex_capacity(),
    {
        self.registry.lemma_order();
        assert forall|u: int| self.free_units().contains(u) implies 0 <= u
            < self.vertex_capacity() by {
            self.vertex_alloc.lemma_free_in_buffer(u);
        }
    }

    /// A manager without meshes, over a buffer of `STARTING_VERTICES` free units.
    pub fn new() -> (manager: Self)
        ensures
            manager.wf(),
            manager.meshes() == Map::<usize, InternalMesh>::empty(),
            manager.dense_order() == Seq::<usize>::empty(),
            manager.vertex_capacity() == STARTING_VERTICES,
            forall|u: int|
                #![trigger manager.free_units().contains(u)]
                manager.free_units().contains(u) <==> 0 <= u < STARTING_VERTICES,
    {
        MeshManager {
            registry: ResourceRegistry::new(),
            vertex_alloc: RangeAllocator::new(STARTING_VERTICES),
        }
    }

    /// Issues the handle for the next mesh. The index is the counter's value
    /// before the call; the counter is shared, so nothing is known of it.
    pub fn allocate(counter: &AtomicUsize) -> (handle: MeshHandle) {
        let idx = counter.fetch_add(1, Ordering::Relaxed);
        MeshHandle::new(idx)
    }

    /// Whether a mesh is stored for `handle`.
    pub fn contains(&self, handle: RawMeshHandle) -> (found: bool)
        requires
            self.wf(),
        ensures
            found == self.meshes().contains_key(handle.idx),
    {
        self.registry.contains(handle)
    }

    /// What is kept of the mesh of `handle`.
    pub fn internal_data(&self, handle: RawMeshHandle) -> (mesh: &InternalMesh)
        requires
            self.wf(),
            self.meshes().contains_key(handle.idx),
        ensures
            *mesh == self.meshes()[handle.idx],
    {
        self.registry.get(handle)
    }

    /// Whether room for `needed` vertices can be had: they fit as the
    /// buffer is, or the buffer can grow by them.
    pub fn has_room(&self, needed: usize) -> (room: bool)
        requires
            self.wf(),
        ensures
            room == can_place(self.free_units(), self.vertex_capacity() as int, needed as int),
    {
        if needed <= usize::MAX - self.vertex_alloc.capacity() {
            return true;
        }
        proof {
            assert(needed > 0);
        }
        self.vertex_alloc.can_allocate(needed)
    }

    /// The number of units in the vertex buffer.
    pub fn capacity(&self) -> (size: usize)
        requires
            self.wf(),
        ensures
            size == self.vertex_capacity(),
    {
        self.vertex_alloc.capacity()
    }

    /// Hands out the lowest run of `needed` free units. Where no such run
    /// exists the buffer first grows by `needed` units, in place: no range
    /// that was handed out before moves.
    fn allocate_vertices(&mut self, needed: usize) -> (range: Range<usize>)
        requires
            old(self).wf(),
            can_place(old(self).free_units(), old(self).vertex_capacity() as int, needed as int),
        ensures
            final(self).wf(),
            final(self).meshes() == old(self).meshes(),
            final(self).dense_order() == old(self).dense_order(),
            range.start == placement(
                old(self).free_units(),
                old(self).vertex_capacity() as int,
                needed as int,
            ),
            range.end == range.start + needed,
            final(self).vertex_capacity() == searched_limit(
                old(self).free_units(),
                old(self).vertex_capacity() as int,
                needed as int,
            ),
            final(self).free_units() == pool_after(
                old(self).free_units(),
                old(self).vertex_capacity() as int,
                needed as int,
            ),
            final(self).holds(range),
            forall|u: int|
                #![trigger within(range, u)]
                within(range, u) ==> old(self).free_units().contains(u) || u >= old(self).vertex_capacity(),
            forall|other: Range<usize>|
                #![trigger final(self).holds(other)]
                old(self).holds(other) ==> final(self).holds(other),
    {
        proof {
            old(self).lemma_wf();
        }
        let ghost pool = self.free_units();
        let ghost limit = self.vertex_capacity() as int;
        let ghost searched = searched_pool(pool, limit, needed as int);
        let ghost reach = searched_limit(pool, limit, needed as int);
        if needed == 0 {
            proof {
                assert(fits_in(pool, limit, 0, 0));
                assert(lowest_fit(searched, reach, 0, 0));
                assert(self.free_units() =~= pool_after(pool, limit, 0));
            }
            return 0..0;
        }
        let found = self.vertex_alloc.allocate_range(needed);
        let range = match found {
            Some(range) => {
                assert(fits_in(pool, limit, range.start as int, needed as int));
                assert(searched == pool);
                range
            },
            None => {
                assert(!exists|at: int| fits_in(pool, limit, at, needed as int));
                let size = self.vertex_alloc.capacity();
                self.vertex_alloc.grow_to(size + needed);
                let ghost grown = self.vertex_alloc@;
                assert(grown =~= searched);
                assert(fits_in(grown, limit + needed, limit, needed as int));
                let again = self.vertex_alloc.allocate_range(needed);
                again.unwrap()
            },
        };
        proof {
            assert(lowest_fit(searched, reach, range.start as int, needed as int));
            assert(range.start == placement(pool, limit, needed as int));
            assert(self.free_units() =~= pool_after(pool, limit, needed as int));
            assert forall|u: int| #[trigger] searched.contains(u) && u < limit implies pool.contains(
                u,
            ) by {}
            assert forall|k: usize| #[trigger] self.meshes().contains_key(k) implies self.holds(
                self.meshes()[k].vertex_range,
            ) by {
                let held = self.meshes()[k].vertex_range;
                assert(old(self).holds(held));
                assert forall|u: int| within(held, u) implies !self.free_units().contains(u) by {
                    if self.free_units().contains(u) {
                        assert(searched.contains(u));
                        assert(!pool.contains(u));
                    }
                }
            }
        }
        range
    }

    /// Registers `mesh` under `handle` and hands it the lowest run of free
    /// units that holds its vertices, growing the buffer where none does.
    pub fn fill(&mut self, handle: &MeshHandle, mesh: Mesh)
        requires
            old(self).wf(),
            !old(self).meshes().contains_key(handle.index()),
            can_place(
                old(self).free_units(),
                old(self).vertex_capacity() as int,
                mesh.vertex_count as int,
            ),
        ensures
            final(self).wf(),
            final(self).dense_order() == old(self).dense_order().push(handle.index()),
            final(self).meshes().dom() == old(self).meshes().dom().insert(handle.index()),
            forall|k: usize|
                #![trigger final(self).meshes()[k]]
                old(self).meshes().contains_key(k) ==> final(self).meshes()[k] == old(self).meshes()[k],
            ({
                let placed = final(self).meshes()[handle.index()];
                &&& placed.vertex_range.start == placement(
                    old(self).free_units(),
                    old(self).vertex_capacity() as int,
                    mesh.vertex_count as int,
                )
                &&& placed.vertex_range.end == placed.vertex_range.start + mesh.vertex_count
                &&& placed.num_joints == mesh.num_joints
                &&& placed.skeletons@ == Seq::<RawSkeletonHandle>::empty()
            }),
            final(self).vertex_capacity() == searched_limit(
                old(self).free_units(),
                old(self).vertex_capacity() as int,
                mesh.vertex_count as int,
            ),
            final(self).free_units() == pool_after(
                old(self).free_units(),
                old(self).vertex_capacity() as int,
                mesh.vertex_count as int,
            ),
    {
        proof {
            old(self).lemma_wf();
        }
        let vertex_range = self.allocate_vertices(mesh.vertex_count);
        let ghost mid = *self;
        let internal = InternalMesh { vertex_range, num_joints: mesh.num_joints, skeletons: Vec::new() };
        self.registry.insert(handle, internal);
        proof {
            assert(self.meshes().dom() =~= old(self).meshes().dom().insert(handle.index()));
            assert forall|k: usize| #[trigger]
                self.meshes().contains_key(k) implies self.holds(self.meshes()[k].vertex_range) by {
                if k != handle.index() {
                    assert(mid.meshes().contains_key(k));
                    assert(mid.holds(mid.meshes()[k].vertex_range));
                }
            }
            assert forall|a: usize, b: usize|
                #![trigger self.meshes()[a], self.meshes()[b]]
                self.meshes().contains_key(a) && self.meshes().contains_key(b) && a != b implies disjoint(
                self.meshes()[a].vertex_range,
                self.meshes()[b].vertex_range,
            ) by {
                let ra = self.meshes()[a].vertex_range;
                let rb = self.meshes()[b].vertex_range;
                if a != handle.index() && b != handle.index() {
                    assert(mid.meshes().contains_key(a) && mid.meshes().contains_key(b));
                    assert(disjoint(old(self).meshes()[a].vertex_range, old(self).meshes()[b].vertex_range));
                } else {
                    let other = if a == handle.index() { b } else { a };
                    let ro = self.meshes()[other].vertex_range;
                    assert(old(self).meshes().contains_key(other));
                    assert(old(self).holds(ro));
                    lemma_fresh_apart(
                        vertex_range,
                        ro,
                        old(self).free_units(),
                        old(self).vertex_capacity() as int,
                    );
                }
            }
        }
    }

    /// Hands out room for a skeleton's own copy of the vertices of `mesh`:
    /// the lowest run of free units of the mesh's size, after growing the
    /// buffer where none exists.
    pub fn allocate_skeleton_mesh(&mut self, mesh: &MeshHandle) -> (range: Range<usize>)
        requires
            old(self).wf(),
            old(self).meshes().contains_key(mesh.index()),
            can_place(
                old(self).free_units(),
                old(self).vertex_capacity() as int,
                span(old(self).meshes()[mesh.index()].vertex_range),
            ),
        ensures
            final(self).wf(),
            final(self).meshes() == old(self).meshes(),
            final(self).dense_order() == old(self).dense_order(),
            ({
                let needed = span(old(self).meshes()[mesh.index()].vertex_range);
                let pool = old(self).free_units();
                let limit = old(self).vertex_capacity() as int;
                &&& range.start == placement(pool, limit, needed)
                &&& range.end == range.start + needed
                &&& final(self).vertex_capacity() == searched_limit(pool, limit, needed)
                &&& final(self).free_units() == pool_after(pool, limit, needed)
            }),
            final(self).holds(range),
            forall|u: int|
                #![trigger within(range, u)]
                within(range, u) ==> old(self).free_units().contains(u) || u >= old(self).vertex_capacity(),
            forall|other: Range<usize>|
                #![trigger final(self).holds(other)]
                old(self).holds(other) ==> final(self).holds(other),
    {
        proof {
            old(self).lemma_wf();
        }
        let internal = self.registry.get(mesh.get_raw());
        let needed = internal.vertex_range.end - internal.vertex_range.start;
        self.allocate_vertices(needed)
    }

    /// Takes the range of a skeleton back into the free pool.
    pub fn free_skeleton_mesh(&mut self, range: Range<usize>)
        requires
            old(self).wf(),
            old(self).holds(range),
            forall|k: usize| #[trigger]
                old(self).meshes().contains_key(k) ==> disjoint(
                    old(self).meshes()[k].vertex_range,
                    range,
                ),
        ensures
            final(self).wf(),
            final(self).meshes() == old(self).meshes(),
            final(self).dense_order() == old(self).dense_order(),
            final(self).vertex_capacity() == old(self).vertex_capacity(),
            final(self).free_units() == old(self).free_units().union(units(range)),
    {
        proof {
            old(self).lemma_wf();
        }
        if range.start >= range.end {
            assert(self.free_units() =~= old(self).free_units().union(units(range)));
            return ;
        }
        self.vertex_alloc.free_range(range);
        proof {
            assert(self.free_units() =~= old(self).free_units().union(units(range)));
            assert forall|k: usize| #[trigger] self.meshes().contains_key(k) implies self.holds(
                self.meshes()[k].vertex_range,
            ) by {
                let held = self.meshes()[k].vertex_range;
                assert(old(self).holds(held));
                assert(disjoint(held, range));
            }
        }
    }

    /// Records that `skeleton` deforms the mesh of `mesh`.
    pub fn add_skeleton(&mut self, mesh: RawMeshHandle, skeleton: RawSkeletonHandle)
        requires
            old(self).wf(),
            old(self).meshes().contains_key(mesh.idx),
        ensures
            final(self).wf(),
            final(self).vertex_capacity() == old(self).vertex_capacity(),
            final(self).free_units() == old(self).free_units(),
            final(self).dense_order() == old(self).dense_order(),
            final(self).meshes().dom() == old(self).meshes().dom(),
            forall|k: usize|
                #![trigger final(self).meshes()[k]]
                old(self).meshes().contains_key(k) && k != mesh.idx ==> final(self).meshes()[k]
                    == old(self).meshes()[k],
            ({
                let before = old(self).meshes()[mesh.idx];
                let after = final(self).meshes()[mesh.idx];
                &&& after.vertex_range == before.vertex_range
                &&& after.num_joints == before.num_joints
                &&& after.skeletons@ == before.skeletons@.push(skeleton)
            }),
    {
        proof {
            old(self).lemma_wf();
        }
        let internal = self.registry.get_mut(mesh);
        internal.skeletons.push(skeleton);
        proof {
            assert(self.meshes().dom() =~= old(self).meshes().dom());
            assert forall|k: usize| #[trigger] self.meshes().contains_key(k) implies self.holds(
                self.meshes()[k].vertex_range,
            ) by {
                assert(old(self).holds(old(self).meshes()[k].vertex_range));
            }
            assert forall|a: usize, b: usize|
                #![trigger self.meshes()[a], self.meshes()[b]]
                self.meshes().contains_key(a) && self.meshes().contains_key(b) && a != b implies disjoint(
                self.meshes()[a].vertex_range,
                self.meshes()[b].vertex_range,
            ) by {
                assert(disjoint(old(self).meshes()[a].vertex_range, old(self).meshes()[b].vertex_range));
            }
        }
    }

    /// Strikes `skeleton` from the skeletons that deform the mesh of `mesh`:
    /// the last of them takes the place of its first mention.
    pub fn remove_skeleton(&mut self, mesh: RawMeshHandle, skeleton: RawSkeletonHandle)
        requires
            old(self).wf(),
            old(self).meshes().contains_key(mesh.idx),
            refers_to(old(self).meshes()[mesh.idx].skeletons@, skeleton.idx),
        ensures
            final(self).wf(),
            final(self).vertex_capacity() == old(self).vertex_capacity(),
            final(self).free_units() == old(self).free_units(),
            final(self).dense_order() == old(self).dense_order(),
            final(self).meshes().dom() == old(self).meshes().dom(),
            forall|k: usize|
                #![trigger final(self).meshes()[k]]
                old(self).meshes().contains_key(k) && k != mesh.idx ==> final(self).meshes()[k]
                    == old(self).meshes()[k],
            ({
                let before = old(self).meshes()[mesh.idx];
                let after = final(self).meshes()[mesh.idx];
                &&& after.vertex_range == before.vertex_range
                &&& after.num_joints == before.num_joints
                &&& after.skeletons@ == without_ref(
                    before.skeletons@,
                    first_position(before.skeletons@, skeleton.idx),
                )
            }),
    {
        proof {
            old(self).lemma_wf();
        }
        let internal = self.registry.get_mut(mesh);
        let ghost refs = internal.skeletons@;
        let count = internal.skeletons.len();
        let mut pos: usize = 0;
        while internal.skeletons[pos].idx != skeleton.idx
            invariant
                internal.skeletons@ == refs,
                refers_to(refs, skeleton.idx),
                pos < refs.len() == count,
                forall|j: int| 0 <= j < pos ==> (#[trigger] refs[j]).idx != skeleton.idx,
            decreases refs.len() - pos,
        {
            pos += 1;
            proof {
                let w = choose|i: int| 0 <= i < refs.len() && (#[trigger] refs[i]).idx == skeleton.idx;
                assert(w >= pos);
            }
        }
        proof {
            reveal(first_position);
            let first = first_position(refs, skeleton.idx);
            assert(refs[pos as int].idx == skeleton.idx);
            if first < pos {
                assert(refs[first].idx != skeleton.idx);
            } else if first > pos {
                assert(refs[pos as int].idx != skeleton.idx);
            }
            assert(first == pos);
        }
        internal.skeletons.swap_remove(pos);
        proof {
            assert(self.meshes().dom() =~= old(self).meshes().dom());
            assert forall|k: usize| #[trigger] self.meshes().contains_key(k) implies self.holds(
                self.meshes()[k].vertex_range,
            ) by {
                assert(old(self).holds(old(self).meshes()[k].vertex_range));
            }
            assert forall|a: usize, b: usize|
                #![trigger self.meshes()[a], self.meshes()[b]]
                self.meshes().contains_key(a) && self.meshes().contains_key(b) && a != b implies disjoint(
                self.meshes()[a].vertex_range,
                self.meshes()[b].vertex_range,
            ) by {
                assert(disjoint(old(self).meshes()[a].vertex_range, old(self).meshes()[b].vertex_range));
            }
        }
    }

    /// Moves every range to the front of the buffer: the meshes in dense
    /// order, each followed by the skeletons it lists. Each skeleton is
    /// told its new range and that of its mesh; all that lies behind the
    /// last range is free afterwards. The moves come back in the order of
    /// the new layout, for whoever holds the vertex data.
    pub fn compact(&mut self, skeleton_manager: &mut SkeletonManager) -> (moves: Vec<Relocation>)
        requires
            old(self).wf(),
            old(skeleton_manager).wf(),
            old(skeleton_manager).agrees(old(self)),
        ensures
            final(self).wf(),
            final(skeleton_manager).wf(),
            final(skeleton_manager).agrees(final(self)),
            final(self).vertex_capacity() == old(self).vertex_capacity(),
            final(self).dense_order() == old(self).dense_order(),
            final(skeleton_manager).dense_order() == old(skeleton_manager).dense_order(),
            final(skeleton_manager).joint_count() == old(skeleton_manager).joint_count(),
            meshes_moved(
                old(self).meshes(),
                old(self).dense_order(),
                old(self).dense_order().len() as int,
                final(self).meshes(),
            ),
            skeletons_moved(
                old(skeleton_manager)@,
                old(self).meshes(),
                old(self).dense_order(),
                old(self).dense_order().len() as int,
                0,
                final(skeleton_manager)@,
            ),
            forall|u: int|
                #![trigger final(self).free_units().contains(u)]
                final(self).free_units().contains(u) <==> slot_start(
                    old(self).meshes(),
                    old(self).dense_order(),
                    old(self).dense_order().len() as int,
                    0,
                ) <= u < old(self).vertex_capacity(),
            moves_listed(
                old(skeleton_manager)@,
                old(self).meshes(),
                old(self).dense_order(),
                old(self).dense_order().len() as int,
                0,
                moves@,
            ),
    {
        proof {
            old(self).lemma_wf();
        }
        let mut moves: Vec<Relocation> = Vec::new();
        let ghost s0 = skeleton_manager@;
        let ghost m0 = self.meshes();
        let ghost order = self.dense_order();
        let ghost pool0 = self.free_units();
        let capacity = self.vertex_alloc.capacity();
        let count = self.registry.count();
        let mut cursor: usize = 0;
        let ghost mut seen = Set::<int>::empty();
        let mut i: usize = 0;
        proof {
            assert(self.registry@ =~= m0);
        }
        while i < count
            invariant
                i <= count == order.len(),
                capacity <= usize::MAX,
                self.registry.wf(),
                self.registry.order() == order,
                coherent_before(s0, m0, pool0, capacity as int, order),
                skeleton_manager.wf(),
                skeleton_manager.dense_order() == old(skeleton_manager).dense_order(),
                skeleton_manager.joint_count() == old(skeleton_manager).joint_count(),
                meshes_moved(m0, order, i as int, self.registry@),
                skeletons_moved(s0, m0, order, i as int, 0, skeleton_manager@),
                cursor == slot_start(m0, order, i as int, 0),
                cursor <= capacity,
                counted(s0, m0, order, capacity as int, i as int, 0, seen, cursor as int),
                moves_listed(s0, m0, order, i as int, 0, moves@),
            decreases count - i,
        {
            let mesh = self.registry.value_at(i);
            let refs_len = mesh.skeletons.len();
            proof {
                assert(mesh.vertex_range == m0[order[i as int]].vertex_range);
                lemma_count_slot(s0, m0, pool0, capacity as int, order, i as int, 0, seen, cursor as int);
                seen = seen.union(units(old_slot(s0, m0, order, i as int, 0)));
                lemma_skeletons_start(s0, m0, order, i as int, skeleton_manager@);
            }
            let len = mesh.vertex_range.end - mesh.vertex_range.start;
            let mesh_range = cursor..cursor + len;
            let ghost listed = moves@;
            moves.push(
                Relocation {
                    from: mesh.vertex_range.start..mesh.vertex_range.end,
                    to: cursor..cursor + len,
                },
            );
            proof {
                assert(moves@.drop_last() =~= listed);
                lemma_move_pushed(s0, m0, order, i as int, 0, listed, moves@);
            }
            cursor += len;
            let mut j: usize = 0;
            while j < refs_len
                invariant
                    i < count == order.len(),
                    capacity <= usize::MAX,
                    self.registry.wf(),
                    self.registry.order() == order,
                    coherent_before(s0, m0, pool0, capacity as int, order),
                    skeleton_manager.wf(),
                    skeleton_manager.dense_order() == old(skeleton_manager).dense_order(),
                    skeleton_manager.joint_count() == old(skeleton_manager).joint_count(),
                    meshes_moved(m0, order, i as int, self.registry@),
                    j <= refs_len == m0[order[i as int]].skeletons@.len(),
                    len == width(m0, order, i as int),
                    mesh_range == new_slot(m0, order, i as int, 0),
                    skeletons_moved(s0, m0, order, i as int, j + 1, skeleton_manager@),
                    cursor == slot_start(m0, order, i as int, j + 1),
                    cursor <= capacity,
                    counted(s0, m0, order, capacity as int, i as int, j + 1, seen, cursor as int),
                    moves_listed(s0, m0, order, i as int, j + 1, moves@),
                decreases refs_len - j,
            {
                let handle = self.registry.value_at(i).skeletons[j];
                let ghost now = skeleton_manager@;
                proof {
                    assert(handle == m0[order[i as int]].skeletons@[j as int]);
                    lemma_count_slot(
                        s0,
                        m0,
                        pool0,
                        capacity as int,
                        order,
                        i as int,
                        j + 1,
                        seen,
                        cursor as int,
                    );
                    seen = seen.union(units(old_slot(s0, m0, order, i as int, j + 1)));
                    assert(!earlier(i as int, j + 1, i as int, j + 1));
                    assert(now[handle.idx] == s0[handle.idx]);
                    assert(backed(m0[order[i as int]].skeletons@, j as int, order[i as int], s0));
                }
                let range = cursor..cursor + len;
                let owned = skeleton_manager.internal_data(handle);
                let ghost listed = moves@;
                moves.push(
                    Relocation {
                        from: owned.skeleton_vertex_range.start..owned.skeleton_vertex_range.end,
                        to: cursor..cursor + len,
                    },
                );
                skeleton_manager.set_skeleton_range(handle, &range, &mesh_range);
                cursor += len;
                proof {
                    assert(range == new_slot(m0, order, i as int, j + 1));
                    assert(moves@.drop_last() =~= listed);
                    lemma_move_pushed(s0, m0, order, i as int, j + 1, listed, moves@);
                    lemma_skeleton_step(
                        s0,
                        m0,
                        pool0,
                        capacity as int,
                        order,
                        i as int,
                        j as int,
                        now,
                        skeleton_manager@,
                    );
                }
                j += 1;
            }
            let ghost now = self.registry@;
            let internal = self.registry.value_at_mut(i);
            internal.vertex_range = mesh_range;
            proof {
                assert(self.registry@.dom() =~= now.dom());
                lemma_count_next_mesh(s0, m0, order, capacity as int, i as int, seen, cursor as int);
                lemma_moves_next_mesh(s0, m0, order, i as int, moves@);
                lemma_mesh_step(s0, m0, order, i as int, now, self.registry@, skeleton_manager@);
            }
            i += 1;
        }
        let mut fresh = RangeAllocator::new(capacity);
        if cursor > 0 {
            proof {
                assert(fits_in(fresh@, capacity as int, 0, cursor as int));
                assert(lowest_fit(fresh@, capacity as int, 0, cursor as int));
            }
            let taken = fresh.allocate_range(cursor);
            assert(taken is Some && taken->0.start == 0);
        }
        self.vertex_alloc = fresh;
        proof {
            assert forall|u: int| self.free_units().contains(u) <==> cursor <= u < capacity by {}
            lemma_compacted(
                s0,
                m0,
                pool0,
                capacity as int,
                order,
                skeleton_manager@,
                self.meshes(),
                self.free_units(),
            );
        }
        moves
    }
}

/// What compaction starts from: skeletons, meshes and buffer agree, the
/// meshes' ranges are handed out, and `order` lists the meshes.
pub open spec fn coherent_before(
    skeletons: Map<usize, InternalSkeleton>,
    meshes: Map<usize, InternalMesh>,
    pool: Set<int>,
    limit: int,
    order: Seq<usize>,
) -> bool {
    &&& coherent(skeletons, meshes, pool, limit)
    &&& held_apart(meshes, pool, limit)
    &&& lists_meshes(meshes, order)
}

/// The number of units in `range`, none where it ends before it starts.
pub open spec fn span(range: Range<usize>) -> int {
    if range.start <= range.end {
        range.end - range.start
    } else {
        0
    }
}

} // verus!
