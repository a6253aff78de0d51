//! When skeletons, meshes and the vertex buffer agree, and why creating
//! and reclaiming a skeleton keeps them in agreement.

use crate::mesh::{first_position, refers_to, span, units, without_ref, InternalMesh};
use crate::range_alloc::{disjoint, held, lemma_fresh_apart, within};
use crate::skeleton::{packed, InternalSkeleton};
use crate::types::{uvec2_parts, RawSkeletonHandle};
use std::ops::Range;
use vstd::prelude::*;

verus! {

/// Whether the skeleton stored under `k` fits its mesh: the mesh is
/// registered and lists `k`, has as many joints as the skeleton has
/// matrices, and lies where the skeleton's packed record says; and the
/// skeleton's own range is as long as the mesh's and is handed out.
pub open spec fn attached(
    skeleton: InternalSkeleton,
    k: usize,
    meshes: Map<usize, InternalMesh>,
    pool: Set<int>,
    limit: int,
) -> bool {
    let m = skeleton.mesh_handle.index();
    &&& meshes.contains_key(m)
    &&& refers_to(meshes[m].skeletons@, k)
    &&& skeleton.joint_matrices@.len() == meshes[m].num_joints
    &&& uvec2_parts(skeleton.ranges.mesh_range) == packed(meshes[m].vertex_range)
    &&& span(skeleton.skeleton_vertex_range) == span(meshes[m].vertex_range)
    &&& held(pool, limit, skeleton.skeleton_vertex_range)
}

/// Whether entry `i` of the back-references `refs` of mesh `m` names a
/// stored skeleton over `m`, and names it only there.
pub open spec fn backed(
    refs: Seq<RawSkeletonHandle>,
    i: int,
    m: usize,
    skeletons: Map<usize, InternalSkeleton>,
) -> bool {
    &&& skeletons.contains_key(refs[i].idx)
    &&& skeletons[refs[i].idx].mesh_handle.index() == m
    &&& forall|j: int| 0 <= j < refs.len() && j != i ==> (#[trigger] refs[j]).idx != refs[i].idx
}

/// Whether every stored skeleton fits its mesh.
pub open spec fn all_attached(
    skeletons: Map<usize, InternalSkeleton>,
    meshes: Map<usize, InternalMesh>,
    pool: Set<int>,
    limit: int,
) -> bool {
    forall|k: usize| #[trigger]
        skeletons.contains_key(k) ==> attached(skeletons[k], k, meshes, pool, limit)
}

/// Whether every back-reference of every mesh names a stored skeleton
/// over that mesh, and names it once.
pub open spec fn all_backed(
    skeletons: Map<usize, InternalSkeleton>,
    meshes: Map<usize, InternalMesh>,
) -> bool {
    forall|m: usize, i: int|
        #![trigger meshes[m].skeletons@[i]]
        meshes.contains_key(m) && 0 <= i < meshes[m].skeletons@.len() ==> backed(
            meshes[m].skeletons@,
            i,
            m,
            skeletons,
        )
}

/// Whether no two skeletons share a unit of the vertex buffer.
pub open spec fn ranges_apart(skeletons: Map<usize, InternalSkeleton>) -> bool {
    forall|a: usize, b: usize|
        #![trigger skeletons[a], skeletons[b]]
        skeletons.contains_key(a) && skeletons.contains_key(b) && a != b ==> disjoint(
            skeletons[a].skeleton_vertex_range,
            skeletons[b].skeleton_vertex_range,
        )
}

/// Whether no skeleton shares a unit of the vertex buffer with a mesh.
pub open spec fn clear_of_meshes(
    skeletons: Map<usize, InternalSkeleton>,
    meshes: Map<usize, InternalMesh>,
) -> bool {
    forall|k: usize, m: usize|
        #![trigger skeletons[k], meshes[m]]
        skeletons.contains_key(k) && meshes.contains_key(m) ==> disjoint(
            skeletons[k].skeleton_vertex_range,
            meshes[m].vertex_range,
        )
}

/// Whether skeletons, meshes and the free pool of the vertex buffer agree:
/// a mesh lists a skeleton exactly where the skeleton is stored and
/// deforms that mesh, and the skeletons' ranges are handed out and share
/// no unit with each other or with a mesh.
pub open spec fn coherent(
    skeletons: Map<usize, InternalSkeleton>,
    meshes: Map<usize, InternalMesh>,
    pool: Set<int>,
    limit: int,
) -> bool {
    &&& all_attached(skeletons, meshes, pool, limit)
    &&& all_backed(skeletons, meshes)
    &&& ranges_apart(skeletons)
    &&& clear_of_meshes(skeletons, meshes)
}

/// Whether `after` is `before` with the back-references of mesh `m`
/// replaced by `refs` and all else as it was.
pub open spec fn only_refs_changed(
    before: Map<usize, InternalMesh>,
    after: Map<usize, InternalMesh>,
    m: usize,
    refs: Seq<RawSkeletonHandle>,
) -> bool {
    &&& after.dom() == before.dom()
    &&& forall|other: usize|
        #![trigger after[other]]
        before.contains_key(other) && other != m ==> after[other] == before[other]
    &&& after[m].vertex_range == before[m].vertex_range
    &&& after[m].num_joints == before[m].num_joints
    &&& after[m].skeletons@ == refs
}

/// What a sweep leaves: the skeletons in `dead` are gone, no mesh lists
/// one of them, and their ranges are back in the free pool. Nothing else
/// has changed.
pub open spec fn swept(
    before: Map<usize, InternalSkeleton>,
    meshes_before: Map<usize, InternalMesh>,
    pool_before: Set<int>,
    dead: Set<usize>,
    after: Map<usize, InternalSkeleton>,
    meshes_after: Map<usize, InternalMesh>,
    pool_after: Set<int>,
) -> bool {
    &&& after == before.remove_keys(dead)
    &&& meshes_after.dom() == meshes_before.dom()
    &&& forall|m: usize| #[trigger]
        meshes_before.contains_key(m) ==> {
            &&& meshes_after[m].vertex_range == meshes_before[m].vertex_range
            &&& meshes_after[m].num_joints == meshes_before[m].num_joints
            &&& forall|idx: usize|
                #![trigger refers_to(meshes_after[m].skeletons@, idx)]
                refers_to(meshes_after[m].skeletons@, idx) <==> refers_to(
                    meshes_before[m].skeletons@,
                    idx,
                ) && !dead.contains(idx)
        }
    &&& forall|u: int|
        #![trigger pool_after.contains(u)]
        pool_after.contains(u) <==> pool_before.contains(u) || returned(before, dead, u)
}

/// Whether `u` lies in the range of one of the skeletons in `dead`.
pub open spec fn returned(before: Map<usize, InternalSkeleton>, dead: Set<usize>, u: int) -> bool {
    exists|k: usize|
        dead.contains(k) && before.contains_key(k) && within(
            (#[trigger] before[k]).skeleton_vertex_range,
            u,
        )
}

/// A new skeleton that fits its mesh, over a range that was free, keeps
/// everything in agreement.
pub proof fn lemma_attach(
    skeletons: Map<usize, InternalSkeleton>,
    meshes: Map<usize, InternalMesh>,
    pool: Set<int>,
    limit: int,
    k: usize,
    skeleton: InternalSkeleton,
    reference: RawSkeletonHandle,
    meshes_after: Map<usize, InternalMesh>,
    pool_after: Set<int>,
    limit_after: int,
)
    requires
        coherent(skeletons, meshes, pool, limit),
        forall|m: usize| #[trigger] meshes.contains_key(m) ==> held(pool, limit, meshes[m].vertex_range),
        !skeletons.contains_key(k),
        reference.idx == k,
        meshes.contains_key(skeleton.mesh_handle.index()),
        only_refs_changed(
            meshes,
            meshes_after,
            skeleton.mesh_handle.index(),
            meshes[skeleton.mesh_handle.index()].skeletons@.push(reference),
        ),
        skeleton.joint_matrices@.len() == meshes[skeleton.mesh_handle.index()].num_joints,
        uvec2_parts(skeleton.ranges.mesh_range) == packed(
            meshes[skeleton.mesh_handle.index()].vertex_range,
        ),
        span(skeleton.skeleton_vertex_range) == span(
            meshes[skeleton.mesh_handle.index()].vertex_range,
        ),
        held(pool_after, limit_after, skeleton.skeleton_vertex_range),
        forall|u: int|
            #![trigger within(skeleton.skeleton_vertex_range, u)]
            within(skeleton.skeleton_vertex_range, u) ==> pool.contains(u) || u >= limit,
        forall|other: Range<usize>|
            #![trigger held(pool_after, limit_after, other)]
            held(pool, limit, other) ==> held(pool_after, limit_after, other),
    ensures
        coherent(skeletons.insert(k, skeleton), meshes_after, pool_after, limit_after),
{
    let m0 = skeleton.mesh_handle.index();
    let after = skeletons.insert(k, skeleton);
    let refs = meshes[m0].skeletons@;
    let refs_after = meshes_after[m0].skeletons@;
    assert forall|j: usize| #[trigger] after.contains_key(j) implies attached(
        after[j],
        j,
        meshes_after,
        pool_after,
        limit_after,
    ) by {
        if j == k {
            assert(refs_after[refs.len() as int].idx == k);
        } else {
            assert(attached(skeletons[j], j, meshes, pool, limit));
            let m = skeletons[j].mesh_handle.index();
            if m == m0 {
                let i = choose|i: int| 0 <= i < refs.len() && (#[trigger] refs[i]).idx == j;
                assert(refs_after[i].idx == j);
            } else {
                assert(meshes_after[m] == meshes[m]);
            }
            assert(held(pool_after, limit_after, skeletons[j].skeleton_vertex_range));
        }
    }
    assert forall|m: usize, i: int|
        #![trigger meshes_after[m].skeletons@[i]]
        meshes_after.contains_key(m) && 0 <= i < meshes_after[m].skeletons@.len() implies backed(
        meshes_after[m].skeletons@,
        i,
        m,
        after,
    ) by {
        if m != m0 {
            assert(meshes_after[m] == meshes[m]);
            assert(backed(meshes[m].skeletons@, i, m, skeletons));
        } else if i < refs.len() {
            assert(refs_after[i] == refs[i]);
            assert(backed(refs, i, m, skeletons));
            assert forall|j: int| 0 <= j < refs_after.len() && j != i implies (
            #[trigger] refs_after[j]).idx != refs_after[i].idx by {
                if j < refs.len() {
                    assert(refs_after[j] == refs[j]);
                }
            }
        } else {
            assert forall|j: int| 0 <= j < refs_after.len() && j != i implies (
            #[trigger] refs_after[j]).idx != refs_after[i].idx by {
                assert(refs_after[j] == refs[j]);
                assert(backed(refs, j, m, skeletons));
            }
        }
    }
    assert forall|a: usize, b: usize|
        #![trigger after[a], after[b]]
        after.contains_key(a) && after.contains_key(b) && a != b implies disjoint(
        after[a].skeleton_vertex_range,
        after[b].skeleton_vertex_range,
    ) by {
        if a != k && b != k {
            assert(disjoint(skeletons[a].skeleton_vertex_range, skeletons[b].skeleton_vertex_range));
        } else {
            let other = if a == k { b } else { a };
            assert(attached(skeletons[other], other, meshes, pool, limit));
            lemma_fresh_apart(
                skeleton.skeleton_vertex_range,
                skeletons[other].skeleton_vertex_range,
                pool,
                limit,
            );
        }
    }
    assert forall|j: usize, m: usize|
        #![trigger after[j], meshes_after[m]]
        after.contains_key(j) && meshes_after.contains_key(m) implies disjoint(
        after[j].skeleton_vertex_range,
        meshes_after[m].vertex_range,
    ) by {
        assert(meshes_after[m].vertex_range == meshes[m].vertex_range);
        if j != k {
            assert(disjoint(skeletons[j].skeleton_vertex_range, meshes[m].vertex_range));
        } else {
            lemma_fresh_apart(skeleton.skeleton_vertex_range, meshes[m].vertex_range, pool, limit);
        }
    }
}

/// Whether no two entries of `refs` name the same skeleton.
pub open spec fn distinct_refs(refs: Seq<RawSkeletonHandle>) -> bool {
    forall|i: int, j: int|
        0 <= i < refs.len() && 0 <= j < refs.len() && i != j ==> (#[trigger] refs[i]).idx != (
        #[trigger] refs[j]).idx
}

/// Where `k` occurs among `refs` it has a first occurrence.
proof fn lemma_first_exists(refs: Seq<RawSkeletonHandle>, k: usize, w: int)
    requires
        0 <= w < refs.len(),
        refs[w].idx == k,
    ensures
        exists|i: int|
            0 <= i < refs.len() && (#[trigger] refs[i]).idx == k && forall|j: int|
                0 <= j < i ==> (#[trigger] refs[j]).idx != k,
    decreases w,
{
    if exists|j: int| 0 <= j < w && (#[trigger] refs[j]).idx == k {
        let j = choose|j: int| 0 <= j < w && (#[trigger] refs[j]).idx == k;
        lemma_first_exists(refs, k, j);
    } else {
        assert(forall|j: int| 0 <= j < w ==> (#[trigger] refs[j]).idx != k);
    }
}

/// The first position of a name that occurs is a position of that name.
pub proof fn lemma_first_position(refs: Seq<RawSkeletonHandle>, k: usize)
    requires
        refers_to(refs, k),
    ensures
        0 <= first_position(refs, k) < refs.len(),
        refs[first_position(refs, k)].idx == k,
{
    reveal(first_position);
    let w = choose|i: int| 0 <= i < refs.len() && (#[trigger] refs[i]).idx == k;
    lemma_first_exists(refs, k, w);
}

/// Taking the entry at `p` out of `refs`, which names each skeleton once,
/// leaves the names of all the others, each once, and not the name at `p`.
pub proof fn lemma_without_ref(refs: Seq<RawSkeletonHandle>, p: int, after: Seq<RawSkeletonHandle>)
    requires
        0 <= p < refs.len(),
        distinct_refs(refs),
        after == without_ref(refs, p),
    ensures
        distinct_refs(after),
        forall|idx: usize|
            #![trigger refers_to(after, idx)]
            refers_to(after, idx) <==> refers_to(refs, idx) && idx != refs[p].idx,
        forall|i: int|
            0 <= i < after.len() ==> #[trigger] after[i] == refs[if i == p {
                refs.len() - 1
            } else {
                i
            }],
{
    let last = refs.len() - 1;
    assert forall|i: int| 0 <= i < after.len() implies #[trigger] after[i] == refs[if i == p {
        last
    } else {
        i
    }] by {}
    assert forall|idx: usize|
        #![trigger refers_to(after, idx)]
        refers_to(after, idx) <==> refers_to(refs, idx) && idx != refs[p].idx by {
        if refers_to(after, idx) {
            let i = choose|i: int| 0 <= i < after.len() && (#[trigger] after[i]).idx == idx;
            let j = if i == p { last } else { i };
            assert(refs[j].idx == idx);
            assert(j != p);
        }
        if refers_to(refs, idx) && idx != refs[p].idx {
            let j = choose|j: int| 0 <= j < refs.len() && (#[trigger] refs[j]).idx == idx;
            let i = if j == last { p } else { j };
            assert(after[i].idx == idx);
        }
    }
    assert forall|i: int, j: int|
        0 <= i < after.len() && 0 <= j < after.len() && i != j implies (#[trigger] after[i]).idx != (
    #[trigger] after[j]).idx by {
        let i0 = if i == p { last } else { i };
        let j0 = if j == p { last } else { j };
        assert(refs[i0].idx != refs[j0].idx);
    }
}

/// A skeleton that leaves, with its back-reference struck and its range
/// given back, leaves the rest in agreement.
pub proof fn lemma_detach(
    skeletons: Map<usize, InternalSkeleton>,
    meshes: Map<usize, InternalMesh>,
    pool: Set<int>,
    limit: int,
    k: usize,
    meshes_after: Map<usize, InternalMesh>,
    pool_after: Set<int>,
)
    requires
        coherent(skeletons, meshes, pool, limit),
        skeletons.contains_key(k),
        only_refs_changed(
            meshes,
            meshes_after,
            skeletons[k].mesh_handle.index(),
            without_ref(
                meshes[skeletons[k].mesh_handle.index()].skeletons@,
                first_position(meshes[skeletons[k].mesh_handle.index()].skeletons@, k),
            ),
        ),
        pool_after == pool.union(units(skeletons[k].skeleton_vertex_range)),
    ensures
        coherent(skeletons.remove(k), meshes_after, pool_after, limit),
        forall|m: usize, idx: usize|
            #![trigger refers_to(meshes_after[m].skeletons@, idx)]
            meshes.contains_key(m) ==> (refers_to(meshes_after[m].skeletons@, idx) <==> refers_to(
                meshes[m].skeletons@,
                idx,
            ) && idx != k),
{
    let after = skeletons.remove(k);
    assert(attached(skeletons[k], k, meshes, pool, limit));
    lemma_detach_names(skeletons, meshes, k, meshes_after);
    lemma_detach_attached(skeletons, meshes, pool, limit, k, meshes_after, pool_after);
    lemma_detach_backed(skeletons, meshes, k, meshes_after);
    assert(ranges_apart(after)) by {
        assert forall|a: usize, b: usize|
            #![trigger after[a], after[b]]
            after.contains_key(a) && after.contains_key(b) && a != b implies disjoint(
            after[a].skeleton_vertex_range,
            after[b].skeleton_vertex_range,
        ) by {
            assert(disjoint(skeletons[a].skeleton_vertex_range, skeletons[b].skeleton_vertex_range));
        }
    }
    assert(clear_of_meshes(after, meshes_after)) by {
        assert forall|j: usize, m: usize|
            #![trigger after[j], meshes_after[m]]
            after.contains_key(j) && meshes_after.contains_key(m) implies disjoint(
            after[j].skeleton_vertex_range,
            meshes_after[m].vertex_range,
        ) by {
            assert(meshes_after[m].vertex_range == meshes[m].vertex_range);
            assert(disjoint(skeletons[j].skeleton_vertex_range, meshes[m].vertex_range));
        }
    }
}

/// The skeletons that stay still fit their meshes.
proof fn lemma_detach_attached(
    skeletons: Map<usize, InternalSkeleton>,
    meshes: Map<usize, InternalMesh>,
    pool: Set<int>,
    limit: int,
    k: usize,
    meshes_after: Map<usize, InternalMesh>,
    pool_after: Set<int>,
)
    requires
        all_attached(skeletons, meshes, pool, limit),
        ranges_apart(skeletons),
        skeletons.contains_key(k),
        meshes_after.dom() == meshes.dom(),
        forall|m: usize| #[trigger]
            meshes.contains_key(m) ==> meshes_after[m].vertex_range == meshes[m].vertex_range
                && meshes_after[m].num_joints == meshes[m].num_joints,
        forall|m: usize, idx: usize|
            #![trigger refers_to(meshes_after[m].skeletons@, idx)]
            meshes.contains_key(m) ==> (refers_to(meshes_after[m].skeletons@, idx) <==> refers_to(
                meshes[m].skeletons@,
                idx,
            ) && idx != k),
        pool_after == pool.union(units(skeletons[k].skeleton_vertex_range)),
    ensures
        all_attached(skeletons.remove(k), meshes_after, pool_after, limit),
{
    let after = skeletons.remove(k);
    assert forall|j: usize| #[trigger] after.contains_key(j) implies attached(
        after[j],
        j,
        meshes_after,
        pool_after,
        limit,
    ) by {
        assert(attached(skeletons[j], j, meshes, pool, limit));
        let m = skeletons[j].mesh_handle.index();
        assert(meshes.contains_key(m));
        assert(refers_to(meshes_after[m].skeletons@, j));
        assert(disjoint(skeletons[j].skeleton_vertex_range, skeletons[k].skeleton_vertex_range));
    }
}

/// The back-references that stay still name stored skeletons, each once.
proof fn lemma_detach_backed(
    skeletons: Map<usize, InternalSkeleton>,
    meshes: Map<usize, InternalMesh>,
    k: usize,
    meshes_after: Map<usize, InternalMesh>,
)
    requires
        all_backed(skeletons, meshes),
        skeletons.contains_key(k),
        meshes.contains_key(skeletons[k].mesh_handle.index()),
        refers_to(meshes[skeletons[k].mesh_handle.index()].skeletons@, k),
        only_refs_changed(
            meshes,
            meshes_after,
            skeletons[k].mesh_handle.index(),
            without_ref(
                meshes[skeletons[k].mesh_handle.index()].skeletons@,
                first_position(meshes[skeletons[k].mesh_handle.index()].skeletons@, k),
            ),
        ),
    ensures
        all_backed(skeletons.remove(k), meshes_after),
{
    let m0 = skeletons[k].mesh_handle.index();
    let after = skeletons.remove(k);
    let refs = meshes[m0].skeletons@;
    let refs_after = meshes_after[m0].skeletons@;
    let p = first_position(refs, k);
    let last = refs.len() - 1;
    lemma_first_position(refs, k);
    assert(distinct_refs(refs)) by {
        assert forall|i: int, j: int|
            0 <= i < refs.len() && 0 <= j < refs.len() && i != j implies (#[trigger] refs[i]).idx
            != (#[trigger] refs[j]).idx by {
            assert(backed(refs, i, m0, skeletons));
        }
    }
    lemma_without_ref(refs, p, refs_after);
    assert forall|m: usize, i: int|
        #![trigger meshes_after[m].skeletons@[i]]
        meshes_after.contains_key(m) && 0 <= i < meshes_after[m].skeletons@.len() implies backed(
        meshes_after[m].skeletons@,
        i,
        m,
        after,
    ) by {
        if m != m0 {
            assert(meshes_after[m] == meshes[m]);
            assert(backed(meshes[m].skeletons@, i, m, skeletons));
        } else {
            let j = if i == p { last } else { i };
            assert(refs_after[i] == refs[j]);
            assert(backed(refs, j, m, skeletons));
            assert(refs[j].idx != refs[p].idx);
        }
    }
}

/// After the back-reference to `k` is struck, every mesh lists the
/// skeletons it listed before, but for `k`.
proof fn lemma_detach_names(
    skeletons: Map<usize, InternalSkeleton>,
    meshes: Map<usize, InternalMesh>,
    k: usize,
    meshes_after: Map<usize, InternalMesh>,
)
    requires
        all_backed(skeletons, meshes),
        skeletons.contains_key(k),
        meshes.contains_key(skeletons[k].mesh_handle.index()),
        refers_to(meshes[skeletons[k].mesh_handle.index()].skeletons@, k),
        only_refs_changed(
            meshes,
            meshes_after,
            skeletons[k].mesh_handle.index(),
            without_ref(
                meshes[skeletons[k].mesh_handle.index()].skeletons@,
                first_position(meshes[skeletons[k].mesh_handle.index()].skeletons@, k),
            ),
        ),
    ensures
        forall|m: usize, idx: usize|
            #![trigger refers_to(meshes_after[m].skeletons@, idx)]
            meshes.contains_key(m) ==> (refers_to(meshes_after[m].skeletons@, idx) <==> refers_to(
                meshes[m].skeletons@,
                idx,
            ) && idx != k),
{
    let m0 = skeletons[k].mesh_handle.index();
    let refs = meshes[m0].skeletons@;
    let p = first_position(refs, k);
    lemma_first_position(refs, k);
    assert(distinct_refs(refs)) by {
        assert forall|i: int, j: int|
            0 <= i < refs.len() && 0 <= j < refs.len() && i != j implies (#[trigger] refs[i]).idx
            != (#[trigger] refs[j]).idx by {
            assert(backed(refs, i, m0, skeletons));
        }
    }
    lemma_without_ref(refs, p, meshes_after[m0].skeletons@);
    assert forall|m: usize, idx: usize|
        #![trigger refers_to(meshes_after[m].skeletons@, idx)]
        meshes.contains_key(m) implies (refers_to(meshes_after[m].skeletons@, idx) <==> refers_to(
        meshes[m].skeletons@,
        idx,
    ) && idx != k) by {
        if m != m0 {
            assert(meshes_after[m] == meshes[m]);
            if refers_to(meshes[m].skeletons@, idx) {
                let i = choose|i: int|
                    0 <= i < meshes[m].skeletons@.len() && (#[trigger] meshes[m].skeletons@[i]).idx
                        == idx;
                assert(backed(meshes[m].skeletons@, i, m, skeletons));
            }
        }
    }
}

/// One more skeleton taken out extends what a sweep has done so far.
pub proof fn lemma_sweep_step(
    before: Map<usize, InternalSkeleton>,
    meshes_before: Map<usize, InternalMesh>,
    pool_before: Set<int>,
    gone: Set<usize>,
    meshes_now: Map<usize, InternalMesh>,
    pool_now: Set<int>,
    k: usize,
    meshes_after: Map<usize, InternalMesh>,
    pool_after: Set<int>,
)
    requires
        swept(
            before,
            meshes_before,
            pool_before,
            gone,
            before.remove_keys(gone),
            meshes_now,
            pool_now,
        ),
        before.contains_key(k),
        !gone.contains(k),
        meshes_after.dom() == meshes_now.dom(),
        forall|m: usize| #[trigger]
            meshes_now.contains_key(m) ==> meshes_after[m].vertex_range == meshes_now[m].vertex_range
                && meshes_after[m].num_joints == meshes_now[m].num_joints,
        forall|m: usize, idx: usize|
            #![trigger refers_to(meshes_after[m].skeletons@, idx)]
            meshes_now.contains_key(m) ==> (refers_to(meshes_after[m].skeletons@, idx)
                <==> refers_to(meshes_now[m].skeletons@, idx) && idx != k),
        pool_after == pool_now.union(units(before[k].skeleton_vertex_range)),
    ensures
        swept(
            before,
            meshes_before,
            pool_before,
            gone.insert(k),
            before.remove_keys(gone).remove(k),
            meshes_after,
            pool_after,
        ),
        before.remove_keys(gone).remove(k) == before.remove_keys(gone.insert(k)),
{
    let more = gone.insert(k);
    assert(before.remove_keys(gone).remove(k) =~= before.remove_keys(more));
    assert forall|m: usize| #[trigger] meshes_before.contains_key(m) implies {
        &&& meshes_after[m].vertex_range == meshes_before[m].vertex_range
        &&& meshes_after[m].num_joints == meshes_before[m].num_joints
        &&& forall|idx: usize|
            #![trigger refers_to(meshes_after[m].skeletons@, idx)]
            refers_to(meshes_after[m].skeletons@, idx) <==> refers_to(
                meshes_before[m].skeletons@,
                idx,
            ) && !more.contains(idx)
    } by {
        assert(meshes_now.contains_key(m));
        assert forall|idx: usize|
            #![trigger refers_to(meshes_after[m].skeletons@, idx)]
            refers_to(meshes_after[m].skeletons@, idx) <==> refers_to(
                meshes_before[m].skeletons@,
                idx,
            ) && !more.contains(idx) by {
            assert(refers_to(meshes_now[m].skeletons@, idx) <==> refers_to(
                meshes_before[m].skeletons@,
                idx,
            ) && !gone.contains(idx));
        }
    }
    assert forall|u: int|
        #![trigger pool_after.contains(u)]
        pool_after.contains(u) <==> pool_before.contains(u) || returned(before, more, u) by {
        assert(pool_now.contains(u) <==> pool_before.contains(u) || returned(before, gone, u));
        if returned(before, gone, u) {
            let w = choose|w: usize|
                gone.contains(w) && before.contains_key(w) && within(
                    (#[trigger] before[w]).skeleton_vertex_range,
                    u,
                );
            assert(more.contains(w));
        }
        if within(before[k].skeleton_vertex_range, u) {
            assert(more.contains(k));
            assert(returned(before, more, u));
        }
        if returned(before, more, u) {
            let w = choose|w: usize|
                more.contains(w) && before.contains_key(w) && within(
                    (#[trigger] before[w]).skeleton_vertex_range,
                    u,
                );
            if w != k {
                assert(gone.contains(w));
                assert(returned(before, gone, u));
            }
        }
    }
}

/// After a sweep nothing is left of a skeleton that was reclaimed: it is
/// not stored, no mesh lists it, and every unit of its range is free.
pub proof fn lemma_swept_clears(
    before: Map<usize, InternalSkeleton>,
    meshes_before: Map<usize, InternalMesh>,
    pool_before: Set<int>,
    dead: Set<usize>,
    after: Map<usize, InternalSkeleton>,
    meshes_after: Map<usize, InternalMesh>,
    pool_after: Set<int>,
    k: usize,
)
    requires
        swept(before, meshes_before, pool_before, dead, after, meshes_after, pool_after),
        before.contains_key(k),
        dead.contains(k),
    ensures
        !after.contains_key(k),
        forall|m: usize| #[trigger]
            meshes_after.contains_key(m) ==> !refers_to(meshes_after[m].skeletons@, k),
        forall|u: int|
            #![trigger pool_after.contains(u)]
            within(before[k].skeleton_vertex_range, u) ==> pool_after.contains(u),
{
    assert forall|m: usize| #[trigger] meshes_after.contains_key(m) implies !refers_to(
        meshes_after[m].skeletons@,
        k,
    ) by {
        assert(meshes_before.contains_key(m));
    }
    assert forall|u: int|
        #![trigger pool_after.contains(u)]
        within(before[k].skeleton_vertex_range, u) implies pool_after.contains(u) by {
        assert(returned(before, dead, u));
    }
}

/// A sweep leaves alone what it does not reclaim: a skeleton that is not
/// reclaimed is stored as before and listed by the meshes that listed it,
/// and a unit outside the reclaimed ranges is free only if it was.
pub proof fn lemma_swept_keeps(
    before: Map<usize, InternalSkeleton>,
    meshes_before: Map<usize, InternalMesh>,
    pool_before: Set<int>,
    dead: Set<usize>,
    after: Map<usize, InternalSkeleton>,
    meshes_after: Map<usize, InternalMesh>,
    pool_after: Set<int>,
    k: usize,
)
    requires
        swept(before, meshes_before, pool_before, dead, after, meshes_after, pool_after),
        before.contains_key(k),
        !dead.contains(k),
    ensures
        after.contains_key(k),
        after[k] == before[k],
        forall|m: usize| #[trigger]
            meshes_before.contains_key(m) ==> (refers_to(meshes_after[m].skeletons@, k)
                <==> refers_to(meshes_before[m].skeletons@, k)),
        forall|u: int|
            #![trigger pool_after.contains(u)]
            pool_after.contains(u) && !pool_before.contains(u) ==> returned(before, dead, u),
{
}

} // verus!
