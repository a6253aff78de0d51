//! The layout that compaction gives the vertex buffer: the meshes in dense
//! order from unit zero on, each followed at once by the skeletons that
//! deform it, in the order in which the mesh lists them.

use crate::mesh::{held_apart, span, units, InternalMesh};
use crate::range_alloc::{disjoint, held, within};
use crate::coherence::{
    all_attached, all_backed, attached, backed, clear_of_meshes, coherent, ranges_apart,
};
use crate::skeleton::{packed, InternalSkeleton};
use crate::types::uvec2_parts;
use std::ops::Range;
use vstd::prelude::*;
use vstd::set_lib::{lemma_int_range, lemma_len_subset, lemma_set_disjoint_lens, set_int_range};

verus! {

/// The number of ranges that go with the mesh at dense index `p`: its own
/// and one for each skeleton it lists.
pub open spec fn slots(meshes: Map<usize, InternalMesh>, order: Seq<usize>, p: int) -> int {
    meshes[order[p]].skeletons@.len() as int + 1
}

/// The number of units in each range that goes with the mesh at dense index `p`.
pub open spec fn width(meshes: Map<usize, InternalMesh>, order: Seq<usize>, p: int) -> int {
    span(meshes[order[p]].vertex_range)
}

/// Whether `q` numbers a range of the mesh at dense index `p`: zero for
/// the mesh's own range, `r + 1` for the skeleton it lists at `r`.
pub open spec fn is_slot(meshes: Map<usize, InternalMesh>, order: Seq<usize>, p: int, q: int) -> bool {
    0 <= p < order.len() && 0 <= q < slots(meshes, order, p)
}

/// Whether the range `(p, q)` comes before the range `(i, j)`.
pub open spec fn earlier(p: int, q: int, i: int, j: int) -> bool {
    p < i || (p == i && q < j)
}

/// Where the range `(p, q)` starts after compaction: where the one before
/// it ends, and the first at zero.
pub open spec fn slot_start(meshes: Map<usize, InternalMesh>, order: Seq<usize>, p: int, q: int) -> int
    decreases p, q,
{
    if p < 0 || q < 0 {
        0
    } else if q > 0 {
        slot_start(meshes, order, p, q - 1) + width(meshes, order, p)
    } else if p > 0 {
        slot_start(meshes, order, p - 1, slots(meshes, order, p - 1))
    } else {
        0
    }
}

/// The range `(p, q)` as it lies before compaction.
pub open spec fn old_slot(
    skeletons: Map<usize, InternalSkeleton>,
    meshes: Map<usize, InternalMesh>,
    order: Seq<usize>,
    p: int,
    q: int,
) -> Range<usize> {
    if q == 0 {
        meshes[order[p]].vertex_range
    } else {
        skeletons[meshes[order[p]].skeletons@[q - 1].idx].skeleton_vertex_range
    }
}

/// The range `(p, q)` as it lies after compaction.
pub open spec fn new_slot(meshes: Map<usize, InternalMesh>, order: Seq<usize>, p: int, q: int) -> Range<
    usize,
> {
    (slot_start(meshes, order, p, q) as usize)..((slot_start(meshes, order, p, q) + width(
        meshes,
        order,
        p,
    )) as usize)
}

/// Whether `now` is `before` with the meshes at the dense indices below
/// `i` moved to where compaction puts them.
pub open spec fn meshes_moved(
    before: Map<usize, InternalMesh>,
    order: Seq<usize>,
    i: int,
    now: Map<usize, InternalMesh>,
) -> bool {
    &&& now.dom() == before.dom()
    &&& forall|p: int|
        0 <= p < order.len() ==> {
            let m = #[trigger] order[p];
            &&& now[m].num_joints == before[m].num_joints
            &&& now[m].skeletons == before[m].skeletons
            &&& now[m].vertex_range == if p < i {
                new_slot(before, order, p, 0)
            } else {
                before[m].vertex_range
            }
        }
}

/// Whether `now` is the skeleton `before`, moved to the range `(p, q)` of
/// the compacted layout.
pub open spec fn moved_to(
    before: InternalSkeleton,
    now: InternalSkeleton,
    meshes: Map<usize, InternalMesh>,
    order: Seq<usize>,
    p: int,
    q: int,
) -> bool {
    &&& now.mesh_handle == before.mesh_handle
    &&& now.joint_matrices == before.joint_matrices
    &&& now.skeleton_vertex_range == new_slot(meshes, order, p, q)
    &&& uvec2_parts(now.ranges.skeleton_range) == packed(new_slot(meshes, order, p, q))
    &&& uvec2_parts(now.ranges.mesh_range) == packed(new_slot(meshes, order, p, 0))
}

/// Whether `now` is `before` with the skeletons whose ranges come before
/// `(i, j)` moved to where compaction puts them.
pub open spec fn skeletons_moved(
    before: Map<usize, InternalSkeleton>,
    meshes: Map<usize, InternalMesh>,
    order: Seq<usize>,
    i: int,
    j: int,
    now: Map<usize, InternalSkeleton>,
) -> bool {
    &&& now.dom() == before.dom()
    &&& forall|p: int, r: int|
        0 <= p < order.len() && 0 <= r < meshes[order[p]].skeletons@.len() ==> {
            let k = (#[trigger] meshes[order[p]].skeletons@[r]).idx;
            if earlier(p, r + 1, i, j) {
                moved_to(before[k], now[k], meshes, order, p, r + 1)
            } else {
                now[k] == before[k]
            }
        }
}

/// One range that compaction moves: where it lay and where it lies now.
#[derive(Debug)]
pub struct Relocation {
    /// The range before compaction.
    pub from: Range<usize>,
    /// The range after compaction, as long as `from`.
    pub to: Range<usize>,
}

/// The number of ranges that come before the range `(p, q)`.
pub open spec fn slot_index(meshes: Map<usize, InternalMesh>, order: Seq<usize>, p: int, q: int) -> int
    decreases p,
{
    if p <= 0 {
        q
    } else {
        slot_index(meshes, order, p - 1, slots(meshes, order, p - 1)) + q
    }
}

/// Whether `moves` tells of each range before `(i, j)`, in their order,
/// where it lay and where it lies after compaction.
pub open spec fn moves_listed(
    skeletons: Map<usize, InternalSkeleton>,
    meshes: Map<usize, InternalMesh>,
    order: Seq<usize>,
    i: int,
    j: int,
    moves: Seq<Relocation>,
) -> bool {
    &&& moves.len() == slot_index(meshes, order, i, j)
    &&& forall|p: int, q: int|
        is_slot(meshes, order, p, q) && earlier(p, q, i, j) ==> {
            let t = #[trigger] slot_index(meshes, order, p, q);
            &&& 0 <= t < moves.len()
            &&& moves[t].from == old_slot(skeletons, meshes, order, p, q)
            &&& moves[t].to == new_slot(meshes, order, p, q)
        }
}

/// Whether `order` lists the keys of `meshes`, each once.
pub open spec fn lists_meshes(meshes: Map<usize, InternalMesh>, order: Seq<usize>) -> bool {
    &&& forall|p: int| 0 <= p < order.len() ==> meshes.contains_key(#[trigger] order[p])
    &&& forall|p: int, r: int| 0 <= p < r < order.len() ==> order[p] != order[r]
    &&& forall|m: usize| #[trigger]
        meshes.contains_key(m) ==> exists|p: int| 0 <= p < order.len() && order[p] == m
}

/// Whether `u` lies in one of the ranges before `(i, j)`, as they lie
/// before compaction.
pub open spec fn in_earlier_slot(
    skeletons: Map<usize, InternalSkeleton>,
    meshes: Map<usize, InternalMesh>,
    order: Seq<usize>,
    i: int,
    j: int,
    u: int,
) -> bool {
    exists|p: int, q: int|
        is_slot(meshes, order, p, q) && earlier(p, q, i, j) && within(
            #[trigger] old_slot(skeletons, meshes, order, p, q),
            u,
        )
}

/// Whether `seen` holds units of the ranges before `(i, j)` only, all
/// below `limit`, and `count` of them.
pub open spec fn counted(
    skeletons: Map<usize, InternalSkeleton>,
    meshes: Map<usize, InternalMesh>,
    order: Seq<usize>,
    limit: int,
    i: int,
    j: int,
    seen: Set<int>,
    count: int,
) -> bool {
    &&& seen.finite()
    &&& seen.len() == count
    &&& forall|u: int| #[trigger]
        seen.contains(u) ==> 0 <= u < limit && in_earlier_slot(skeletons, meshes, order, i, j, u)
}

/// A range starts no later than any range after it, and ends where the next starts.
pub proof fn lemma_slot_monotone(
    meshes: Map<usize, InternalMesh>,
    order: Seq<usize>,
    p: int,
    q: int,
    i: int,
    j: int,
)
    requires
        0 <= p,
        0 <= q,
        0 <= j,
        (p < i && q <= slots(meshes, order, p)) || (p == i && q <= j),
    ensures
        slot_start(meshes, order, p, q) <= slot_start(meshes, order, i, j),
    decreases i, j,
{
    if p == i && q == j {
    } else if j > 0 {
        lemma_slot_monotone(meshes, order, p, q, i, j - 1);
    } else {
        lemma_slot_monotone(meshes, order, p, q, i - 1, slots(meshes, order, i - 1));
    }
}

/// After compaction a range ends before any later range starts.
pub proof fn lemma_new_slots_apart(
    meshes: Map<usize, InternalMesh>,
    order: Seq<usize>,
    p: int,
    q: int,
    i: int,
    j: int,
)
    requires
        is_slot(meshes, order, p, q),
        is_slot(meshes, order, i, j),
        earlier(p, q, i, j),
    ensures
        slot_start(meshes, order, p, q) + width(meshes, order, p) <= slot_start(meshes, order, i, j),
{
    lemma_slot_monotone(meshes, order, p, q + 1, i, j);
}

/// Two different ranges belong to different things: no skeleton is listed
/// at two places.
pub proof fn lemma_keys_differ(
    skeletons: Map<usize, InternalSkeleton>,
    meshes: Map<usize, InternalMesh>,
    order: Seq<usize>,
    p: int,
    q: int,
    i: int,
    j: int,
)
    requires
        all_backed(skeletons, meshes),
        lists_meshes(meshes, order),
        is_slot(meshes, order, p, q),
        is_slot(meshes, order, i, j),
        q >= 1,
        j >= 1,
        p != i || q != j,
    ensures
        meshes[order[p]].skeletons@[q - 1].idx != meshes[order[i]].skeletons@[j - 1].idx,
{
    let a = meshes[order[p]].skeletons@;
    let b = meshes[order[i]].skeletons@;
    assert(backed(a, q - 1, order[p], skeletons)) by {
        let r = meshes[order[p]].skeletons@[q - 1];
    }
    assert(backed(b, j - 1, order[i], skeletons)) by {
        let r = meshes[order[i]].skeletons@[j - 1];
    }
    if p == i {
        assert(a[j - 1].idx != a[q - 1].idx);
    } else {
        if p < i {
            assert(order[p] != order[i]);
        } else {
            assert(order[i] != order[p]);
        }
    }
}

/// Before compaction no two ranges share a unit, and each lies in the
/// buffer and is as long as its mesh.
pub proof fn lemma_old_slots_apart(
    skeletons: Map<usize, InternalSkeleton>,
    meshes: Map<usize, InternalMesh>,
    pool: Set<int>,
    limit: int,
    order: Seq<usize>,
    p: int,
    q: int,
    i: int,
    j: int,
)
    requires
        coherent(skeletons, meshes, pool, limit),
        held_apart(meshes, pool, limit),
        lists_meshes(meshes, order),
        is_slot(meshes, order, p, q),
        is_slot(meshes, order, i, j),
    ensures
        held(pool, limit, old_slot(skeletons, meshes, order, p, q)),
        span(old_slot(skeletons, meshes, order, p, q)) == width(meshes, order, p),
        q >= 1 ==> skeletons.contains_key(meshes[order[p]].skeletons@[q - 1].idx)
            && skeletons[meshes[order[p]].skeletons@[q - 1].idx].mesh_handle.index() == order[p],
        p != i || q != j ==> disjoint(
            old_slot(skeletons, meshes, order, p, q),
            old_slot(skeletons, meshes, order, i, j),
        ),
{
    lemma_slot_facts(skeletons, meshes, pool, limit, order, p, q);
    lemma_slot_facts(skeletons, meshes, pool, limit, order, i, j);
    if p != i || q != j {
        if q == 0 && j == 0 {
            if p < i {
                assert(order[p] != order[i]);
            } else {
                assert(order[i] != order[p]);
            }
            assert(disjoint(meshes[order[p]].vertex_range, meshes[order[i]].vertex_range));
        } else if q == 0 {
            let k = meshes[order[i]].skeletons@[j - 1].idx;
            assert(disjoint(skeletons[k].skeleton_vertex_range, meshes[order[p]].vertex_range));
        } else if j == 0 {
            let k = meshes[order[p]].skeletons@[q - 1].idx;
            assert(disjoint(skeletons[k].skeleton_vertex_range, meshes[order[i]].vertex_range));
        } else {
            lemma_keys_differ(skeletons, meshes, order, p, q, i, j);
            let a = meshes[order[p]].skeletons@[q - 1].idx;
            let b = meshes[order[i]].skeletons@[j - 1].idx;
            assert(disjoint(skeletons[a].skeleton_vertex_range, skeletons[b].skeleton_vertex_range));
        }
    }
}

/// Each range lies in the buffer, handed out, and is as long as its mesh.
proof fn lemma_slot_facts(
    skeletons: Map<usize, InternalSkeleton>,
    meshes: Map<usize, InternalMesh>,
    pool: Set<int>,
    limit: int,
    order: Seq<usize>,
    p: int,
    q: int,
)
    requires
        coherent(skeletons, meshes, pool, limit),
        held_apart(meshes, pool, limit),
        lists_meshes(meshes, order),
        is_slot(meshes, order, p, q),
    ensures
        held(pool, limit, old_slot(skeletons, meshes, order, p, q)),
        span(old_slot(skeletons, meshes, order, p, q)) == width(meshes, order, p),
        q >= 1 ==> skeletons.contains_key(meshes[order[p]].skeletons@[q - 1].idx)
            && skeletons[meshes[order[p]].skeletons@[q - 1].idx].mesh_handle.index() == order[p],
{
    assert(meshes.contains_key(order[p]));
    if q >= 1 {
        let refs = meshes[order[p]].skeletons@;
        let r = meshes[order[p]].skeletons@[q - 1];
        assert(backed(refs, q - 1, order[p], skeletons));
        assert(attached(skeletons[r.idx], r.idx, meshes, pool, limit));
    }
}

/// One more range counted: its units are new, so the count grows by its
/// length and still fits the buffer.
pub proof fn lemma_count_slot(
    skeletons: Map<usize, InternalSkeleton>,
    meshes: Map<usize, InternalMesh>,
    pool: Set<int>,
    limit: int,
    order: Seq<usize>,
    i: int,
    j: int,
    seen: Set<int>,
    count: int,
)
    requires
        coherent(skeletons, meshes, pool, limit),
        held_apart(meshes, pool, limit),
        lists_meshes(meshes, order),
        is_slot(meshes, order, i, j),
        counted(skeletons, meshes, order, limit, i, j, seen, count),
    ensures
        counted(
            skeletons,
            meshes,
            order,
            limit,
            i,
            j + 1,
            seen.union(units(old_slot(skeletons, meshes, order, i, j))),
            count + width(meshes, order, i),
        ),
        count + width(meshes, order, i) <= limit,
{
    let range = old_slot(skeletons, meshes, order, i, j);
    let more = seen.union(units(range));
    lemma_slot_facts(skeletons, meshes, pool, limit, order, i, j);
    assert(units(range) =~= set_int_range(range.start as int, range.end as int));
    lemma_int_range(range.start as int, range.end as int);
    assert(seen.disjoint(units(range))) by {
        assert forall|u: int| seen.contains(u) implies !units(range).contains(u) by {
            let (p, q) = choose|p: int, q: int|
                is_slot(meshes, order, p, q) && earlier(p, q, i, j) && within(
                    #[trigger] old_slot(skeletons, meshes, order, p, q),
                    u,
                );
            lemma_old_slots_apart(skeletons, meshes, pool, limit, order, p, q, i, j);
        }
    }
    lemma_set_disjoint_lens(seen, units(range));
    assert forall|u: int| #[trigger] more.contains(u) implies 0 <= u < limit && in_earlier_slot(
        skeletons,
        meshes,
        order,
        i,
        j + 1,
        u,
    ) by {
        if seen.contains(u) {
            let (p, q) = choose|p: int, q: int|
                is_slot(meshes, order, p, q) && earlier(p, q, i, j) && within(
                    #[trigger] old_slot(skeletons, meshes, order, p, q),
                    u,
                );
            assert(earlier(p, q, i, j + 1));
        } else {
            assert(within(old_slot(skeletons, meshes, order, i, j), u));
            assert(earlier(i, j, i, j + 1));
        }
    }
    assert(more.subset_of(set_int_range(0, limit)));
    lemma_int_range(0, limit);
    lemma_len_subset(more, set_int_range(0, limit));
}

/// What holds before the last range of a mesh is counted holds before the
/// first range of the next mesh.
pub proof fn lemma_count_next_mesh(
    skeletons: Map<usize, InternalSkeleton>,
    meshes: Map<usize, InternalMesh>,
    order: Seq<usize>,
    limit: int,
    i: int,
    seen: Set<int>,
    count: int,
)
    requires
        counted(skeletons, meshes, order, limit, i, slots(meshes, order, i), seen, count),
    ensures
        counted(skeletons, meshes, order, limit, i + 1, 0, seen, count),
{
    assert forall|u: int| #[trigger] seen.contains(u) implies in_earlier_slot(
        skeletons,
        meshes,
        order,
        i + 1,
        0,
        u,
    ) by {
        let (p, q) = choose|p: int, q: int|
            is_slot(meshes, order, p, q) && earlier(p, q, i, slots(meshes, order, i)) && within(
                #[trigger] old_slot(skeletons, meshes, order, p, q),
                u,
            );
        assert(earlier(p, q, i + 1, 0));
    }
}

/// After compaction each range lies below the end of the layout, and is
/// as long as its mesh.
pub proof fn lemma_new_slot_held(
    meshes: Map<usize, InternalMesh>,
    order: Seq<usize>,
    pool: Set<int>,
    limit: int,
    p: int,
    q: int,
)
    requires
        is_slot(meshes, order, p, q),
        slot_start(meshes, order, order.len() as int, 0) <= limit <= usize::MAX,
        forall|u: int| pool.contains(u) ==> slot_start(meshes, order, order.len() as int, 0) <= u,
    ensures
        held(pool, limit, new_slot(meshes, order, p, q)),
        span(new_slot(meshes, order, p, q)) == width(meshes, order, p),
        new_slot(meshes, order, p, q).start == slot_start(meshes, order, p, q),
        new_slot(meshes, order, p, q).end == slot_start(meshes, order, p, q) + width(
            meshes,
            order,
            p,
        ),
{
    lemma_slot_monotone(meshes, order, 0, 0, p, q);
    lemma_slot_monotone(meshes, order, p, q + 1, order.len() as int, 0);
}

/// After compaction no two ranges share a unit.
pub proof fn lemma_new_slots_disjoint(
    meshes: Map<usize, InternalMesh>,
    order: Seq<usize>,
    limit: int,
    p: int,
    q: int,
    i: int,
    j: int,
)
    requires
        is_slot(meshes, order, p, q),
        is_slot(meshes, order, i, j),
        p != i || q != j,
        slot_start(meshes, order, order.len() as int, 0) <= limit <= usize::MAX,
    ensures
        disjoint(new_slot(meshes, order, p, q), new_slot(meshes, order, i, j)),
{
    let none = Set::<int>::empty();
    lemma_slot_monotone(meshes, order, 0, 0, p, q);
    lemma_slot_monotone(meshes, order, p, q + 1, order.len() as int, 0);
    lemma_slot_monotone(meshes, order, 0, 0, i, j);
    lemma_slot_monotone(meshes, order, i, j + 1, order.len() as int, 0);
    if earlier(p, q, i, j) {
        lemma_new_slots_apart(meshes, order, p, q, i, j);
    } else {
        lemma_new_slots_apart(meshes, order, i, j, p, q);
    }
}

/// The range of a stored skeleton: the mesh it deforms lists it somewhere.
pub proof fn lemma_find_slot(
    skeletons: Map<usize, InternalSkeleton>,
    meshes: Map<usize, InternalMesh>,
    pool: Set<int>,
    limit: int,
    order: Seq<usize>,
    k: usize,
) -> (slot: (int, int))
    requires
        all_attached(skeletons, meshes, pool, limit),
        lists_meshes(meshes, order),
        skeletons.contains_key(k),
    ensures
        is_slot(meshes, order, slot.0, slot.1),
        slot.1 >= 1,
        order[slot.0] == skeletons[k].mesh_handle.index(),
        meshes[order[slot.0]].skeletons@[slot.1 - 1].idx == k,
{
    assert(attached(skeletons[k], k, meshes, pool, limit));
    let m = skeletons[k].mesh_handle.index();
    let p = choose|p: int| 0 <= p < order.len() && order[p] == m;
    let refs = meshes[m].skeletons@;
    let r = choose|r: int| 0 <= r < refs.len() && (#[trigger] refs[r]).idx == k;
    (p, r + 1)
}

/// Once every range is moved, skeletons, meshes and the buffer agree
/// again, with everything from the end of the layout on free.
pub proof fn lemma_compacted(
    skeletons: Map<usize, InternalSkeleton>,
    meshes: Map<usize, InternalMesh>,
    pool: Set<int>,
    limit: int,
    order: Seq<usize>,
    skeletons_after: Map<usize, InternalSkeleton>,
    meshes_after: Map<usize, InternalMesh>,
    pool_after: Set<int>,
)
    requires
        coherent(skeletons, meshes, pool, limit),
        held_apart(meshes, pool, limit),
        lists_meshes(meshes, order),
        meshes_moved(meshes, order, order.len() as int, meshes_after),
        skeletons_moved(skeletons, meshes, order, order.len() as int, 0, skeletons_after),
        slot_start(meshes, order, order.len() as int, 0) <= limit <= usize::MAX,
        forall|u: int|
            pool_after.contains(u) <==> slot_start(meshes, order, order.len() as int, 0) <= u
                < limit,
    ensures
        coherent(skeletons_after, meshes_after, pool_after, limit),
        held_apart(meshes_after, pool_after, limit),
{
    let n = order.len() as int;
    assert forall|k: usize| #[trigger] skeletons_after.contains_key(k) implies attached(
        skeletons_after[k],
        k,
        meshes_after,
        pool_after,
        limit,
    ) by {
        let (p, q) = lemma_find_slot(skeletons, meshes, pool, limit, order, k);
        let r = meshes[order[p]].skeletons@[q - 1];
        assert(earlier(p, q - 1 + 1, n, 0));
        assert(moved_to(skeletons[k], skeletons_after[k], meshes, order, p, q));
        assert(attached(skeletons[k], k, meshes, pool, limit));
        lemma_new_slot_held(meshes, order, pool_after, limit, p, q);
        lemma_new_slot_held(meshes, order, pool_after, limit, p, 0);
        let m = order[p];
        assert(meshes_after[m].vertex_range == new_slot(meshes, order, p, 0));
    }
    assert(all_backed(skeletons_after, meshes_after)) by {
        assert forall|m: usize, i: int|
            #![trigger meshes_after[m].skeletons@[i]]
            meshes_after.contains_key(m) && 0 <= i < meshes_after[m].skeletons@.len() implies backed(
            meshes_after[m].skeletons@,
            i,
            m,
            skeletons_after,
        ) by {
            let p = choose|p: int| 0 <= p < order.len() && order[p] == m;
            assert(meshes_after[order[p]].skeletons == meshes[order[p]].skeletons);
            let r = meshes[order[p]].skeletons@[i];
            assert(backed(meshes[m].skeletons@, i, m, skeletons));
            assert(earlier(p, i + 1, n, 0));
            assert(moved_to(skeletons[r.idx], skeletons_after[r.idx], meshes, order, p, i + 1));
        }
    }
    assert(ranges_apart(skeletons_after)) by {
        assert forall|a: usize, b: usize|
            #![trigger skeletons_after[a], skeletons_after[b]]
            skeletons_after.contains_key(a) && skeletons_after.contains_key(b) && a
            != b implies disjoint(
            skeletons_after[a].skeleton_vertex_range,
            skeletons_after[b].skeleton_vertex_range,
        ) by {
            let (p, q) = lemma_find_slot(skeletons, meshes, pool, limit, order, a);
            let (i, j) = lemma_find_slot(skeletons, meshes, pool, limit, order, b);
            let ra = meshes[order[p]].skeletons@[q - 1];
            let rb = meshes[order[i]].skeletons@[j - 1];
            assert(earlier(p, q - 1 + 1, n, 0) && earlier(i, j - 1 + 1, n, 0));
            assert(moved_to(skeletons[a], skeletons_after[a], meshes, order, p, q));
            assert(moved_to(skeletons[b], skeletons_after[b], meshes, order, i, j));
            lemma_new_slots_disjoint(meshes, order, limit, p, q, i, j);
        }
    }
    assert(clear_of_meshes(skeletons_after, meshes_after)) by {
        assert forall|k: usize, m: usize|
            #![trigger skeletons_after[k], meshes_after[m]]
            skeletons_after.contains_key(k) && meshes_after.contains_key(m) implies disjoint(
            skeletons_after[k].skeleton_vertex_range,
            meshes_after[m].vertex_range,
        ) by {
            let (p, q) = lemma_find_slot(skeletons, meshes, pool, limit, order, k);
            let i = choose|i: int| 0 <= i < order.len() && order[i] == m;
            let r = meshes[order[p]].skeletons@[q - 1];
            assert(earlier(p, q - 1 + 1, n, 0));
            assert(moved_to(skeletons[k], skeletons_after[k], meshes, order, p, q));
            assert(meshes_after[order[i]].vertex_range == new_slot(meshes, order, i, 0));
            lemma_new_slots_disjoint(meshes, order, limit, p, q, i, 0);
        }
    }
    assert(held_apart(meshes_after, pool_after, limit)) by {
        assert forall|m: usize| #[trigger] meshes_after.contains_key(m) implies held(
            pool_after,
            limit,
            meshes_after[m].vertex_range,
        ) by {
            let i = choose|i: int| 0 <= i < order.len() && order[i] == m;
            assert(meshes_after[order[i]].vertex_range == new_slot(meshes, order, i, 0));
            lemma_new_slot_held(meshes, order, pool_after, limit, i, 0);
        }
        assert forall|a: usize, b: usize|
            #![trigger meshes_after[a], meshes_after[b]]
            meshes_after.contains_key(a) && meshes_after.contains_key(b) && a != b implies disjoint(
            meshes_after[a].vertex_range,
            meshes_after[b].vertex_range,
        ) by {
            let p = choose|p: int| 0 <= p < order.len() && order[p] == a;
            let i = choose|i: int| 0 <= i < order.len() && order[i] == b;
            assert(meshes_after[order[p]].vertex_range == new_slot(meshes, order, p, 0));
            assert(meshes_after[order[i]].vertex_range == new_slot(meshes, order, i, 0));
            lemma_new_slots_disjoint(meshes, order, limit, p, 0, i, 0);
        }
    }
}

/// The skeleton at `r` in the listing of the mesh at dense index `i`,
/// moved to its place, is one more skeleton moved.
pub proof fn lemma_skeleton_step(
    skeletons: Map<usize, InternalSkeleton>,
    meshes: Map<usize, InternalMesh>,
    pool: Set<int>,
    limit: int,
    order: Seq<usize>,
    i: int,
    r: int,
    now: Map<usize, InternalSkeleton>,
    next: Map<usize, InternalSkeleton>,
)
    requires
        coherent(skeletons, meshes, pool, limit),
        lists_meshes(meshes, order),
        0 <= i < order.len(),
        0 <= r < meshes[order[i]].skeletons@.len(),
        skeletons_moved(skeletons, meshes, order, i, r + 1, now),
        next.dom() == now.dom(),
        forall|k: usize|
            #![trigger next[k]]
            now.contains_key(k) && k != meshes[order[i]].skeletons@[r].idx ==> next[k] == now[k],
        moved_to(
            now[meshes[order[i]].skeletons@[r].idx],
            next[meshes[order[i]].skeletons@[r].idx],
            meshes,
            order,
            i,
            r + 1,
        ),
    ensures
        skeletons_moved(skeletons, meshes, order, i, r + 2, next),
{
    let moved = meshes[order[i]].skeletons@[r];
    assert(!earlier(i, r + 1, i, r + 1));
    assert(now[moved.idx] == skeletons[moved.idx]);
    assert forall|p: int, t: int|
        0 <= p < order.len() && 0 <= t < meshes[order[p]].skeletons@.len() implies {
        let k = (#[trigger] meshes[order[p]].skeletons@[t]).idx;
        if earlier(p, t + 1, i, r + 2) {
            moved_to(skeletons[k], next[k], meshes, order, p, t + 1)
        } else {
            next[k] == skeletons[k]
        }
    } by {
        let k = meshes[order[p]].skeletons@[t].idx;
        assert(backed(meshes[order[p]].skeletons@, t, order[p], skeletons));
        if p != i || t != r {
            lemma_keys_differ(skeletons, meshes, order, p, t + 1, i, r + 1);
            assert(next[k] == now[k]);
        }
    }
}

/// The mesh at dense index `i`, moved to its place after its skeletons
/// were, is one more mesh moved; and the skeletons moved are those that
/// come before the next mesh.
pub proof fn lemma_mesh_step(
    skeletons: Map<usize, InternalSkeleton>,
    meshes: Map<usize, InternalMesh>,
    order: Seq<usize>,
    i: int,
    now: Map<usize, InternalMesh>,
    next: Map<usize, InternalMesh>,
    moved: Map<usize, InternalSkeleton>,
)
    requires
        lists_meshes(meshes, order),
        0 <= i < order.len(),
        meshes_moved(meshes, order, i, now),
        next.dom() == now.dom(),
        forall|m: usize| #![trigger next[m]] now.contains_key(m) && m != order[i] ==> next[m] == now[m],
        next[order[i]].num_joints == now[order[i]].num_joints,
        next[order[i]].skeletons == now[order[i]].skeletons,
        next[order[i]].vertex_range == new_slot(meshes, order, i, 0),
        skeletons_moved(skeletons, meshes, order, i, slots(meshes, order, i), moved),
    ensures
        meshes_moved(meshes, order, i + 1, next),
        skeletons_moved(skeletons, meshes, order, i + 1, 0, moved),
{
    assert forall|p: int| 0 <= p < order.len() implies {
        let m = #[trigger] order[p];
        &&& next[m].num_joints == meshes[m].num_joints
        &&& next[m].skeletons == meshes[m].skeletons
        &&& next[m].vertex_range == if p < i + 1 {
            new_slot(meshes, order, p, 0)
        } else {
            meshes[m].vertex_range
        }
    } by {
        if p < i {
            assert(order[p] != order[i]);
        } else if p > i {
            assert(order[i] != order[p]);
        }
    }
    assert forall|p: int, t: int|
        0 <= p < order.len() && 0 <= t < meshes[order[p]].skeletons@.len() implies {
        let k = (#[trigger] meshes[order[p]].skeletons@[t]).idx;
        if earlier(p, t + 1, i + 1, 0) {
            moved_to(skeletons[k], moved[k], meshes, order, p, t + 1)
        } else {
            moved[k] == skeletons[k]
        }
    } by {
        assert(earlier(p, t + 1, i + 1, 0) <==> earlier(p, t + 1, i, slots(meshes, order, i)));
    }
}

/// Before the first skeleton of a mesh is moved, the skeletons moved are
/// those that come before the mesh.
pub proof fn lemma_skeletons_start(
    skeletons: Map<usize, InternalSkeleton>,
    meshes: Map<usize, InternalMesh>,
    order: Seq<usize>,
    i: int,
    now: Map<usize, InternalSkeleton>,
)
    requires
        skeletons_moved(skeletons, meshes, order, i, 0, now),
    ensures
        skeletons_moved(skeletons, meshes, order, i, 1, now),
{
    assert forall|p: int, t: int|
        0 <= p < order.len() && 0 <= t < meshes[order[p]].skeletons@.len() implies {
        let k = (#[trigger] meshes[order[p]].skeletons@[t]).idx;
        if earlier(p, t + 1, i, 1) {
            moved_to(skeletons[k], now[k], meshes, order, p, t + 1)
        } else {
            now[k] == skeletons[k]
        }
    } by {
        assert(earlier(p, t + 1, i, 1) <==> earlier(p, t + 1, i, 0));
    }
}

/// Compaction moves a skeleton and changes nothing else of it: it keeps
/// its mesh and its joint matrices, and its range is as long as before.
pub proof fn lemma_compaction_keeps(
    skeletons: Map<usize, InternalSkeleton>,
    meshes: Map<usize, InternalMesh>,
    pool: Set<int>,
    limit: int,
    order: Seq<usize>,
    skeletons_after: Map<usize, InternalSkeleton>,
    k: usize,
)
    requires
        coherent(skeletons, meshes, pool, limit),
        held_apart(meshes, pool, limit),
        lists_meshes(meshes, order),
        skeletons_moved(skeletons, meshes, order, order.len() as int, 0, skeletons_after),
        slot_start(meshes, order, order.len() as int, 0) <= limit <= usize::MAX,
        skeletons.contains_key(k),
    ensures
        skeletons_after.contains_key(k),
        skeletons_after[k].mesh_handle == skeletons[k].mesh_handle,
        skeletons_after[k].joint_matrices == skeletons[k].joint_matrices,
        span(skeletons_after[k].skeleton_vertex_range) == span(skeletons[k].skeleton_vertex_range),
{
    let (p, q) = lemma_find_slot(skeletons, meshes, pool, limit, order, k);
    let r = meshes[order[p]].skeletons@[q - 1];
    assert(earlier(p, q - 1 + 1, order.len() as int, 0));
    assert(moved_to(skeletons[k], skeletons_after[k], meshes, order, p, q));
    assert(attached(skeletons[k], k, meshes, pool, limit));
    lemma_new_slot_held(meshes, order, Set::<int>::empty(), limit, p, q);
}

/// The move of the range `(i, j)`, added after the moves of the ranges
/// before it, makes the moves of the ranges before the next range.
pub proof fn lemma_move_pushed(
    skeletons: Map<usize, InternalSkeleton>,
    meshes: Map<usize, InternalMesh>,
    order: Seq<usize>,
    i: int,
    j: int,
    moves: Seq<Relocation>,
    next: Seq<Relocation>,
)
    requires
        is_slot(meshes, order, i, j),
        moves_listed(skeletons, meshes, order, i, j, moves),
        next.len() == moves.len() + 1,
        next.drop_last() == moves,
        next.last().from == old_slot(skeletons, meshes, order, i, j),
        next.last().to == new_slot(meshes, order, i, j),
    ensures
        moves_listed(skeletons, meshes, order, i, j + 1, next),
{
    assert(slot_index(meshes, order, i, j + 1) == slot_index(meshes, order, i, j) + 1);
    assert forall|p: int, q: int| is_slot(meshes, order, p, q) && earlier(p, q, i, j + 1) implies {
        let t = #[trigger] slot_index(meshes, order, p, q);
        &&& 0 <= t < next.len()
        &&& next[t].from == old_slot(skeletons, meshes, order, p, q)
        &&& next[t].to == new_slot(meshes, order, p, q)
    } by {
        let t = slot_index(meshes, order, p, q);
        if earlier(p, q, i, j) {
            assert(next[t] == next.drop_last()[t]);
        } else {
            assert(p == i && q == j);
            assert(next[t] == next.last());
        }
    }
}

/// The moves of the ranges before the end of a mesh are the moves of the
/// ranges before the next mesh.
pub proof fn lemma_moves_next_mesh(
    skeletons: Map<usize, InternalSkeleton>,
    meshes: Map<usize, InternalMesh>,
    order: Seq<usize>,
    i: int,
    moves: Seq<Relocation>,
)
    requires
        0 <= i,
        moves_listed(skeletons, meshes, order, i, slots(meshes, order, i), moves),
    ensures
        moves_listed(skeletons, meshes, order, i + 1, 0, moves),
{
    assert forall|p: int, q: int| is_slot(meshes, order, p, q) && earlier(p, q, i + 1, 0) implies {
        let t = #[trigger] slot_index(meshes, order, p, q);
        &&& 0 <= t < moves.len()
        &&& moves[t].from == old_slot(skeletons, meshes, order, p, q)
        &&& moves[t].to == new_slot(meshes, order, p, q)
    } by {
        assert(earlier(p, q, i, slots(meshes, order, i)));
    }
}

} // verus!
